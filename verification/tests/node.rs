use vector_db::arena::size_aligned;
use vector_db::arena::Arena;
use vector_db::arena::DynAlloc;
use vector_db::handle::Handle;
use vector_db::metric::DistanceMetric;
use vector_db::metric::DistanceMetricKind;
use vector_db::node::Neighbor;
use vector_db::node::Neighbor0;
use vector_db::node::Neighbors;
use vector_db::node::Neighbors0;
use vector_db::node::Node;
use vector_db::node::Node0;
use vector_db::node::NodeHandle;
use vector_db::node::VecHandle;
use vector_db::storage::Quantization;

fn bits(x: f32) -> u32 {
    x.to_bits()
}

#[test]
fn test_node_allocation() {
    let metadata: u16 = 5;
    let mut arena = Arena::<Node>::new(16, metadata);
    let dummy_vec_handle = VecHandle::invalid();
    let dummy_child_handle = NodeHandle::invalid();

    let node_handle = arena.allocate((dummy_vec_handle, dummy_child_handle));
    let node = arena.index(node_handle);

    assert_eq!(node.vec(), dummy_vec_handle);
    assert_eq!(node.child(), dummy_child_handle);

    let neighbors = node.neighbors();
    assert!(!neighbors.neighbors_full());
    assert_eq!(neighbors.lowest_index(), 0);
    assert_eq!(f32::from_bits(neighbors.lowest_score()), 0.0);
    assert_eq!(neighbors.slots().len(), metadata as usize);

    for neighbor in neighbors.slots() {
        assert_eq!(*neighbor.node(), 0);
        assert_eq!(f32::from_bits(neighbor.score()), 0.0);
    }
}

#[test]
fn test_node0_allocation() {
    let metadata: u16 = 3;
    let mut arena = Arena::<Node0>::new(16, metadata);
    let dummy_vec_handle = VecHandle::invalid();

    let node0_handle = arena.allocate(dummy_vec_handle);
    let node0 = arena.index(node0_handle);

    assert_eq!(node0.vec(), dummy_vec_handle);

    let neighbors = node0.neighbors();
    assert!(!neighbors.neighbors_full());
    assert_eq!(neighbors.lowest_index(), 0);
    assert_eq!(f32::from_bits(neighbors.lowest_score()), 0.0);
    assert_eq!(neighbors.slots().len(), metadata as usize);

    for neighbor in neighbors.slots() {
        assert_eq!(*neighbor.node(), 0);
        assert_eq!(f32::from_bits(neighbor.score()), 0.0);
    }
}

#[test]
fn test_clear_arena() {
    let metadata: u16 = 2;
    let mut arena = Arena::<Node>::new(16, metadata);
    let dummy_vec_handle = VecHandle::invalid();
    let dummy_child_handle = NodeHandle::invalid();

    let _node1 = arena.allocate((dummy_vec_handle, dummy_child_handle));
    let _node2 = arena.allocate((dummy_vec_handle, dummy_child_handle));
    assert_eq!(arena.len(), 2);

    arena.clear();
    assert_eq!(arena.len(), 0);
}

fn live(list: &Neighbors) -> Vec<(u32, f32)> {
    list.neighbors().iter().map(|n| (*n.node(), f32::from_bits(n.score()))).collect()
}

fn live0(list: &Neighbors0) -> Vec<(u32, f32)> {
    list.neighbors().iter().map(|n| (*n.node(), f32::from_bits(n.score()))).collect()
}

#[test]
fn a_list_fills_from_the_front() {
    let metric = DistanceMetric::new(DistanceMetricKind::Cosine, Quantization::FullPrecisionFP);
    let mut list = Neighbors::blank(3);
    assert_eq!(list.capacity(), 3);
    assert_eq!(live(&list), vec![]);

    list.insert_neighbor(&metric, Handle::new(7), bits(0.5));
    assert!(!list.neighbors_full());
    assert_eq!(list.lowest_index(), 1);
    assert_eq!(live(&list), vec![(7, 0.5)]);

    list.insert_neighbor(&metric, Handle::new(8), bits(0.25));
    assert!(!list.neighbors_full());
    assert_eq!(list.lowest_index(), 2);
    assert_eq!(live(&list), vec![(7, 0.5), (8, 0.25)]);

    list.insert_neighbor(&metric, Handle::new(9), bits(0.75));
    assert!(list.neighbors_full());
    assert_eq!(list.lowest_index(), 1);
    assert_eq!(f32::from_bits(list.lowest_score()), 0.25);
    assert_eq!(live(&list), vec![(7, 0.5), (8, 0.25), (9, 0.75)]);
}

#[test]
fn a_full_list_gives_up_its_weakest_for_a_better_one() {
    let metric = DistanceMetric::new(DistanceMetricKind::Cosine, Quantization::FullPrecisionFP);
    let mut list = Neighbors::blank(3);
    list.insert_neighbor(&metric, Handle::new(1), bits(0.5));
    list.insert_neighbor(&metric, Handle::new(2), bits(0.25));
    list.insert_neighbor(&metric, Handle::new(3), bits(0.75));

    list.insert_neighbor(&metric, Handle::new(4), bits(0.25));
    assert_eq!(live(&list), vec![(1, 0.5), (2, 0.25), (3, 0.75)]);

    list.insert_neighbor(&metric, Handle::new(5), bits(0.125));
    assert_eq!(live(&list), vec![(1, 0.5), (2, 0.25), (3, 0.75)]);

    list.insert_neighbor(&metric, Handle::new(6), bits(0.625));
    assert!(list.neighbors_full());
    assert_eq!(live(&list), vec![(1, 0.5), (6, 0.625), (3, 0.75)]);
    assert_eq!(list.lowest_index(), 0);
    assert_eq!(f32::from_bits(list.lowest_score()), 0.5);
}

#[test]
fn with_a_distance_the_weakest_is_the_farthest() {
    let metric = DistanceMetric::new(DistanceMetricKind::Euclidean, Quantization::FullPrecisionFP);
    let mut list = Neighbors0::blank(2);
    list.insert_neighbor(&metric, Handle::new(1), bits(3.0));
    list.insert_neighbor(&metric, Handle::new(2), bits(1.0));
    assert!(list.neighbors_full());
    assert_eq!(list.lowest_index(), 0);
    assert_eq!(f32::from_bits(list.lowest_score()), 3.0);

    list.insert_neighbor(&metric, Handle::new(3), bits(4.0));
    assert_eq!(live0(&list), vec![(1, 3.0), (2, 1.0)]);

    list.insert_neighbor(&metric, Handle::new(4), bits(2.0));
    assert_eq!(live0(&list), vec![(4, 2.0), (2, 1.0)]);
    assert_eq!(list.lowest_index(), 0);
    assert_eq!(f32::from_bits(list.lowest_score()), 2.0);
}

#[test]
fn no_full_list_holds_a_score_below_its_weakest() {
    let metric = DistanceMetric::new(DistanceMetricKind::DotProduct, Quantization::FullPrecisionFP);
    let mut list = Neighbors::blank(4);
    let mut state: u32 = 12345;
    for i in 0..200u32 {
        state = state.wrapping_mul(1664525).wrapping_add(1013904223);
        let score = (state >> 8) as f32 / 16777216.0 - 0.5;
        list.insert_neighbor(&metric, Handle::new(i), bits(score));
        assert!(list.neighbors().len() <= 4);
        if list.neighbors_full() {
            assert_eq!(list.neighbors().len(), 4);
            let lowest = f32::from_bits(list.lowest_score());
            for neighbor in list.neighbors() {
                assert!(f32::from_bits(neighbor.score()) >= lowest);
            }
            let at = &list.slots()[list.lowest_index() as usize];
            assert_eq!(f32::from_bits(at.score()), lowest);
        } else {
            assert_eq!(list.neighbors().len(), list.lowest_index() as usize);
        }
    }
}

#[test]
fn seeding_a_list_takes_the_entries_in_order() {
    let metric = DistanceMetric::new(DistanceMetricKind::Cosine, Quantization::FullPrecisionFP);
    let mut list = Neighbors::blank(3);
    list.seed(&metric, &vec![(4, bits(0.5)), (2, bits(0.75))]);
    assert!(!list.neighbors_full());
    assert_eq!(list.lowest_index(), 2);
    assert_eq!(live(&list), vec![(4, 0.5), (2, 0.75)]);

    let mut full = Neighbors0::blank(2);
    full.seed(&metric, &vec![(4, bits(0.5)), (2, bits(0.25))]);
    assert!(full.neighbors_full());
    assert_eq!(full.lowest_index(), 1);
    assert_eq!(f32::from_bits(full.lowest_score()), 0.25);
    assert_eq!(live0(&full), vec![(4, 0.5), (2, 0.25)]);
}

#[test]
fn neighbor_entries_keep_what_they_were_made_with() {
    let neighbor = Neighbor::new(Handle::new(17), bits(0.5));
    assert_eq!(*neighbor.node(), 17);
    assert_eq!(f32::from_bits(neighbor.score()), 0.5);
    let neighbor0 = Neighbor0::new(Handle::new(18), bits(-0.5));
    assert_eq!(*neighbor0.node(), 18);
    assert_eq!(f32::from_bits(neighbor0.score()), -0.5);
}

#[test]
fn record_sizes_follow_the_fan_out() {
    assert_eq!(Neighbors::size(16), 8 + 16 * 8);
    assert_eq!(Neighbors0::size(32), 8 + 32 * 8);
    assert_eq!(Node::size(16), 12 + 8 + 16 * 8);
    assert_eq!(Node0::size(32), 8 + 8 + 32 * 8);
    assert_eq!(Node::align(), 4);
    assert_eq!(size_aligned::<Node>(16), 148);
    assert_eq!(size_aligned::<Node0>(32), 272);
}
