use std::sync::atomic::AtomicUsize;
use std::sync::atomic::Ordering;
use vector_db::arena::align_up;
use vector_db::arena::Arena;
use vector_db::arena::ArenaWithoutIndex;
use vector_db::arena::DoubleArena;
use vector_db::arena::DynAlloc;
use vector_db::handle::Handle;

#[derive(Debug, PartialEq, Eq)]
struct TestStruct {
    value: u32,
}

impl DynAlloc for TestStruct {
    type Metadata = ();
    type Args = u32;

    fn align() -> usize {
        std::mem::align_of::<Self>()
    }

    fn size(_metadata: Self::Metadata) -> usize {
        std::mem::size_of::<Self>()
    }

    fn new_at(_metadata: (), args: Self::Args) -> Self {
        Self { value: args }
    }
}

#[allow(unused)]
struct DropTest {
    id: u32,
}

static DROP_COUNT: AtomicUsize = AtomicUsize::new(0);

impl DropTest {
    fn new(id: u32) -> Self {
        DropTest { id }
    }
}

impl Drop for DropTest {
    fn drop(&mut self) {
        DROP_COUNT.fetch_add(1, Ordering::SeqCst);
    }
}

impl DynAlloc for DropTest {
    type Metadata = ();
    type Args = u32;

    fn align() -> usize {
        std::mem::align_of::<Self>()
    }

    fn size(_metadata: Self::Metadata) -> usize {
        std::mem::size_of::<Self>()
    }

    fn new_at(_metadata: (), args: Self::Args) -> Self {
        Self::new(args)
    }
}

#[test]
fn basic_allocation() {
    let mut arena = Arena::<TestStruct>::new(2, ());
    let handle1 = arena.allocate(10);
    let handle2 = arena.allocate(20);

    assert_eq!(arena.index(handle1).value, 10);
    assert_eq!(arena.index(handle2).value, 20);
    assert_eq!(arena.len(), 2);
}

#[test]
fn chunk_expansion() {
    let mut arena = Arena::<TestStruct>::new(1, ());
    let handle1 = arena.allocate(1);
    let handle2 = arena.allocate(2);

    assert_eq!(arena.index(handle1).value, 1);
    assert_eq!(arena.index(handle2).value, 2);
    assert_eq!(arena.len(), 2);
}

#[test]
fn clear_operation_and_drop_arena() {
    let mut arena = Arena::<DropTest>::new(2, ());
    let _ = arena.allocate(1);
    let _ = arena.allocate(2);

    DROP_COUNT.store(0, Ordering::SeqCst);
    arena.clear();

    assert_eq!(DROP_COUNT.load(Ordering::SeqCst), 2);
    assert_eq!(arena.len(), 0);

    DROP_COUNT.store(0, Ordering::SeqCst);
    {
        let mut arena = Arena::<DropTest>::new(2, ());
        let _ = arena.allocate(1);
        let _ = arena.allocate(2);
    }

    assert_eq!(DROP_COUNT.load(Ordering::SeqCst), 2);
}

#[test]
fn large_allocation() {
    let mut arena = Arena::<TestStruct>::new(100, ());
    for i in 0..1000 {
        let handle = arena.allocate(i as u32);
        assert_eq!(arena.index(handle).value, i as u32);
    }
    assert_eq!(arena.len(), 1000);
}

#[test]
fn handles_stay_valid_while_the_arena_grows() {
    let mut arena = Arena::<TestStruct>::new(3, ());
    let mut handles = Vec::new();
    for i in 0..50u32 {
        handles.push(arena.allocate(i * 7));
        assert_eq!(arena.len(), (i + 1) as usize);
        for (k, handle) in handles.iter().enumerate() {
            assert_eq!(**handle, k as u32);
            assert_eq!(arena.index(*handle).value, k as u32 * 7);
        }
    }
}

#[test]
fn a_new_arena_is_empty() {
    let mut arena = Arena::<TestStruct>::new(4, ());
    assert!(arena.is_empty());
    assert_eq!(arena.len(), 0);
    arena.allocate(5);
    assert!(!arena.is_empty());
    arena.clear();
    assert!(arena.is_empty());
    let handle = arena.allocate(9);
    assert_eq!(*handle, 0);
    assert_eq!(arena.index(handle).value, 9);
}

#[test]
fn index_mut_changes_one_record() {
    let mut arena = Arena::<TestStruct>::new(2, ());
    let a = arena.allocate(1);
    let b = arena.allocate(2);
    let c = arena.allocate(3);
    arena.index_mut(b).value = 20;
    assert_eq!(arena.index(a).value, 1);
    assert_eq!(arena.index(b).value, 20);
    assert_eq!(arena.index(c).value, 3);
}

#[test]
fn arena_without_index_puts_records_where_told() {
    let mut arena = ArenaWithoutIndex::<TestStruct>::new(2, ());
    let far = arena.allocate(5, 50);
    let near = arena.allocate(0, 7);
    assert_eq!(*far, 5);
    assert_eq!(*near, 0);
    assert_eq!(arena.index(far).value, 50);
    assert_eq!(arena.index(near).value, 7);
    arena.index_mut(far).value = 51;
    assert_eq!(arena.index(Handle::new(5)).value, 51);
    arena.clear(6);
    let again = arena.allocate(1, 11);
    assert_eq!(arena.index(again).value, 11);
}

#[test]
fn double_arena_fills_both_halves_under_one_index() {
    let mut arena = DoubleArena::<TestStruct, TestStruct>::new(2, (), ());
    assert!(arena.is_empty());
    let first = arena.allocate(1, 100);
    let second = arena.allocate(2, 200);
    let third = arena.allocate(3, 300);
    assert_eq!(*first, 0);
    assert_eq!(*second, 1);
    assert_eq!(*third, 2);
    assert_eq!(arena.len(), 3);
    let (a, b) = second.split();
    assert_eq!(arena.index_a(a).value, 2);
    assert_eq!(arena.index_b(b).value, 200);
    assert_eq!(arena.index_a(third.handle_a()).value, 3);
    assert_eq!(arena.index_b(first.handle_b()).value, 100);
    arena.clear();
    assert_eq!(arena.len(), 0);
}

#[test]
fn double_arena_clear_drops_every_record() {
    let mut arena = DoubleArena::<TestStruct, DropTest>::new(2, (), ());
    arena.allocate(1, 1);
    arena.allocate(2, 2);
    arena.allocate(3, 3);
    arena.clear();
    assert!(arena.is_empty());
}

#[test]
fn align_up_rounds_to_the_next_multiple() {
    assert_eq!(align_up(0, 4), 0);
    assert_eq!(align_up(1, 4), 4);
    assert_eq!(align_up(4, 4), 4);
    assert_eq!(align_up(5, 4), 8);
    assert_eq!(align_up(13, 8), 16);
    assert_eq!(align_up(17, 1), 17);
    assert_eq!(align_up(1000, 1024), 1024);
}
