use scene_graph::handle::Handle;
use scene_graph::pool::HandlePool;

#[test]
fn the_none_handle_is_the_pair_of_zeros() {
    let none = Handle::none();
    assert!(none.is_none());
    assert!(!none.is_some());
    assert_eq!(none, Handle::new(0, 0));
    assert_eq!(Handle::default(), none);
    assert!(Handle::new(0, 1).is_some());
    assert!(Handle::new(1, 0).is_some());
    assert_eq!(Handle::new(7, 3).index(), 7);
    assert_eq!(Handle::new(7, 3).generation(), 3);
}

#[test]
fn inserted_values_are_found_by_their_handles() {
    let mut pool: HandlePool<String> = HandlePool::new();
    assert_eq!(pool.len(), 0);
    let a = pool.insert("a".to_string());
    let b = pool.insert("b".to_string());
    assert!(a.is_some() && b.is_some());
    assert_ne!(a, b);
    assert_eq!(pool.len(), 2);
    assert_eq!(pool.get(a).map(|s| s.as_str()), Some("a"));
    assert_eq!(pool.get(b).map(|s| s.as_str()), Some("b"));
    assert!(pool.is_valid_handle(a));
    assert!(pool.get(Handle::none()).is_none());
    assert!(pool.get(Handle::new(5, 1)).is_none());
    assert!(pool.get(Handle::new(a.index(), a.generation() + 1)).is_none());
}

#[test]
fn get_mut_changes_the_value_in_place() {
    let mut pool: HandlePool<u32> = HandlePool::new();
    let a = pool.insert(1);
    let b = pool.insert(2);
    *pool.get_mut(a).unwrap() = 11;
    assert_eq!(pool.get(a), Some(&11));
    assert_eq!(pool.get(b), Some(&2));
    assert!(pool.get_mut(Handle::none()).is_none());
    assert_eq!(pool.len(), 2);
}

#[test]
fn removal_returns_the_value_and_invalidates_the_handle() {
    let mut pool: HandlePool<u32> = HandlePool::new();
    let a = pool.insert(1);
    let b = pool.insert(2);
    assert_eq!(pool.remove(a), Some(1));
    assert_eq!(pool.remove(a), None);
    assert_eq!(pool.get(a), None);
    assert!(!pool.is_valid_handle(a));
    assert_eq!(pool.get(b), Some(&2));
    assert_eq!(pool.len(), 1);
    assert_eq!(pool.remove(Handle::none()), None);
}

#[test]
fn a_reused_slot_has_a_later_generation() {
    let mut pool: HandlePool<u32> = HandlePool::new();
    let a = pool.insert(1);
    assert_eq!(a, Handle::new(0, 1));
    pool.remove(a);
    let b = pool.insert(2);
    assert_eq!(b, Handle::new(0, 2));
    assert_eq!(pool.get(a), None);
    assert_eq!(pool.get(b), Some(&2));
    let c = pool.insert(3);
    assert_eq!(c, Handle::new(1, 1));
}

#[test]
fn the_slot_freed_last_is_reused_first() {
    let mut pool: HandlePool<u32> = HandlePool::new();
    let a = pool.insert(1);
    let b = pool.insert(2);
    let _c = pool.insert(3);
    pool.remove(a);
    pool.remove(b);
    let d = pool.insert(4);
    assert_eq!(d.index(), b.index());
    let e = pool.insert(5);
    assert_eq!(e.index(), a.index());
    assert!(pool.has_room());
    assert_eq!(pool.len(), 3);
}

#[test]
fn churn_never_revives_an_old_handle() {
    let mut pool: HandlePool<u32> = HandlePool::new();
    let mut old = Vec::new();
    for round in 0..50u32 {
        let h = pool.insert(round);
        for stale in old.iter() {
            assert_ne!(*stale, h);
            assert!(pool.get(*stale).is_none());
        }
        assert_eq!(pool.remove(h), Some(round));
        old.push(h);
    }
    assert_eq!(pool.len(), 0);
}
