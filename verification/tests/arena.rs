use comfy_wars::arena_model::Key;
use comfy_wars::genarena::GenArena;

#[test]
fn arena_stale_key_fails_after_slot_is_reused() {
    let mut arena: GenArena<&str> = GenArena::new();
    let first = arena.insert("first");
    assert_eq!(Some(&"first"), arena.get(first));
    assert_eq!(Some("first"), arena.remove(first));
    assert_eq!(None, arena.get(first));
    let second = arena.insert("second");
    assert_eq!(first.index, second.index);
    assert_ne!(first.generation, second.generation);
    assert!(first != second);
    assert_eq!(None, arena.get(first));
    assert_eq!(Some(&"second"), arena.get(second));
}

#[test]
fn arena_stale_key_stays_dead_through_many_changes() {
    let mut arena: GenArena<u32> = GenArena::new();
    let a = arena.insert(1);
    let b = arena.insert(2);
    arena.remove(a);
    for round in 0..20 {
        let k = arena.insert(100 + round);
        assert_eq!(None, arena.get(a));
        assert_eq!(Some(&2), arena.get(b));
        assert_eq!(Some(&(100 + round)), arena.get(k));
        assert_eq!(Some(100 + round), arena.remove(k));
        assert_eq!(None, arena.get(k));
    }
    assert_eq!(None, arena.get(a));
}

#[test]
fn arena_generations_rise_on_remove_and_on_reuse() {
    let mut arena: GenArena<u8> = GenArena::new();
    let a = arena.insert(1);
    assert_eq!(0, a.index);
    assert_eq!(0, a.generation);
    arena.remove(a);
    let b = arena.insert(2);
    assert_eq!(0, b.index);
    assert_eq!(2, b.generation);
}

#[test]
fn arena_remove_twice_gives_nothing() {
    let mut arena: GenArena<u8> = GenArena::new();
    let a = arena.insert(1);
    assert_eq!(Some(1), arena.remove(a));
    assert_eq!(None, arena.remove(a));
    let b = arena.insert(2);
    assert_eq!(None, arena.remove(a));
    assert_eq!(Some(&2), arena.get(b));
}

#[test]
fn arena_unknown_key_finds_nothing() {
    let mut arena: GenArena<u8> = GenArena::new();
    let a = arena.insert(1);
    let far = Key { index: 7, generation: 0, marker: a.marker };
    assert_eq!(None, arena.get(far));
    assert_eq!(None, arena.remove(far));
    assert!(arena.get_mut(far).is_none());
    let later = Key { index: 0, generation: 1, marker: a.marker };
    assert_eq!(None, arena.get(later));
}

#[test]
fn arena_appends_when_no_slot_is_free() {
    let mut arena: GenArena<u8> = GenArena::new();
    let a = arena.insert(1);
    let b = arena.insert(2);
    let c = arena.insert(3);
    assert_eq!((0, 1, 2), (a.index, b.index, c.index));
    assert_eq!((0, 0, 0), (a.generation, b.generation, c.generation));
}

#[test]
fn arena_reuses_the_slot_freed_last() {
    let mut arena: GenArena<u8> = GenArena::new();
    let a = arena.insert(1);
    let b = arena.insert(2);
    let _c = arena.insert(3);
    arena.remove(a);
    arena.remove(b);
    let d = arena.insert(4);
    let e = arena.insert(5);
    let f = arena.insert(6);
    assert_eq!(b.index, d.index);
    assert_eq!(a.index, e.index);
    assert_eq!(3, f.index);
}

#[test]
fn arena_get_mut_changes_the_value_only() {
    let mut arena: GenArena<u8> = GenArena::new();
    let a = arena.insert(1);
    let b = arena.insert(2);
    *arena.get_mut(a).unwrap() = 9;
    assert_eq!(Some(&9), arena.get(a));
    assert_eq!(Some(&2), arena.get(b));
    arena.remove(a);
    assert!(arena.get_mut(a).is_none());
}

#[test]
fn arena_iterates_occupied_slots_in_slot_order() {
    let mut arena: GenArena<u8> = GenArena::new();
    let a = arena.insert(10);
    let b = arena.insert(20);
    let c = arena.insert(30);
    arena.remove(b);
    assert_eq!(vec![&10, &30], arena.iter());
    let d = arena.insert(40);
    assert_eq!(vec![&10, &40, &30], arena.iter());
    let keys: Vec<_> = arena.iter_keys().into_iter().map(|(k, v)| (k.index, k.generation, *v)).collect();
    assert_eq!(vec![(0, 0, 10), (1, 2, 40), (2, 0, 30)], keys);
    assert!(arena.iter_keys()[1].0 == d);
    assert!(arena.iter_keys()[0].0 == a);
    assert!(arena.iter_keys()[2].0 == c);
    // a second walk gives the same
    assert_eq!(vec![&10, &40, &30], arena.iter());
}

#[test]
fn arena_empty_has_nothing_to_iterate() {
    let arena: GenArena<u8> = GenArena::new();
    assert!(arena.iter().is_empty());
    assert!(arena.iter_keys().is_empty());
}

#[test]
fn key_equality_needs_slot_and_generation() {
    let mut arena: GenArena<u8> = GenArena::new();
    let a = arena.insert(1);
    let copy = a;
    assert!(a == copy);
    assert!(a.clone() == a);
    let other_generation = Key { index: a.index, generation: a.generation + 1, marker: a.marker };
    let other_slot = Key { index: a.index + 1, generation: a.generation, marker: a.marker };
    assert!(a != other_generation);
    assert!(a != other_slot);
}
