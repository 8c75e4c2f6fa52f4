use landmass::slots::Arena;

#[test]
fn ids_are_handed_out_once() {
    let mut arena: Arena<&str> = Arena::new();
    assert!(arena.can_insert());
    assert!(arena.can_insert_two());
    assert_eq!(arena.len(), 0);
    let a = arena.insert("a");
    let b = arena.insert("b");
    let c = arena.insert("c");
    assert_ne!(a, b);
    assert_ne!(b, c);
    assert_ne!(a, c);
    assert_eq!(arena.len(), 3);
    assert_eq!(arena.get(a), Some(&"a"));
    assert_eq!(arena.get(b), Some(&"b"));
    assert_eq!(arena.get(c), Some(&"c"));
    assert_eq!(arena.find(b), Some(1));
    assert_eq!(arena.id_at(2), c);
    assert_eq!(arena.value_at(0), &"a");

    // What is taken out is gone, and the rest keeps its ids and its order.
    assert_eq!(arena.remove(b), Some("b"));
    assert_eq!(arena.remove(b), None);
    assert_eq!(arena.get(b), None);
    assert_eq!(arena.len(), 2);
    assert_eq!(arena.find(a), Some(0));
    assert_eq!(arena.find(c), Some(1));

    // An id that was in use is not handed out again, though its slot is.
    let d = arena.insert("d");
    assert_ne!(d, a);
    assert_ne!(d, b);
    assert_ne!(d, c);
    assert_eq!(arena.get(b), None);
    assert_eq!(arena.get(d), Some(&"d"));
    assert_eq!(arena.find(d), Some(2));

    // Values change in place.
    *arena.get_mut(a).unwrap() = "e";
    assert_eq!(arena.get(a), Some(&"e"));
    assert!(arena.get_mut(b).is_none());

    // An id from elsewhere names nothing.
    assert_eq!(arena.get(d.wrapping_add(1)), None);
    assert_eq!(arena.remove(0), None);
}

#[test]
fn many_ids_stay_apart() {
    let mut arena: Arena<usize> = Arena::new();
    let mut ids = vec![];
    for round in 0..50 {
        for k in 0..20 {
            ids.push((arena.insert(round * 100 + k), round * 100 + k));
        }
        // Take every other value of this round out again.
        let start = ids.len() - 20;
        for k in (start..ids.len()).rev().step_by(2) {
            let (id, value) = ids.remove(k);
            assert_eq!(arena.remove(id), Some(value));
        }
    }
    assert_eq!(arena.len(), ids.len());
    for (k, (id, value)) in ids.iter().enumerate() {
        assert_eq!(arena.get(*id), Some(value));
        assert_eq!(arena.find(*id), Some(k));
    }
    let mut sorted: Vec<u64> = ids.iter().map(|entry| entry.0).collect();
    sorted.sort();
    sorted.dedup();
    assert_eq!(sorted.len(), ids.len());
}
