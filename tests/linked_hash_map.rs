use linked_hash_map::iter::Iter;
use linked_hash_map::map::LinkedHashMap;

fn drain_iter<K: Copy, V: Copy>(mut it: Iter<K, V>) -> Vec<(K, V)> {
    let mut out = Vec::new();
    while let Some(e) = it.next() {
        out.push(e);
    }
    out
}

fn sample() -> LinkedHashMap<&'static str, i32> {
    let mut m = LinkedHashMap::new();
    m.insert("First", 5);
    m.insert("Second", 8);
    m.insert("Third", 9);
    m.insert("Fourth", 11);
    m.insert("Fifth", 15);
    m.insert("Sixth", 20);
    m
}

#[test]
fn demo_scenario() {
    let mut m = sample();
    assert_eq!(
        drain_iter(m.iter()),
        vec![("First", 5), ("Second", 8), ("Third", 9), ("Fourth", 11), ("Fifth", 15), ("Sixth", 20)]
    );

    assert_eq!(m.remove(&"Third"), Some(9));
    assert_eq!(m.remove(&"Fourth"), Some(11));
    assert_eq!(
        drain_iter(m.iter()),
        vec![("First", 5), ("Second", 8), ("Fifth", 15), ("Sixth", 20)]
    );

    assert_eq!(m.get(&"Fifth"), Some(15));

    let mut removed = Vec::new();
    for (key, _) in drain_iter(m.iter()) {
        removed.push(key);
        assert!(m.remove(&key).is_some());
    }
    assert_eq!(removed, vec!["First", "Second", "Fifth", "Sixth"]);

    assert_eq!(m.remove(&"Garbage"), None);
    assert_eq!(drain_iter(m.iter()), vec![]);
    assert!(m.is_empty());
}

#[test]
fn garbage_removal_changes_nothing() {
    let mut m = sample();
    let before = m.entries();
    assert_eq!(m.remove(&"Garbage"), None);
    assert_eq!(m.entries(), before);
    assert_eq!(m.len(), 6);
    assert_eq!(m.get(&"Third"), Some(9));
}

#[test]
fn new_map_is_empty() {
    let m: LinkedHashMap<&str, i32> = LinkedHashMap::new();
    assert_eq!(m.len(), 0);
    assert!(m.is_empty());
    assert_eq!(m.entries(), vec![]);
    assert_eq!(m.get(&"First"), None);
    assert_eq!(drain_iter(m.iter()), vec![]);
}

#[test]
fn remove_from_empty_map() {
    let mut m: LinkedHashMap<u64, u64> = LinkedHashMap::new();
    assert_eq!(m.remove(&3), None);
    assert!(m.is_empty());
}

#[test]
fn insertion_order_kept() {
    let mut m = LinkedHashMap::new();
    for k in [7u64, 3, 9, 1, 5] {
        m.insert(k, k * 10);
    }
    assert_eq!(m.entries(), vec![(7, 70), (3, 30), (9, 90), (1, 10), (5, 50)]);
}

#[test]
fn reinsert_updates_in_place() {
    let mut m = LinkedHashMap::new();
    m.insert("a", 1);
    m.insert("b", 2);
    m.insert("c", 3);
    m.insert("a", 10);
    assert_eq!(m.len(), 3);
    assert_eq!(m.get(&"a"), Some(10));
    assert_eq!(m.entries(), vec![("a", 10), ("b", 2), ("c", 3)]);
}

#[test]
fn get_returns_last_value_put() {
    let mut m = LinkedHashMap::new();
    m.insert(1u64, 100u64);
    m.insert(2, 200);
    m.insert(1, 101);
    m.remove(&2);
    m.insert(3, 300);
    m.insert(2, 201);
    assert_eq!(m.get(&1), Some(101));
    assert_eq!(m.get(&2), Some(201));
    assert_eq!(m.get(&3), Some(300));
    assert_eq!(m.get(&4), None);
    assert_eq!(m.entries(), vec![(1, 101), (3, 300), (2, 201)]);
}

#[test]
fn remove_first_middle_last() {
    let mut m = LinkedHashMap::new();
    for k in 0u64..6 {
        m.insert(k, k + 100);
    }
    assert_eq!(m.remove(&0), Some(100));
    assert_eq!(m.entries(), vec![(1, 101), (2, 102), (3, 103), (4, 104), (5, 105)]);
    assert_eq!(m.remove(&5), Some(105));
    assert_eq!(m.entries(), vec![(1, 101), (2, 102), (3, 103), (4, 104)]);
    assert_eq!(m.remove(&2), Some(102));
    assert_eq!(m.entries(), vec![(1, 101), (3, 103), (4, 104)]);
    assert_eq!(m.remove(&2), None);
    assert_eq!(m.len(), 3);
    m.insert(9, 109);
    assert_eq!(m.entries(), vec![(1, 101), (3, 103), (4, 104), (9, 109)]);
    assert_eq!(m.get(&4), Some(104));
    assert_eq!(m.get(&9), Some(109));
}

#[test]
fn remove_sole_entry_then_reuse() {
    let mut m = LinkedHashMap::new();
    m.insert("only", 1);
    assert_eq!(m.remove(&"only"), Some(1));
    assert!(m.is_empty());
    assert_eq!(m.entries(), vec![]);
    m.insert("next", 2);
    m.insert("after", 3);
    assert_eq!(m.entries(), vec![("next", 2), ("after", 3)]);
}

#[test]
fn removal_keeps_others_in_order() {
    let mut m = LinkedHashMap::new();
    for k in 0u64..20 {
        m.insert(k, k * k);
    }
    for k in [3u64, 17, 0, 19, 8, 9, 10] {
        assert_eq!(m.remove(&k), Some(k * k));
    }
    let expected: Vec<(u64, u64)> = [1u64, 2, 4, 5, 6, 7, 11, 12, 13, 14, 15, 16, 18]
        .iter()
        .map(|&k| (k, k * k))
        .collect();
    assert_eq!(m.entries(), expected);
    for &(k, v) in &expected {
        assert_eq!(m.get(&k), Some(v));
    }
}

#[test]
fn drain_takes_exactly_len_steps() {
    let mut m = LinkedHashMap::new();
    for k in 0u64..7 {
        m.insert(k, k);
    }
    let mut steps = 0;
    loop {
        let first = match m.iter().next() {
            Some((k, _)) => k,
            None => break,
        };
        assert_eq!(m.remove(&first), Some(first));
        steps += 1;
    }
    assert_eq!(steps, 7);
    assert_eq!(drain_iter(m.iter()), vec![]);
}

#[test]
fn cursor_is_a_snapshot() {
    let mut m = sample();
    let mut it = m.iter();
    assert_eq!(it.next(), Some(("First", 5)));
    m.remove(&"Second");
    m.insert("Seventh", 21);
    assert_eq!(it.next(), Some(("Second", 8)));
    assert_eq!(drain_iter(it).len(), 4);
    let fresh = drain_iter(m.iter());
    assert_eq!(fresh.len(), 6);
    assert_eq!(fresh[1], ("Third", 9));
    assert_eq!(fresh[5], ("Seventh", 21));
}

#[test]
fn cursor_ends_and_stays_ended() {
    let mut m = LinkedHashMap::new();
    m.insert(1u64, 2u64);
    let mut it = m.iter();
    assert_eq!(it.next(), Some((1, 2)));
    assert_eq!(it.next(), None);
    assert_eq!(it.next(), None);
}

#[test]
fn from_entries_yields_in_order() {
    let it = Iter::from_entries(vec![(2u64, 'b'), (1, 'a')]);
    assert_eq!(drain_iter(it), vec![(2, 'b'), (1, 'a')]);
}
