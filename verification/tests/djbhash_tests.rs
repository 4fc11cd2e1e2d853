use djbhash::DJBHasher;
use djbhash::HashMap;
use djbhash::HashSet;
use djbhash::TableKey;

#[test]
fn test_empty() {
    let m: HashMap<usize, usize> = HashMap::new();
    assert_eq!(m.len(), 0);
    assert_eq!(m.capacity(), 8);
    assert_eq!(m.get(&1), None);

    let mut count = 0;
    let mut it = m.iter();
    while let Some((_, _)) = it.next() {
        count += 1;
    }
    assert_eq!(count, 0);
}

#[test]
fn test_one() {
    let mut m: HashMap<usize, usize> = HashMap::new();
    assert_eq!(m.len(), 0);
    assert_eq!(m.insert(1, 400), None);
    assert_eq!(m.len(), 1);
    assert_eq!(m.capacity(), 8);
    match m.get(&1) {
        Some(y) => assert_eq!(*y, 400),
        None => panic!("panicure!"),
    }
    match m.get_mut(&1) {
        Some(y) => *y = 500,
        _ => panic!("paniced!"),
    }
    match m.get(&1) {
        Some(y) => assert_eq!(*y, 500),
        None => panic!("panicure again!"),
    }

    let mut count = 0;
    let mut it = m.iter();
    while let Some((_, _)) = it.next() {
        count += 1;
    }
    assert_eq!(count, 1);
    assert_eq!(m.len(), 1);
}

#[test]
fn test_eight() {
    let mut m: HashMap<usize, usize> = HashMap::new();
    let v = [1, 3, 5, 7, 9, 11, 13, 15];
    for i in v.iter() {
        assert_eq!(m.insert(*i, 100 * *i), None);
    }
    assert_eq!(m.len(), 8);
    assert_eq!(m.capacity(), 16);
    assert_eq!(m.insert(3, 12000), Some(300));

    let mut count = 0;
    let mut it = m.iter();
    while let Some((_, _)) = it.next() {
        count += 1;
    }
    assert_eq!(count, 8);
}

#[test]
fn test_set_empty() {
    let s: HashSet<usize> = HashSet::new();
    assert_eq!(s.len(), 0);
    assert!(!s.contains(&3));
    let mut count = 0;
    let mut it = s.iter();
    while let Some(_) = it.next() {
        count += 1;
    }
    assert_eq!(count, 0);
}

#[test]
fn test_set_nonempty() {
    let mut s: HashSet<usize> = HashSet::new();
    let v = [1, 3, 5, 7, 9, 11, 13, 15];
    for i in v.iter() {
        assert!(s.insert(*i));
    }
    assert_eq!(s.len(), 8);
    assert!(s.contains(&3));
    let mut count = 0;
    let mut it = s.iter();
    while let Some(_) = it.next() {
        count += 1;
    }
    assert_eq!(count, 8);
    let empty: HashSet<usize> = HashSet::new();
    assert!(s.is_disjoint(&empty));
    assert!(empty.is_subset(&s));
    assert!(s.is_superset(&empty));
}

#[test]
fn test_hasher_seed_and_steps() {
    let st = DJBHasher::new();
    assert_eq!(st.finish(), 5381);

    let mut st = DJBHasher::new();
    st.write(&[1u8]);
    // one step: (33 * 5381) ^ 1
    assert_eq!(st.finish(), (33u64 * 5381) ^ 1);
    st.write(&[2u8]);
    // streaming: finish does not reset the state
    assert_eq!(st.finish(), (33u64.wrapping_mul((33u64 * 5381) ^ 1)) ^ 2);
}

#[test]
fn test_hasher_matches_key_hash() {
    // hashing a key streams its eight little-endian bytes
    let x: u64 = 0x0102_0304_0506_0708;
    let mut st = DJBHasher::new();
    st.write(&[0x08, 0x07, 0x06, 0x05, 0x04, 0x03, 0x02, 0x01]);
    assert_eq!(st.finish(), x.key_hash());
}

#[test]
fn test_with_capacity_rounds_up() {
    let m: HashMap<u64, u64> = HashMap::with_capacity(0);
    assert_eq!(m.capacity(), 1);
    let m: HashMap<u64, u64> = HashMap::with_capacity(3);
    assert_eq!(m.capacity(), 4);
    let m: HashMap<u64, u64> = HashMap::with_capacity(8);
    assert_eq!(m.capacity(), 8);
    let m: HashMap<u64, u64> = HashMap::with_capacity(9);
    assert_eq!(m.capacity(), 16);
}

#[test]
fn test_capacity_growth_threshold() {
    // capacity 8 doubles exactly when live entries exceed two thirds:
    // the seventh insert sees six live entries, 6 * 3 > 8 * 2
    let mut m: HashMap<usize, usize> = HashMap::new();
    for i in 0..6 {
        m.insert(i, i);
        assert_eq!(m.capacity(), 8);
    }
    m.insert(6, 6);
    assert_eq!(m.capacity(), 16);
}

#[test]
fn test_overwrite_keeps_len() {
    let mut m: HashMap<u64, u64> = HashMap::new();
    assert_eq!(m.insert(7, 1), None);
    assert_eq!(m.len(), 1);
    assert_eq!(m.insert(7, 2), Some(1));
    assert_eq!(m.len(), 1);
    assert_eq!(m.get(&7), Some(&2));
}

#[test]
fn test_insert_get_many_across_growth() {
    let mut m: HashMap<u64, u64> = HashMap::new();
    for i in 0..200u64 {
        assert_eq!(m.insert(i, 3 * i + 1), None);
    }
    assert_eq!(m.len(), 200);
    for i in 0..200u64 {
        assert_eq!(m.get(&i), Some(&(3 * i + 1)));
    }
    assert_eq!(m.get(&200), None);
    assert!(m.capacity() >= 256);
}

#[test]
fn test_clear_resets_contents_not_capacity() {
    let mut m: HashMap<usize, usize> = HashMap::new();
    for i in 0..10 {
        m.insert(i, i);
    }
    let cap = m.capacity();
    m.clear();
    assert_eq!(m.len(), 0);
    assert_eq!(m.capacity(), cap);
    assert_eq!(m.get(&3), None);
    assert_eq!(m.insert(3, 30), None);
    assert_eq!(m.get(&3), Some(&30));
}

#[test]
fn test_get_mut_absent() {
    let mut m: HashMap<usize, usize> = HashMap::new();
    m.insert(1, 10);
    assert!(m.get_mut(&2).is_none());
    assert_eq!(m.len(), 1);
}

#[test]
fn test_contains_key() {
    let mut m: HashMap<u64, u64> = HashMap::new();
    m.insert(42, 1);
    assert!(m.contains_key(&42));
    assert!(!m.contains_key(&43));
}

#[test]
fn test_find_equiv() {
    let mut m: HashMap<u64, u64> = HashMap::new();
    m.insert(9, 81);
    assert_eq!(m.find_equiv(&9), Some(&81));
    assert_eq!(m.find_equiv(&10), None);
}

#[test]
fn test_keys_iteration() {
    let mut m: HashMap<usize, usize> = HashMap::new();
    for i in [4usize, 8, 15] {
        m.insert(i, i + 1);
    }
    let mut seen = vec![];
    let mut it = m.keys();
    while let Some(k) = it.next() {
        seen.push(*k);
    }
    seen.sort();
    assert_eq!(seen, vec![4, 8, 15]);
}

#[test]
fn test_iter_yields_each_pair_once() {
    let mut m: HashMap<usize, usize> = HashMap::new();
    for i in 0..20 {
        m.insert(i, 100 + i);
    }
    let mut pairs = vec![];
    let mut it = m.iter();
    while let Some((k, v)) = it.next() {
        pairs.push((*k, *v));
    }
    assert_eq!(pairs.len(), m.len());
    pairs.sort();
    for (i, (k, v)) in pairs.iter().enumerate() {
        assert_eq!(*k, i);
        assert_eq!(*v, 100 + i);
    }
}

#[test]
fn test_set_insert_first_time_only() {
    let mut s: HashSet<u64> = HashSet::new();
    assert!(s.insert(5));
    assert!(!s.insert(5));
    assert!(!s.insert(5));
    assert_eq!(s.len(), 1);
    assert!(s.insert(6));
    assert_eq!(s.len(), 2);
}

#[test]
fn test_set_algebra_symmetry() {
    let mut a: HashSet<usize> = HashSet::new();
    let mut b: HashSet<usize> = HashSet::new();
    let mut c: HashSet<usize> = HashSet::new();
    a.insert(1);
    a.insert(2);
    b.insert(1);
    b.insert(2);
    b.insert(3);
    c.insert(9);

    assert!(a.is_subset(&b));
    assert!(b.is_superset(&a));
    assert!(!b.is_subset(&a));
    assert!(!a.is_superset(&b));

    assert!(a.is_disjoint(&c));
    assert!(c.is_disjoint(&a));
    assert!(!a.is_disjoint(&b));
    assert!(!b.is_disjoint(&a));
}

#[test]
fn test_set_iter_counts_elements() {
    let mut s: HashSet<usize> = HashSet::new();
    for i in 0..30 {
        s.insert(i);
        s.insert(i);
    }
    assert_eq!(s.len(), 30);
    let mut count = 0;
    let mut it = s.iter();
    while let Some(_) = it.next() {
        count += 1;
    }
    assert_eq!(count, 30);
}
