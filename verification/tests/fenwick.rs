use rogue_gym_core::fenwick::FenwickSet;
use rogue_gym_core::rng::RngHandle;

#[test]
fn insert_contains_len() {
    let mut set = FenwickSet::with_capacity(10);
    assert_eq!(set.len(), 0);
    assert!(!set.contains(3));
    assert!(set.insert(3));
    assert!(set.insert(7));
    assert!(!set.insert(3));
    assert!(!set.insert(10));
    assert!(!set.insert(usize::MAX));
    assert_eq!(set.len(), 2);
    assert!(set.contains(3) && set.contains(7));
    assert!(!set.contains(0) && !set.contains(10) && !set.contains(usize::MAX));
}

#[test]
fn nth_is_the_member_with_that_many_below() {
    let mut set = FenwickSet::with_capacity(100);
    let members = [64usize, 0, 99, 17, 18, 63, 31, 32];
    for m in members {
        assert!(set.insert(m));
    }
    let mut sorted = members.to_vec();
    sorted.sort();
    for (k, m) in sorted.iter().enumerate() {
        assert_eq!(set.nth(k), Some(*m));
    }
    assert_eq!(set.nth(sorted.len()), None);
    assert_eq!(set.nth(usize::MAX), None);
}

#[test]
fn nth_on_every_capacity_and_every_set() {
    for cap in 0..9usize {
        for mask in 0..(1u32 << cap) {
            let mut set = FenwickSet::with_capacity(cap);
            let mut members = Vec::new();
            for i in (0..cap).rev() {
                if mask & (1 << i) != 0 {
                    assert!(set.insert(i));
                    members.push(i);
                }
            }
            members.reverse();
            assert_eq!(set.len(), members.len());
            for (k, m) in members.iter().enumerate() {
                assert_eq!(set.nth(k), Some(*m));
            }
            assert_eq!(set.nth(members.len()), None);
        }
    }
}

#[test]
fn empty_set_selects_nothing() {
    let set = FenwickSet::with_capacity(4);
    let mut rng = RngHandle::from_seed(1);
    let mut twin = RngHandle::from_seed(1);
    assert_eq!(set.select(&mut rng), None);
    assert_eq!(rng.below(1 << 40), twin.below(1 << 40));
    let none = FenwickSet::with_capacity(0);
    assert_eq!(none.select(&mut rng), None);
}

#[test]
fn select_draws_every_member_and_nothing_else() {
    let mut set = FenwickSet::with_capacity(16);
    for m in [2usize, 3, 11, 15] {
        set.insert(m);
    }
    let mut seen = [0usize; 16];
    let mut rng = RngHandle::from_seed(0x9E37_79B9_7F4A_7C15_F39C_C060_5CED_C835);
    for _ in 0..400 {
        seen[set.select(&mut rng).unwrap()] += 1;
    }
    for (i, n) in seen.iter().enumerate() {
        assert_eq!(*n > 0, set.contains(i));
    }
}
