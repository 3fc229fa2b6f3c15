use counter::Counter;

const A: u64 = 10;
const B: u64 = 20;
const C: u64 = 30;
const D: u64 = 40;

fn sorted(mut v: Vec<(u64, u64)>) -> Vec<(u64, u64)> {
    v.sort();
    v
}

#[test]
fn fresh_counter_reads_zero_and_stays_empty() {
    let c = Counter::new();
    assert_eq!(*c.index(&7), 0);
    assert_eq!(*c.index(&u64::MAX), 0);
    assert_eq!(c.get_map().len(), 0);
    assert_eq!(c.total(), 0);
}

#[test]
fn default_counter_is_empty() {
    let c = Counter::default();
    assert_eq!(*c.index(&1), 0);
    assert_eq!(c.get_map().len(), 0);
    assert!(c.iter().is_empty());
}

#[test]
fn init_counts_occurrences() {
    let c = Counter::init(&[A, B, A, C, A, B]);
    assert_eq!(*c.index(&A), 3);
    assert_eq!(*c.index(&B), 2);
    assert_eq!(*c.index(&C), 1);
    assert_eq!(*c.index(&D), 0);
    assert_eq!(c.total(), 6);
    assert_eq!(c.get_map().len(), 3);
}

#[test]
fn init_from_empty_sequence() {
    let c = Counter::init(&[]);
    assert_eq!(c.get_map().len(), 0);
    assert_eq!(c.total(), 0);
}

#[test]
fn update_adds_to_existing_counts() {
    let mut c = Counter::init(&[1, 2, 2]);
    c.update(&[2, 3, 3, 3]);
    assert_eq!(*c.index(&1), 1);
    assert_eq!(*c.index(&2), 3);
    assert_eq!(*c.index(&3), 3);
    assert_eq!(c.total(), 7);
}

#[test]
fn empty_update_changes_nothing() {
    let mut c = Counter::init(&[5, 6, 5]);
    let before = sorted(c.iter());
    let total_before = c.total();
    c.update(&[]);
    assert_eq!(sorted(c.iter()), before);
    assert_eq!(c.total(), total_before);
}

#[test]
fn total_is_sum_of_iterated_counts() {
    let mut c = Counter::init(&[9, 8, 9, 7, 9]);
    *c.index_mut(&100) += 40;
    let sum: u128 = c.iter().iter().map(|&(_, n)| n as u128).sum();
    assert_eq!(c.total(), sum);
    assert_eq!(c.total(), 45);
}

#[test]
fn total_does_not_overflow_the_count_type() {
    let mut c = Counter::new();
    *c.index_mut(&1) = u64::MAX;
    *c.index_mut(&2) = u64::MAX;
    assert_eq!(c.total(), 2 * (u64::MAX as u128));
}

#[test]
fn mutable_lookup_then_read() {
    let mut c = Counter::new();
    *c.index_mut(&3) += 1;
    assert_eq!(*c.index(&3), 1);
}

#[test]
fn mutable_lookup_adds_five_twice() {
    let mut c = Counter::new();
    *c.index_mut(&A) += 5;
    assert_eq!(*c.index(&A), 5);
    *c.index_mut(&A) += 5;
    assert_eq!(*c.index(&A), 10);
}

#[test]
fn mutable_lookup_inserts_on_access() {
    let mut c = Counter::init(&[1]);
    let handle = c.index_mut(&2);
    assert_eq!(*handle, 0);
    assert_eq!(c.get_map().len(), 2);
    assert_eq!(c.get_map().get(&2), Some(&0));
    assert_eq!(*c.index(&2), 0);
}

#[test]
fn read_lookup_does_not_insert() {
    let c = Counter::init(&[1, 1]);
    assert_eq!(*c.index(&2), 0);
    assert_eq!(c.get_map().len(), 1);
    assert_eq!(c.get_map().get(&2), None);
}

#[test]
fn into_map_matches_iteration() {
    let c = Counter::init(&[4, 4, 5, 6, 6, 6]);
    let seen = sorted(c.iter());
    let map = c.into_map();
    assert_eq!(map.len(), seen.len());
    for (k, v) in &seen {
        assert_eq!(map.get(k), Some(v));
    }
    assert_eq!(seen, vec![(4, 2), (5, 1), (6, 3)]);
}

#[test]
fn into_iter_yields_every_entry_once() {
    let c = Counter::init(&[2, 1, 2]);
    assert_eq!(sorted(c.into_iter()), vec![(1, 1), (2, 2)]);
}

#[test]
fn clone_keeps_entries_and_is_independent() {
    let mut c = Counter::init(&[1, 2, 2]);
    let d = c.clone();
    c.update(&[1]);
    assert_eq!(sorted(d.iter()), vec![(1, 1), (2, 2)]);
    assert_eq!(sorted(c.iter()), vec![(1, 2), (2, 2)]);
}

#[test]
fn counts_reach_the_largest_value() {
    let mut c = Counter::new();
    *c.index_mut(&0) = u64::MAX - 1;
    c.update(&[0]);
    assert_eq!(*c.index(&0), u64::MAX);
}

#[test]
fn equal_when_entries_match() {
    let a = Counter::init(&[1, 2, 1]);
    let b = Counter::init(&[2, 1, 1]);
    assert!(a == b);
    let mut c = Counter::init(&[1, 2]);
    assert!(a != c);
    *c.index_mut(&1) += 1;
    assert!(a == c);
}

#[test]
fn zero_entry_differs_from_no_entry() {
    let a = Counter::init(&[1]);
    let mut b = Counter::init(&[1]);
    let _ = b.index_mut(&2);
    assert!(a != b);
    assert_eq!(a.total(), b.total());
}
