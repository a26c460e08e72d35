use cargo_featurex::feature_set::bitset::{BitSet, Bits};

fn ones<S: cargo_featurex::feature_set::bitset::BitStorage>(mut bits: Bits<S>) -> Vec<usize> {
    let mut out = Vec::new();
    while let Some(i) = bits.next() {
        out.push(i);
    }
    out
}

#[test]
fn a_new_set_is_empty() {
    let s: BitSet<u8> = BitSet::new();
    assert!(!s.any());
    assert_eq!(ones(s.iter()), Vec::<usize>::new());
    let d: BitSet = BitSet::default();
    assert!(!d.any());
}

#[test]
fn set_and_clear_bits() {
    let mut s: BitSet<u16> = BitSet::new();
    s.insert(3);
    s.set(9, true);
    s.set(15, true);
    s.set(3, false);
    assert_eq!(ones(s.iter()), vec![9, 15]);
    assert!(s.any());
}

#[test]
fn iterate_from_the_back() {
    let s: BitSet<u32> = BitSet::from_iter(vec![1, 4, 31]);
    let mut it = s.iter();
    assert_eq!(it.next_back(), Some(31));
    assert_eq!(it.next(), Some(1));
    assert_eq!(it.next_back(), Some(4));
    assert_eq!(it.next(), None);
    assert_eq!(it.next_back(), None);
}

#[test]
fn union_and_difference() {
    let a: BitSet<u64> = BitSet::from_iter(vec![0, 2, 63]);
    let b: BitSet<u64> = BitSet::from_iter(vec![2, 5]);
    assert_eq!(ones(a.union(b).iter()), vec![0, 2, 5, 63]);
    assert_eq!(ones(a.difference(b).iter()), vec![0, 63]);
    assert_eq!(ones(a.bitand(b).iter()), vec![2]);
    assert_eq!(ones(a.sub(b).iter()), vec![0, 63]);
    let mut c = a;
    c.union_with(b);
    assert_eq!(ones(c.iter()), vec![0, 2, 5, 63]);
    c.difference_with(a);
    assert_eq!(ones(c.iter()), vec![5]);
    let mut d = a;
    d.bitand_assign(b);
    assert_eq!(ones(d.iter()), vec![2]);
    let mut e = a;
    e.sub_assign(b);
    assert_eq!(ones(e.iter()), vec![0, 63]);
    let mut f = b;
    f.bitor_assign(a);
    assert_eq!(ones(f.iter()), vec![0, 2, 5, 63]);
}

#[test]
fn negation_covers_the_storage() {
    let a: BitSet<u8> = BitSet::from_iter(vec![0, 1, 2, 3, 4, 5, 6]);
    assert_eq!(ones(a.not().iter()), vec![7]);
    assert_eq!(ones(a.bitor(a.not()).iter()), (0..8).collect::<Vec<usize>>());
}

#[test]
fn subsets_and_supersets() {
    let a: BitSet<u128> = BitSet::from_iter(vec![7, 100]);
    let b: BitSet<u128> = BitSet::from_iter(vec![7, 100, 127]);
    assert!(a.is_subset(b));
    assert!(!b.is_subset(a));
    assert!(b.is_superset(a));
    assert!(a.is_subset(a));
    assert!(BitSet::<u128>::new().is_subset(a));
}

#[test]
fn binary_form_writes_bytes_from_the_highest() {
    let a: BitSet<u8> = BitSet::from_iter(vec![0, 5]);
    assert_eq!(a.binary(), "0b_1000_0100");
    let b: BitSet<u16> = BitSet::from_iter(vec![9]);
    assert_eq!(b.binary(), "0b_0100_0000_0000_0000");
}

#[test]
fn usize_storage_holds_a_word() {
    let mut s: BitSet = BitSet::new();
    let top = usize::BITS as usize - 1;
    s.insert(top);
    assert_eq!(ones(s.iter()), vec![top]);
}

#[test]
fn iteration_is_in_increasing_order() {
    let s: BitSet<u8> = BitSet::from_iter(vec![5, 0, 3]);
    assert_eq!(ones(s.iter()), vec![0, 3, 5]);
}

#[test]
fn the_two_ends_meet() {
    let s: BitSet<u8> = BitSet::from_iter(vec![0, 3, 5]);
    let mut it = s.iter();
    assert_eq!(it.next(), Some(0));
    assert_eq!(it.next_back(), Some(5));
    assert_eq!(it.next_back(), Some(3));
    assert_eq!(it.next(), None);
    assert_eq!(it.next_back(), None);
}

#[test]
fn collecting_the_positions_gives_the_set_back() {
    let s: BitSet<u16> = BitSet::from_iter(vec![15, 1, 1, 8]);
    let back: BitSet<u16> = BitSet::from_iter(ones(s.iter()));
    assert!(back == s);
    let empty: BitSet<u16> = BitSet::from_iter(Vec::new());
    assert!(empty == BitSet::new());
}

#[test]
fn an_array_storage_holds_the_bits_of_each_element_in_turn() {
    let s: BitSet<[u8; 2]> = BitSet::from_iter(vec![9, 0, 15]);
    assert_eq!(ones(s.iter()), vec![0, 9, 15]);
    let t: BitSet<[u8; 2]> = BitSet::from_iter(vec![1, 9]);
    assert_eq!(ones(s.union(t).iter()), vec![0, 1, 9, 15]);
    assert_eq!(ones(s.difference(t).iter()), vec![0, 15]);
    assert_eq!(ones(s.bitand(t).iter()), vec![9]);
    assert_eq!(ones(t.not().iter()).len(), 14);
    assert!(s.any());
    assert!(!BitSet::<[u8; 2]>::new().any());
    assert_eq!(s.binary(), "0b_0100_0001_1000_0000");
}

#[test]
fn an_empty_array_storage_holds_nothing() {
    let s: BitSet<[u32; 0]> = BitSet::new();
    assert!(!s.any());
    assert_eq!(ones(s.iter()), Vec::<usize>::new());
}
