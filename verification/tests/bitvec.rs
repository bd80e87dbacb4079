use prime_sieve::bitvec::{BitVec, BITS_PER_USIZE};

#[test]
fn new_true_reads_true_everywhere() {
    let v = BitVec::new(true, 200);
    assert_eq!(v.len(), 200);
    for i in 0..200 {
        assert!(v.get(i));
    }
}

#[test]
fn new_false_reads_false_everywhere() {
    let v = BitVec::new(false, 200);
    assert_eq!(v.len(), 200);
    for i in 0..200 {
        assert!(!v.get(i));
    }
}

#[test]
fn set_false_changes_one_index_only() {
    for target in [0usize, 1, 63, 64, 65, 127, 128, 199] {
        let mut v = BitVec::new(true, 200);
        v.set(target, false);
        for i in 0..200 {
            assert_eq!(v.get(i), i != target);
        }
    }
}

#[test]
fn set_true_changes_one_index_only() {
    for target in [0usize, 31, 32, 63, 64, 199] {
        let mut v = BitVec::new(false, 200);
        v.set(target, true);
        for i in 0..200 {
            assert_eq!(v.get(i), i == target);
        }
    }
}

#[test]
fn set_is_idempotent_and_reversible() {
    let mut v = BitVec::new(false, 10);
    v.set(3, true);
    v.set(3, true);
    assert!(v.get(3));
    v.set(3, false);
    assert!(!v.get(3));
    assert!(!v.get(2));
    assert!(!v.get(4));
}

#[test]
fn word_count_is_rounded_up() {
    let bits = BITS_PER_USIZE;
    assert_eq!(bits, 8 * std::mem::size_of::<usize>());
    assert_eq!(BitVec::new(true, 0).into_inner(), (vec![], 0));
    assert_eq!(BitVec::new(true, 1).into_inner(), (vec![usize::MAX], 1));
    assert_eq!(BitVec::new(false, bits).into_inner(), (vec![0], bits));
    assert_eq!(BitVec::new(true, bits + 1).into_inner(), (vec![usize::MAX, usize::MAX], bits + 1));
    assert_eq!(BitVec::new(false, 3 * bits).into_inner().0.len(), 3);
}

#[test]
fn into_inner_keeps_padding_as_filled() {
    let mut v = BitVec::new(true, 4);
    v.set(0, false);
    v.set(2, false);
    let (words, len) = v.into_inner();
    assert_eq!(len, 4);
    assert_eq!(words, vec![usize::MAX & !0b0101]);
}

#[test]
fn into_inner_puts_low_indices_in_low_bits() {
    let bits = BITS_PER_USIZE;
    let mut v = BitVec::new(false, 2 * bits);
    v.set(1, true);
    v.set(bits, true);
    v.set(2 * bits - 1, true);
    let (words, len) = v.into_inner();
    assert_eq!(len, 2 * bits);
    assert_eq!(words, vec![0b10, 1 | (1usize << (bits - 1))]);
}
