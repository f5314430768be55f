use catnip_sched::bits::iter_set_bits;

#[test]
fn set_bits_of_zero_is_empty() {
    assert_eq!(iter_set_bits(0), Vec::<usize>::new());
}

#[test]
fn set_bits_of_1011() {
    assert_eq!(iter_set_bits(0b1011), vec![0, 1, 3]);
}

#[test]
fn set_bits_of_full_word() {
    let r = iter_set_bits(u64::MAX);
    assert_eq!(r, (0..64).collect::<Vec<usize>>());
}

#[test]
fn set_bits_of_top_bit() {
    assert_eq!(iter_set_bits(1u64 << 63), vec![63]);
    assert_eq!(iter_set_bits((1u64 << 63) | 4), vec![2, 63]);
}
