use nistrs::bits::BitsData;

#[test]
fn from_bits_keeps_order_and_counts_ones() {
    let data = BitsData::from_bits(vec![true, false, false, true, true]);
    assert_eq!(data.len(), 5);
    assert_eq!(data.ones(), 3);
    assert!(data.bit(0));
    assert!(!data.bit(1));
    assert!(!data.bit(2));
    assert!(data.bit(3));
    assert!(data.bit(4));
}

#[test]
fn empty_sequence_has_no_bits() {
    let data = BitsData::from_bits(Vec::new());
    assert_eq!(data.len(), 0);
    assert_eq!(data.ones(), 0);
}

#[test]
fn all_set_counts_every_bit() {
    let data = BitsData::from_bits(vec![true; 64]);
    assert_eq!(data.len(), 64);
    assert_eq!(data.ones(), 64);
}

#[test]
fn none_set_counts_nothing() {
    let data = BitsData::from_bits(vec![false; 64]);
    assert_eq!(data.len(), 64);
    assert_eq!(data.ones(), 0);
}
