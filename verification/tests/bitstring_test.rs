use ai::bitstring::{Bit, Bitstring, BitstringError};

#[test]
fn from_u64() {
    let bits = Bitstring::create_from_u64(6);
    assert_eq!("110", bits.to_string());
}

#[test]
fn bitstring_test_size() {
    let bits = Bitstring::create_from_u64(17);
    assert_eq!(5, bits.len());
}

#[test]
fn zero() {
    let bits = Bitstring::create_from_u64(0);
    assert_eq!("0", bits.to_string());
}

#[test]
fn empty() {
    let bits = Bitstring::create_empty();
    assert_eq!("", bits.to_string());
}

#[test]
fn append() {
    let mut bits = Bitstring::new();
    bits.push(Bit::Zero);
    bits.push(Bit::Zero);
    bits.push(Bit::One);
    bits.push(Bit::One);
    bits.push(Bit::Zero);
    assert_eq!("00110", bits.to_string());
}

#[test]
fn from_string() {
    let bits = Bitstring::create_from_string("01001").unwrap();
    assert_eq!("01001", bits.to_string());
}

#[test]
fn from_string_rejects_other_characters() {
    assert!(matches!(
        Bitstring::create_from_string("01201"),
        Err(BitstringError::InvalidEncoding)
    ));
    assert!(matches!(
        Bitstring::create_from_string(" "),
        Err(BitstringError::InvalidEncoding)
    ));
    assert_eq!(0, Bitstring::create_from_string("").unwrap().len());
}

#[test]
fn pop_returns_the_last_bit() {
    let mut bits = Bitstring::create_from_string("011").unwrap();
    assert_eq!(Ok(Bit::One), bits.pop());
    assert_eq!(Ok(Bit::One), bits.pop());
    assert_eq!("0", bits.to_string());
    assert_eq!(Ok(Bit::Zero), bits.pop());
    assert_eq!(Err(BitstringError::EmptySequence), bits.pop());
    assert_eq!(0, bits.len());
}

#[test]
fn bit_indexes_from_the_front() {
    let bits = Bitstring::create_from_u64(6);
    assert_eq!(Bit::One, bits.bit(0));
    assert_eq!(Bit::One, bits.bit(1));
    assert_eq!(Bit::Zero, bits.bit(2));
    assert_eq!(&vec![Bit::One, Bit::One, Bit::Zero], bits.bits());
}

#[test]
fn from_u64_is_big_endian_without_leading_zero() {
    assert_eq!("1", Bitstring::create_from_u64(1).to_string());
    assert_eq!("10", Bitstring::create_from_u64(2).to_string());
    assert_eq!("10001", Bitstring::create_from_u64(17).to_string());
    assert_eq!("11111111", Bitstring::create_from_u64(255).to_string());
    assert_eq!("100000000", Bitstring::create_from_u64(256).to_string());
    let all = Bitstring::create_from_u64(u64::MAX);
    assert_eq!(64, all.len());
    assert_eq!("1".repeat(64), all.to_string());
    assert_eq!(64, Bitstring::create_from_u64(1 << 63).len());
}

#[test]
fn text_round_trip() {
    for text in ["", "0", "1", "0000", "0110100111"] {
        assert_eq!(text, Bitstring::create_from_string(text).unwrap().to_string());
    }
    let bits = Bitstring::create_from_bits(vec![Bit::One, Bit::Zero, Bit::One]);
    let again = Bitstring::create_from_string(&bits.to_string()).unwrap();
    assert_eq!(bits.bits(), again.bits());
}

#[test]
fn clone_is_independent() {
    let mut bits = Bitstring::create_from_u64(5);
    let copy = bits.clone();
    bits.push(Bit::One);
    assert_eq!("101", copy.to_string());
    assert_eq!("1011", bits.to_string());
}
