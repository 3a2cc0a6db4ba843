use btree_fraction::{UFrac16, UFrac8};
use std::cmp::Ordering;

#[test]
fn ufrac16_to_fraction() {
    assert_eq!(UFrac16::one().to_fraction(), (1, 1));
    assert_eq!(UFrac16::from_bits(0x4000).to_fraction(), (1, 2));
    assert_eq!(UFrac16::from_bits(0xc000).to_fraction(), (2, 1));
    assert_eq!(UFrac16::from_bits(0xfc00).to_fraction(), (6, 1));
    assert_eq!(UFrac16::from_bits(0xfe00).to_fraction(), (7, 1));
    assert_eq!(UFrac16::from_bits(0x0400).to_fraction(), (1, 6));
    assert_eq!(UFrac16::from_bits(0x0200).to_fraction(), (1, 7));
    assert_eq!(UFrac16::from_bits(0x4800).to_fraction(), (4, 7));
    assert_eq!(UFrac16::from_bits(0xa800).to_fraction(), (8, 5));
    assert_eq!(UFrac16::from_bits(0xb000).to_fraction(), (5, 3));
}

#[test]
fn ufrac16_invert() {
    assert_eq!(UFrac16::one().invert().to_fraction(), (1, 1));
    assert_eq!(UFrac16::from_bits(0x4800).invert().to_fraction(), (7, 4));
    assert_eq!(UFrac16::min_value().invert(), UFrac16::max_value());
    assert_eq!(UFrac16::max_value().invert(), UFrac16::min_value());
}

#[test]
fn from_u16() {
    for i in 0..=16 {
        assert_eq!(UFrac16::try_from(i).unwrap().to_fraction(), (i, 1));
    }
}

#[test]
fn ufrac16_from_f64() {
    assert_eq!(UFrac16::from_ratio(1, 1).unwrap().to_fraction(), (1, 1));
    assert_eq!(UFrac16::from_ratio(1, 2).unwrap().to_fraction(), (1, 2));
    assert_eq!(UFrac16::from_ratio(1618, 1000).unwrap().to_fraction(), (809, 500));
}

#[test]
fn ufrac16_ordering() {
    assert_eq!(
        UFrac16::try_from(2)
            .unwrap()
            .cmp(&UFrac16::try_from(3).unwrap()),
        Ordering::Less
    );
    assert_eq!(
        UFrac16::try_from(4)
            .unwrap()
            .cmp(&UFrac16::try_from(3).unwrap()),
        Ordering::Greater
    );
    assert_eq!(
        UFrac16::from_ratio(12, 10)
            .unwrap()
            .cmp(&UFrac16::from_ratio(120001, 100000).unwrap()),
        Ordering::Less
    );
    assert_eq!(
        UFrac16::try_from(2)
            .unwrap()
            .cmp(&UFrac16::from_ratio(19, 10).unwrap()),
        Ordering::Greater
    );
}

#[test]
fn ufrac16_tree() {
    assert_eq!(UFrac16::one().left_child().unwrap(), UFrac16::from_bits(0x4000));
    assert_eq!(UFrac16::one().right_child().unwrap(), UFrac16::from_bits(0xc000));
    assert_eq!(UFrac16::one().parent(), None);

    assert_eq!(UFrac16::zero().left_child(), None);
    assert_eq!(UFrac16::zero().right_child(), None);
    assert_eq!(UFrac16::zero().parent(), None);
}

#[test]
fn ufrac16_is_leaf() {
    assert!(!UFrac16::zero().is_leaf());
    assert!(UFrac16::min_value().is_leaf());
    assert!(!UFrac16::one().is_leaf());
    assert!(!UFrac16::golden_ratio().is_leaf());
    assert!(UFrac16::e().is_leaf());
    assert!(UFrac16::pi().is_leaf());
    assert!(UFrac16::max_value().is_leaf());
}

#[test]
fn ufrac16_named_values() {
    assert_eq!(UFrac16::golden_ratio().to_fraction(), (987, 610));
    assert_eq!(UFrac16::e().to_fraction(), (791, 291));
    assert_eq!(UFrac16::pi().to_fraction(), (204, 65));
    assert_eq!(UFrac16::max_value().to_fraction(), (16, 1));
    assert_eq!(UFrac16::min_value().to_fraction(), (1, 16));
}

#[test]
fn ufrac16_widen_and_narrow() {
    let one = UFrac16::from(UFrac8::one());
    assert_eq!(one, UFrac16::one());
    assert_eq!(UFrac8::try_from(one), Ok(UFrac8::one()));
    let g = UFrac16::from(UFrac8::golden_ratio());
    assert_eq!(g.to_fraction(), (21, 13));
    assert_eq!(UFrac8::try_from(g).unwrap(), UFrac8::golden_ratio());
    // too deep for 8 bits
    assert_eq!(UFrac8::try_from(UFrac16::golden_ratio()), Err(()));
    assert_eq!(UFrac8::try_from(UFrac16::min_value()), Err(()));
}

#[test]
fn ufrac16_lossy() {
    assert_eq!(UFrac16::one().to_ufrac8_lossy(), UFrac8::one());
    assert_eq!(UFrac16::min_value().to_ufrac8_lossy(), UFrac8::min_value());
    assert_eq!(UFrac16::max_value().to_ufrac8_lossy(), UFrac8::max_value());
    // the ancestor at depth 7 of the 16-bit golden ratio is the 8-bit leaf 34/21
    assert_eq!(UFrac16::golden_ratio().to_ufrac8_lossy().to_bits(), 0b1010_1011);
    assert_eq!(UFrac16::golden_ratio().to_ufrac8_lossy().to_fraction(), (34, 21));
}

#[test]
fn ufrac16_integer_error() {
    assert_eq!(UFrac16::try_from(17u16), Err(()));
}
