use btree_fraction::{UFrac16, UFrac32, UFrac8};
use std::cmp::Ordering;

#[test]
fn ufrac32_to_fraction() {
    assert_eq!(UFrac32::one().to_fraction(), (1, 1));
    assert_eq!(UFrac32::from_bits(0x4000_0000).to_fraction(), (1, 2));
    assert_eq!(UFrac32::from_bits(0xC000_0000).to_fraction(), (2, 1));
    assert_eq!(UFrac32::from_bits(0xfc00_0000).to_fraction(), (6, 1));
    assert_eq!(UFrac32::from_bits(0xfe00_0000).to_fraction(), (7, 1));
    assert_eq!(UFrac32::from_bits(0x0400_0000).to_fraction(), (1, 6));
    assert_eq!(UFrac32::from_bits(0x0200_0000).to_fraction(), (1, 7));
    assert_eq!(UFrac32::from_bits(0x4800_0000).to_fraction(), (4, 7));
    assert_eq!(UFrac32::from_bits(0xa800_0000).to_fraction(), (8, 5));
    assert_eq!(UFrac32::from_bits(0xb000_0000).to_fraction(), (5, 3));
}

#[test]
fn ufrac32_invert() {
    assert_eq!(UFrac32::one().invert().to_fraction(), (1, 1));
    assert_eq!(
        UFrac32::from_bits(0x4800_0000).invert().to_fraction(),
        (7, 4)
    );
    assert_eq!(UFrac32::min_value().invert(), UFrac32::max_value());
    assert_eq!(UFrac32::max_value().invert(), UFrac32::min_value());
}

#[test]
fn from_u32() {
    for i in 0..=32 {
        assert_eq!(UFrac32::try_from(i).unwrap().to_fraction(), (i, 1));
    }
}

#[test]
fn ufrac32_from_f64() {
    assert_eq!(UFrac32::from_ratio(1, 1).unwrap().to_fraction(), (1, 1));
    assert_eq!(UFrac32::from_ratio(1, 2).unwrap().to_fraction(), (1, 2));
    assert_eq!(UFrac32::from_ratio(1618, 1000).unwrap().to_fraction(), (809, 500));
}

#[test]
fn ufrac32_ordering() {
    assert_eq!(
        UFrac32::try_from(2)
            .unwrap()
            .cmp(&UFrac32::try_from(3).unwrap()),
        Ordering::Less
    );
    assert_eq!(
        UFrac32::try_from(4)
            .unwrap()
            .cmp(&UFrac32::try_from(3).unwrap()),
        Ordering::Greater
    );
    assert_eq!(
        UFrac32::from_ratio(12, 10)
            .unwrap()
            .cmp(&UFrac32::from_ratio(120001, 100000).unwrap()),
        Ordering::Less
    );
    assert_eq!(
        UFrac32::try_from(2)
            .unwrap()
            .cmp(&UFrac32::from_ratio(19, 10).unwrap()),
        Ordering::Greater
    );
}

#[test]
fn ufrac32_tree() {
    assert_eq!(UFrac32::one().left_child().unwrap(), UFrac32::from_bits(0x4000_0000));
    assert_eq!(UFrac32::one().right_child().unwrap(), UFrac32::from_bits(0xC000_0000));
    assert_eq!(UFrac32::one().parent(), None);

    assert_eq!(UFrac32::zero().left_child(), None);
    assert_eq!(UFrac32::zero().right_child(), None);
    assert_eq!(UFrac32::zero().parent(), None);
}

#[test]
fn ufrac32_is_leaf() {
    assert!(!UFrac32::zero().is_leaf());
    assert!(UFrac32::min_value().is_leaf());
    assert!(!UFrac32::one().is_leaf());
    assert!(!UFrac32::golden_ratio().is_leaf());
    assert!(!UFrac32::e().is_leaf());
    assert!(UFrac32::pi().is_leaf());
    assert!(UFrac32::max_value().is_leaf());
}

#[test]
fn ufrac32_named_values() {
    assert_eq!(UFrac32::golden_ratio().to_fraction(), (2178309, 1346269));
    assert_eq!(UFrac32::e().to_fraction(), (28667, 10546));
    assert_eq!(UFrac32::pi().to_fraction(), (3861, 1229));
    assert_eq!(UFrac32::max_value().to_fraction(), (32, 1));
}

#[test]
fn ufrac32_conversions() {
    assert_eq!(UFrac32::from(UFrac8::one()), UFrac32::one());
    assert_eq!(UFrac32::from(UFrac16::one()), UFrac32::one());
    assert_eq!(UFrac32::from(UFrac16::golden_ratio()).to_fraction(), (987, 610));
    assert_eq!(UFrac16::try_from(UFrac32::from(UFrac16::e())), Ok(UFrac16::e()));
    assert_eq!(UFrac16::try_from(UFrac32::pi()), Err(()));
    assert_eq!(UFrac8::try_from(UFrac32::from_bits(0x4800_0000)).unwrap().to_fraction(), (4, 7));
    assert_eq!(UFrac32::one().to_ufrac16_lossy(), UFrac16::one());
    assert_eq!(UFrac32::min_value().to_ufrac16_lossy(), UFrac16::min_value());
    assert_eq!(UFrac32::max_value().to_ufrac8_lossy(), UFrac8::max_value());
    assert_eq!(UFrac32::golden_ratio().to_ufrac8_lossy().to_fraction(), (34, 21));
}
