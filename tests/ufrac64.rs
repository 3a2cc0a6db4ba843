use btree_fraction::{UFrac16, UFrac32, UFrac64, UFrac8};
use std::cmp::Ordering;

#[test]
fn ufrac64_to_fraction() {
    assert_eq!(UFrac64::one().to_fraction(), (1, 1));
    assert_eq!(UFrac64::one().to_bits(), 0x8000_0000_0000_0000);
    assert_eq!(UFrac64::from_bits(0x4800_0000_0000_0000).to_fraction(), (4, 7));
    assert_eq!(UFrac64::max_value().to_fraction(), (64, 1));
    assert_eq!(UFrac64::min_value().to_fraction(), (1, 64));
    assert_eq!(UFrac64::e().to_fraction(), (340033231, 125091235));
    assert_eq!(UFrac64::pi().to_fraction(), (26581, 8461));
    assert_eq!(UFrac64::golden_ratio().to_fraction(), (10610209857723, 6557470319842));
}

#[test]
fn ufrac64_integers_and_inversion() {
    for i in 0..=64u64 {
        assert_eq!(UFrac64::try_from(i).unwrap().to_fraction(), (i, 1));
    }
    assert_eq!(UFrac64::try_from(65u64), Err(()));
    assert_eq!(UFrac64::min_value().invert(), UFrac64::max_value());
    assert_eq!(UFrac64::pi().invert().to_fraction(), (8461, 26581));
    assert_eq!(UFrac64::zero().try_invert(), None);
}

#[test]
fn ufrac64_order_and_tree() {
    assert_eq!(UFrac64::pi().cmp(&UFrac64::e()), Ordering::Greater);
    assert_eq!(UFrac64::one().left_child().unwrap().to_fraction(), (1, 2));
    assert_eq!(UFrac64::max_value().left_child(), None);
    assert_eq!(UFrac64::from_bits(0x4000_0000_0000_0000).parent(), Some(UFrac64::one()));
    assert_eq!(UFrac64::max_value().precision(), 63);
}

#[test]
fn ufrac64_conversions() {
    assert_eq!(UFrac64::from(UFrac8::golden_ratio()).to_fraction(), (21, 13));
    assert_eq!(UFrac64::from(UFrac16::one()), UFrac64::one());
    assert_eq!(UFrac64::from(UFrac32::e()).to_fraction(), (28667, 10546));
    assert_eq!(UFrac8::try_from(UFrac64::from(UFrac8::pi())), Ok(UFrac8::pi()));
    assert_eq!(UFrac8::try_from(UFrac64::pi()), Err(()));
    assert_eq!(UFrac64::pi().to_ufrac16_lossy().to_bits() & 1, 1);
    assert_eq!(UFrac64::one().to_ufrac8_lossy(), UFrac8::one());
}

#[test]
fn ufrac64_from_ratio() {
    assert_eq!(UFrac64::from_ratio(1618, 1000).unwrap().to_fraction(), (809, 500));
    assert_eq!(UFrac64::from_ratio(26581, 8461).unwrap(), UFrac64::pi());
}
