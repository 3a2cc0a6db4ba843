use btree_fraction::IFrac8;
use std::cmp::Ordering;

#[test]
fn ifrac8_to_fraction() {
    assert_eq!(IFrac8::one().to_fraction(), (1, 1));
    assert_eq!(IFrac8::from_bits(0b0010_0000).to_fraction(), (1, 2));
    assert_eq!(IFrac8::from_bits(0b0110_0000).to_fraction(), (2, 1));
    assert_eq!(IFrac8::from_bits(0b0111_1110).to_fraction(), (6, 1));
    assert_eq!(IFrac8::from_bits(0b0111_1111).to_fraction(), (7, 1));
    assert_eq!(IFrac8::from_bits(0b0000_0010).to_fraction(), (1, 6));
    assert_eq!(IFrac8::from_bits(0b0000_0001).to_fraction(), (1, 7));
    assert_eq!(IFrac8::from_bits(0b0010_0100).to_fraction(), (4, 7));
    assert_eq!(IFrac8::from_bits(0b0101_0100).to_fraction(), (8, 5));
    assert_eq!(IFrac8::from_bits(0b0101_1000).to_fraction(), (5, 3));
}

#[test]
fn ifrac8_invert() {
    assert_eq!(IFrac8::zero().invert().to_fraction(), (7, 1));
    assert_eq!(IFrac8::one().invert().to_fraction(), (1, 1));
    assert_eq!(
        IFrac8::from_bits(0b0010_0100).invert().to_fraction(),
        (7, 4)
    );
    assert_eq!(IFrac8::min_value().invert(), IFrac8::max_value());
    assert_eq!(IFrac8::max_value().invert(), IFrac8::min_value());
}

#[test]
fn ifrac8_from_u8() {
    for i in -6..=6 {
        assert_eq!(IFrac8::try_from(i).unwrap().to_fraction(), (i, 1));
    }
}

#[test]
fn ifrac8_from_f64() {
    assert_eq!(IFrac8::from_ratio(1, 1).unwrap().to_fraction(), (1, 1));
    assert_eq!(IFrac8::from_ratio(1, 2).unwrap().to_fraction(), (1, 2));
    assert_eq!(IFrac8::from_ratio(1618, 1000).unwrap().to_fraction(), (11, 7));
}

#[test]
fn ifrac8_ordering() {
    assert_eq!(
        IFrac8::try_from(2)
            .unwrap()
            .cmp(&IFrac8::try_from(3).unwrap()),
        Ordering::Less
    );
    assert_eq!(
        IFrac8::try_from(4)
            .unwrap()
            .cmp(&IFrac8::try_from(3).unwrap()),
        Ordering::Greater
    );
    assert_eq!(
        IFrac8::try_from(-4)
            .unwrap()
            .cmp(&IFrac8::try_from(3).unwrap()),
        Ordering::Less
    );
    assert_eq!(
        IFrac8::try_from(-4)
            .unwrap()
            .cmp(&IFrac8::try_from(-3).unwrap()),
        Ordering::Less
    );
    assert_eq!(
        IFrac8::try_from(2)
            .unwrap()
            .cmp(&IFrac8::from_ratio(19, 10).unwrap()),
        Ordering::Greater
    );
}

#[test]
fn ifrac8_signs() {
    let minus_three = IFrac8::try_from(-3i8).unwrap();
    assert!(minus_three.is_negative());
    assert!(!minus_three.is_positive());
    assert_eq!(minus_three.abs(), IFrac8::try_from(3i8).unwrap());
    assert_eq!(minus_three.to_fraction(), (-3, 1));
    assert_eq!(minus_three.invert().to_fraction(), (-1, 3));
    assert!(IFrac8::zero().is_positive());
    assert_eq!(IFrac8::try_from(7i8).unwrap(), IFrac8::max_value());
    assert_eq!(IFrac8::try_from(-7i8).unwrap().to_fraction(), (-7, 1));
    assert_eq!(IFrac8::try_from(8i8), Err(()));
    assert_eq!(IFrac8::try_from(-128i8), Err(()));
    assert_eq!(IFrac8::from_ratio(-1, 2).unwrap().to_fraction(), (-1, 2));
    assert_eq!(IFrac8::from_ratio(0, 2).unwrap(), IFrac8::zero());
    assert_eq!(IFrac8::from_ratio(1, 0), Err(()));
    assert_eq!(IFrac8::from_magnitude(true, 0).unwrap(), IFrac8::zero());
    assert_eq!(IFrac8::from_magnitude(false, 128), Err(()));
}

#[test]
fn ifrac8_named_values() {
    assert_eq!(IFrac8::golden_ratio().to_fraction(), (11, 7));
    assert_eq!(IFrac8::e().to_fraction(), (13, 5));
    assert_eq!(IFrac8::pi().to_fraction(), (13, 4));
    assert_eq!(IFrac8::pi().precision(), 6);
    assert_eq!(IFrac8::one().precision(), 0);
}
