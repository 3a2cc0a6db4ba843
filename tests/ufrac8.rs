use btree_fraction::UFrac8;
use std::cmp::Ordering;

#[test]
fn ufrac8_to_fraction() {
    assert_eq!(UFrac8::one().to_fraction(), (1, 1));
    assert_eq!(UFrac8::from_bits(0b0100_0000).to_fraction(), (1, 2));
    assert_eq!(UFrac8::from_bits(0b1100_0000).to_fraction(), (2, 1));
    assert_eq!(UFrac8::from_bits(0b1111_1100).to_fraction(), (6, 1));
    assert_eq!(UFrac8::from_bits(0b1111_1110).to_fraction(), (7, 1));
    assert_eq!(UFrac8::from_bits(0b0000_0100).to_fraction(), (1, 6));
    assert_eq!(UFrac8::from_bits(0b0000_0010).to_fraction(), (1, 7));
    assert_eq!(UFrac8::from_bits(0b0100_1000).to_fraction(), (4, 7));
    assert_eq!(UFrac8::from_bits(0b1010_1000).to_fraction(), (8, 5));
    assert_eq!(UFrac8::from_bits(0b1011_0000).to_fraction(), (5, 3));
}

#[test]
fn ufrac8_invert() {
    assert_eq!(UFrac8::one().invert(), UFrac8::one());
    assert_eq!(UFrac8::one().invert().to_fraction(), (1, 1));
    assert_eq!(
        UFrac8::from_bits(0b0100_1000).invert().to_fraction(),
        (7, 4)
    );
    assert_eq!(UFrac8::min_value().invert(), UFrac8::max_value());
    assert_eq!(UFrac8::max_value().invert(), UFrac8::min_value());
    assert_eq!(UFrac8::zero().invert_unchecked(), UFrac8::zero());
}

#[test]
fn ufrac8_from_u8() {
    for i in 0..=8 {
        assert_eq!(UFrac8::try_from(i).unwrap().to_fraction(), (i, 1));
    }
}

#[test]
fn tests_from_u8() {
    for i in 0..=6 {
        assert_eq!(UFrac8::try_from(i).unwrap().to_fraction(), (i, 1));
    }
}

#[test]
fn children() {
    for i in 1..=255 {
        let frac = UFrac8::from_bits(i);
        if frac.is_leaf() {
            continue;
        }
        assert_eq!(
            frac.children().unwrap(),
            (frac.left_child().unwrap(), frac.right_child().unwrap())
        );
    }
}

#[test]
fn ufrac8_from_f64() {
    assert_eq!(UFrac8::from_ratio(1, 1).unwrap().to_fraction(), (1, 1));
    assert_eq!(UFrac8::from_ratio(1, 2).unwrap().to_fraction(), (1, 2));
    assert_eq!(UFrac8::from_ratio(1618, 1000).unwrap().to_fraction(), (21, 13));
}

#[test]
fn ufrac8_ordering() {
    assert_eq!(
        UFrac8::try_from(2)
            .unwrap()
            .cmp(&UFrac8::try_from(3).unwrap()),
        Ordering::Less
    );
    assert_eq!(
        UFrac8::try_from(4)
            .unwrap()
            .cmp(&UFrac8::try_from(3).unwrap()),
        Ordering::Greater
    );
    assert_eq!(
        UFrac8::try_from(2)
            .unwrap()
            .cmp(&UFrac8::from_ratio(19, 10).unwrap()),
        Ordering::Greater
    );
}

#[test]
fn ufrac8_tree() {
    assert_eq!(UFrac8::one().left_child().unwrap(), UFrac8::from_bits(0b0100_0000));
    assert_eq!(UFrac8::one().right_child().unwrap(), UFrac8::from_bits(0b1100_0000));
    assert_eq!(UFrac8::one().parent(), None);

    assert_eq!(UFrac8::zero().left_child(), None);
    assert_eq!(UFrac8::zero().right_child(), None);
    assert_eq!(UFrac8::zero().parent(), None);
}

#[test]
fn ufrac8_is_leaf() {
    assert!(!UFrac8::zero().is_leaf());
    assert!(UFrac8::min_value().is_leaf());
    assert!(!UFrac8::one().is_leaf());
    assert!(!UFrac8::golden_ratio().is_leaf());
    assert!(!UFrac8::e().is_leaf());
    assert!(UFrac8::pi().is_leaf());
    assert!(UFrac8::max_value().is_leaf());
}

#[test]
fn ufrac8_named_values() {
    assert_eq!(UFrac8::zero().to_fraction(), (0, 1));
    assert_eq!(UFrac8::min_value().to_fraction(), (1, 8));
    assert_eq!(UFrac8::max_value().to_fraction(), (8, 1));
    assert_eq!(UFrac8::golden_ratio().to_fraction(), (21, 13));
    assert_eq!(UFrac8::e().to_fraction(), (19, 7));
    assert_eq!(UFrac8::pi().to_fraction(), (16, 5));
}

#[test]
fn ufrac8_integer_errors() {
    assert_eq!(UFrac8::try_from(9u8), Err(()));
    assert_eq!(UFrac8::from_integer(255), Err(()));
    assert_eq!(UFrac8::try_from(0u8).unwrap(), UFrac8::zero());
    assert_eq!(UFrac8::try_from(8u8).unwrap(), UFrac8::max_value());
}

#[test]
fn ufrac8_ratio_errors_and_zero() {
    assert_eq!(UFrac8::from_ratio(3, 0), Err(()));
    assert_eq!(UFrac8::from_ratio(0, 5).unwrap(), UFrac8::zero());
    // beyond the largest value the walk ends on the candidate noted below
    assert_eq!(UFrac8::from_ratio(100, 1).unwrap().to_bits(), 0b1111_1101);
    assert_eq!(UFrac8::from_ratio(1, 3).unwrap().to_bits(), 0b0010_0000);
}

#[test]
fn ufrac8_rounding_between_nodes() {
    // 1.20001 lies just above 6/5; the walk ends on the right of it
    assert_eq!(UFrac8::from_ratio(6, 5).unwrap().to_bits(), 0b1000_0100);
    assert_eq!(UFrac8::from_ratio(120001, 100000).unwrap().to_bits(), 0b1000_0101);
    assert_eq!(UFrac8::from_ratio(120001, 100000).unwrap().to_fraction(), (17, 14));
}

#[test]
fn ufrac8_precision() {
    assert_eq!(UFrac8::zero().precision(), 0);
    assert_eq!(UFrac8::one().precision(), 0);
    assert_eq!(UFrac8::from_bits(0b0100_0000).precision(), 1);
    assert_eq!(UFrac8::golden_ratio().precision(), 6);
    assert_eq!(UFrac8::max_value().precision(), 7);
}

#[test]
fn ufrac8_try_invert() {
    assert_eq!(UFrac8::zero().try_invert(), None);
    assert_eq!(
        UFrac8::golden_ratio().try_invert().unwrap().to_fraction(),
        (13, 21)
    );
}

#[test]
fn ufrac8_parent_and_sibling() {
    let x = UFrac8::from_bits(0b0100_1000); // 4/7
    let left = x.left_child().unwrap();
    let right = x.right_child().unwrap();
    assert_eq!(left.parent(), Some(x));
    assert_eq!(right.parent(), Some(x));
    assert_eq!(left.sibling(), Some(right));
    assert_eq!(right.sibling_unchecked(), left);
    assert_eq!(x.parent(), Some(UFrac8::from_bits(0b0101_0000)));
    assert_eq!(UFrac8::one().sibling(), None);
    assert_eq!(UFrac8::zero().sibling(), None);
    assert_eq!(UFrac8::max_value().left_child(), None);
    assert_eq!(UFrac8::max_value().children(), None);
    assert_eq!(UFrac8::from_bits(0b1100_0000).sibling(), Some(UFrac8::from_bits(0b0100_0000)));
}
