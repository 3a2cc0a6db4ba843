use btree_fraction::node::Approximation;
use btree_fraction::{UFrac16, UFrac32, UFrac8};
use std::cmp::Ordering;

#[test]
fn integers_round_trip_at_each_width() {
    for n in 0..=8u8 {
        assert_eq!(UFrac8::try_from(n).unwrap().to_fraction(), (n, 1));
    }
    assert_eq!(UFrac8::try_from(0u8).unwrap(), UFrac8::zero());
    assert_eq!(UFrac8::try_from(8u8).unwrap(), UFrac8::max_value());
    for n in 0..=32u32 {
        assert_eq!(UFrac32::try_from(n).unwrap().to_fraction(), (n, 1));
    }
}

#[test]
fn every_node_round_trips_through_its_fraction() {
    for bits in 0..=255u8 {
        let x = UFrac8::from_bits(bits);
        let (n, d) = x.to_fraction();
        assert_eq!(UFrac8::from_ratio(n as u64, d as u64).unwrap(), x);
    }
}

#[test]
fn inversion_is_an_involution_and_swaps_the_fraction() {
    for bits in 1..=255u8 {
        let x = UFrac8::from_bits(bits);
        assert_eq!(x.invert().invert(), x);
        let (n, d) = x.to_fraction();
        assert_eq!(x.invert().to_fraction(), (d, n));
    }
}

#[test]
fn bit_order_is_fraction_order() {
    for a in 0..=255u8 {
        for b in 0..=255u8 {
            let (an, ad) = UFrac8::from_bits(a).to_fraction();
            let (bn, bd) = UFrac8::from_bits(b).to_fraction();
            let lt = (an as u32) * (bd as u32) < (bn as u32) * (ad as u32);
            assert_eq!(a < b, lt);
            assert_eq!(UFrac8::from_bits(a) < UFrac8::from_bits(b), lt);
        }
    }
}

#[test]
fn tree_is_consistent() {
    for bits in 1..=255u8 {
        let x = UFrac8::from_bits(bits);
        if x.is_leaf() {
            continue;
        }
        let left = x.left_child().unwrap();
        let right = x.right_child().unwrap();
        assert_eq!(x.children(), Some((left, right)));
        assert_eq!(left.parent(), Some(x));
        assert_eq!(right.parent(), Some(x));
        assert_eq!(left.sibling(), Some(right));
    }
}

#[test]
fn leaves_are_where_children_stop() {
    for bits in 1..=255u8 {
        let x = UFrac8::from_bits(bits);
        assert_eq!(
            x.is_leaf(),
            x.left_child().is_none() && x.right_child().is_none()
        );
        assert_eq!(x.is_leaf(), x.precision() == 7);
    }
}

#[test]
fn scenarios_at_width_eight() {
    assert_eq!(UFrac8::try_from(0u8).unwrap(), UFrac8::zero());
    assert_eq!(UFrac8::zero().to_fraction(), (0, 1));
    assert_eq!(UFrac8::try_from(8u8).unwrap(), UFrac8::max_value());
    assert_eq!(UFrac8::max_value().to_fraction(), (8, 1));
    let half = UFrac8::from_ratio(1, 2).unwrap();
    assert_eq!(half, UFrac8::one().left_child().unwrap());
    assert_eq!(half.to_fraction(), (1, 2));
    let golden = UFrac8::from_ratio(1618, 1000).unwrap();
    assert_eq!(golden.to_fraction(), (21, 13));
    assert_eq!(golden.invert().to_fraction(), (13, 21));
    let wide = UFrac16::from(UFrac8::one());
    assert_eq!(UFrac8::try_from(wide), Ok(UFrac8::one()));
}

#[test]
fn approximation_walk_step_by_step() {
    // toward 2/3 in 8 bits: 1/1 is too large, 1/2 too small, 2/3 is hit
    let mut walk = Approximation::new(8);
    assert_eq!(walk.candidate(), (1, 1));
    assert_eq!(walk.advance(Ordering::Greater), None);
    assert_eq!(walk.candidate(), (1, 2));
    assert_eq!(walk.advance(Ordering::Less), None);
    assert_eq!(walk.candidate(), (2, 3));
    assert_eq!(walk.advance(Ordering::Equal), Some(0b0110_0000));
}

#[test]
fn approximation_walk_at_a_leaf() {
    // width 2: the root 1/1, then its children 1/2 and 2/1 are leaves
    let mut walk = Approximation::new(2);
    assert_eq!(walk.advance(Ordering::Less), None);
    assert_eq!(walk.candidate(), (2, 1));
    // 2/1 too large: the candidate noted above is still the root
    assert_eq!(walk.advance(Ordering::Greater), Some(0b10));
    let mut walk = Approximation::new(2);
    assert_eq!(walk.advance(Ordering::Less), None);
    // 2/1 too small: the candidate noted below is the left child 1/2
    assert_eq!(walk.advance(Ordering::Less), Some(0b01));
}
