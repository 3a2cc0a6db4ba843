//! The 8-bit unsigned fraction.
use crate::model::{
    approximation, bounds, depth, integer_node, is_leaf, left_of, mirror, parent_of, right_of, root,
    sibling_of, valid, value,
};
use crate::node;
use vstd::arithmetic::power2::{lemma2_to64, lemma2_to64_rest, pow2};
use vstd::prelude::*;
use vstd::std_specs::convert::{FromSpec, TryFromSpec};
use crate::laws::law_integer_round_trip;
use crate::model::{lemma_value_narrow, lemma_value_scale};
use crate::ufrac16::UFrac16;
use crate::ufrac32::UFrac32;
use crate::ufrac64::UFrac64;

verus! {

/// A fraction in 8 bits: zero, or a node of the Stern–Brocot tree at a
/// depth of at most 7. The order of the bits as an unsigned integer is the
/// order of the fractions.
#[derive(PartialEq, Eq, Structural, Clone, Copy, Hash, PartialOrd, Ord, Debug, Default)]
pub struct UFrac8(u8);

impl View for UFrac8 {
    type V = nat;

    /// The bit pattern, as a number.
    closed spec fn view(&self) -> nat {
        self.0 as nat
    }
}

/// The facts about width 8 that the methods below rest on.
proof fn lemma_width()
    ensures
        valid(0, 8),
        pow2(8) == u8::MAX + 1,
        root(8) == 0x80,
{
    lemma2_to64();
    lemma2_to64_rest();
}

/// A number below `2^8` is the view of the value with that pattern.
proof fn lemma_pattern(q: nat)
    requires
        q < pow2(8),
    ensures
        UFrac8(q as u8)@ == q,
{
    lemma_width();
}

impl UFrac8 {
    /// Two values are equal exactly when their bit patterns are.
    pub proof fn lemma_view_eq(a: Self, b: Self)
        ensures
            a@ == b@ <==> a == b,
    {
    }

    /// Every value is a pattern of width 8.
    pub proof fn lemma_valid(self)
        ensures
            valid(self@, 8),
    {
        lemma_width();
    }

    /// The fraction 0.
    pub fn zero() -> (r: Self)
        ensures
            r@ == 0,
    {
        UFrac8(0)
    }

    /// The smallest nonzero fraction, 1/8: all left turns.
    pub fn min_value() -> (r: Self)
        ensures
            r@ == 1,
    {
        UFrac8(1)
    }

    /// The fraction 1, the root of the tree.
    pub fn one() -> (r: Self)
        ensures
            r@ == root(8),
    {
        proof {
            lemma_width();
        }
        UFrac8(0x80)
    }

    /// The golden ratio, to the depth of this width: 21/13.
    pub fn golden_ratio() -> (r: Self)
        ensures
            r@ == 0b1010_1010,
    {
        UFrac8(0b1010_1010)
    }

    /// Euler's number, to the depth of this width: 19/7.
    pub fn e() -> (r: Self)
        ensures
            r@ == 0b1101_1010,
    {
        UFrac8(0b1101_1010)
    }

    /// Pi, to the depth of this width: 16/5.
    pub fn pi() -> (r: Self)
        ensures
            r@ == 0b1110_0001,
    {
        UFrac8(0b1110_0001)
    }

    /// The largest fraction, the integer 8: all right turns.
    pub fn max_value() -> (r: Self)
        ensures
            r@ + 1 == pow2(8),
    {
        proof {
            lemma_width();
        }
        UFrac8(u8::MAX)
    }

    /// The value with the given bit pattern.
    pub fn from_bits(bits: u8) -> (r: Self)
        ensures
            r@ == bits as nat,
    {
        UFrac8(bits)
    }

    /// The bit pattern of the value.
    pub fn to_bits(self) -> (r: u8)
        ensures
            r as nat == self@,
    {
        self.0
    }

    /// The fraction as (numerator, denominator), in lowest terms; zero is
    /// `(0, 1)`.
    pub fn to_fraction(self) -> (r: (u8, u8))
        ensures
            (r.0 as nat, r.1 as nat) == value(self@, 8),
    {
        proof {
            lemma_width();
        }
        let (n, d) = node::decode(self.0 as u64, 8);
        (n as u8, d as u8)
    }

    /// The depth of the node: how many turns lead to it from the root (0 to
    /// 7); 0 for zero.
    pub fn precision(self) -> (r: u8)
        ensures
            r as nat == depth(self@, 8),
    {
        proof {
            lemma_width();
        }
        node::precision(self.0 as u64, 8) as u8
    }

    /// The reciprocal of a nonzero value.
    pub fn invert(self) -> (r: Self)
        requires
            self@ != 0,
        ensures
            r@ == mirror(self@, 8),
    {
        self.invert_unchecked()
    }

    /// The reciprocal, or `None` for zero.
    pub fn try_invert(self) -> (r: Option<Self>)
        ensures
            r is None <==> self@ == 0,
            r matches Some(x) ==> x@ == mirror(self@, 8),
    {
        if self.0 == 0 {
            None
        } else {
            Some(self.invert_unchecked())
        }
    }

    /// The reciprocal; zero, which has none, is left as it is.
    pub fn invert_unchecked(self) -> (r: Self)
        ensures
            r@ == mirror(self@, 8),
    {
        proof {
            lemma_width();
        }
        UFrac8(node::invert(self.0 as u64, 8) as u8)
    }

    /// The parent node, or `None` for zero and for the root.
    pub fn parent(self) -> (r: Option<Self>)
        ensures
            r is None <==> (self@ == 0 || self@ == root(8)),
            r matches Some(p) ==> p@ == parent_of(self@),
    {
        proof {
            lemma_width();
        }
        match node::parent(self.0 as u64, 8) {
            Some(p) => Some(UFrac8(p as u8)),
            None => None,
        }
    }

    /// The left child, or `None` for zero and for a leaf.
    pub fn left_child(self) -> (r: Option<Self>)
        ensures
            r is None <==> (self@ == 0 || is_leaf(self@)),
            r matches Some(c) ==> c@ == left_of(self@),
            r matches Some(c) ==> bounds(c@, 8) == (bounds(self@, 8).0, value(self@, 8)),
    {
        proof {
            lemma_width();
        }
        match node::left_child(self.0 as u64, 8) {
            Some(c) => Some(UFrac8(c as u8)),
            None => None,
        }
    }

    /// The right child, or `None` for zero and for a leaf.
    pub fn right_child(self) -> (r: Option<Self>)
        ensures
            r is None <==> (self@ == 0 || is_leaf(self@)),
            r matches Some(c) ==> c@ == right_of(self@),
            r matches Some(c) ==> bounds(c@, 8) == (value(self@, 8), bounds(self@, 8).1),
    {
        proof {
            lemma_width();
        }
        match node::right_child(self.0 as u64, 8) {
            Some(c) => Some(UFrac8(c as u8)),
            None => None,
        }
    }

    /// Both children, left first, or `None` for zero and for a leaf.
    pub fn children(self) -> (r: Option<(Self, Self)>)
        ensures
            r is None <==> (self@ == 0 || is_leaf(self@)),
            r matches Some(c) ==> c.0@ == left_of(self@) && c.1@ == right_of(self@),
    {
        proof {
            lemma_width();
        }
        match node::children(self.0 as u64, 8) {
            Some((l, r)) => Some((UFrac8(l as u8), UFrac8(r as u8))),
            None => None,
        }
    }

    /// The other child of the parent, or `None` for zero and for the root.
    pub fn sibling(self) -> (r: Option<Self>)
        ensures
            r is None <==> (self@ == 0 || self@ == root(8)),
            r matches Some(s) ==> s@ == sibling_of(self@),
    {
        proof {
            lemma_width();
        }
        if self.0 == 0 || self.0 == 0x80 {
            None
        } else {
            Some(self.sibling_unchecked())
        }
    }

    /// The other child of the parent, for a value that is neither zero nor
    /// the root.
    pub fn sibling_unchecked(self) -> (r: Self)
        requires
            self@ != 0,
            self@ != root(8),
        ensures
            r@ == sibling_of(self@),
    {
        proof {
            lemma_width();
        }
        UFrac8(node::sibling(self.0 as u64, 8) as u8)
    }

    /// Whether the node has the greatest depth, 7, and so no children.
    /// Zero is no leaf.
    pub fn is_leaf(self) -> (r: bool)
        ensures
            r == is_leaf(self@),
    {
        self.0 % 2 == 1
    }

    /// The node that approximates `num/den`, or an error where `den` is 0.
    /// A node whose fraction equals `num/den` is found exactly. Otherwise
    /// the walk of `Approximation` goes down to the leaves and ends on the
    /// candidate it noted on the side the last node missed: the left child
    /// of the last node found too large, or of the last found too small.
    /// This rounding is directional, not to the nearest node.
    pub fn from_ratio(num: u64, den: u64) -> (r: Result<Self, ()>)
        ensures
            r is Err <==> den == 0,
            r matches Ok(x) ==> x@ == approximation((num as nat, den as nat), 8),
    {
        if den == 0 {
            Err(())
        } else {
            proof {
                lemma_width();
            }
            Ok(UFrac8(node::encode_ratio(num, den, 8) as u8))
        }
    }

    /// The node for an integer: zero for 0, `n - 1` right turns from the
    /// root for `1 <= n <= 8`, and an error above 8.
    pub fn from_integer(n: u8) -> (r: Result<Self, ()>)
        ensures
            r is Err <==> n > 8,
            r matches Ok(x) ==> x@ == if n == 0 {
                0
            } else {
                integer_node(n as nat, 8)
            },
    {
        proof {
            lemma_width();
        }
        match node::integer(n as u64, 8) {
            Some(b) => Ok(UFrac8(b as u8)),
            None => Err(()),
        }
    }
}

impl core::convert::TryFrom<u8> for UFrac8 {
    type Error = ();

    /// The node for an integer from 0 to 8; see `from_integer`.
    fn try_from(n: u8) -> (r: Result<Self, ()>) {
        let r = Self::from_integer(n);
        proof {
            match r {
                Ok(x) => {
                    if n == 0 {
                        assert(x == UFrac8(0));
                    } else {
                        assert(x == UFrac8(integer_node(n as nat, 8) as u8));
                    }
                },
                Err(e) => {
                    assert(e == ());
                },
            }
        }
        r
    }
}

impl vstd::std_specs::convert::TryFromSpecImpl<u8> for UFrac8 {
    open spec fn obeys_try_from_spec() -> bool {
        true
    }

    closed spec fn try_from_spec(n: u8) -> Result<Self, ()> {
        if n == 0 {
            Ok(UFrac8(0))
        } else if n <= 8 {
            Ok(UFrac8(integer_node(n as nat, 8) as u8))
        } else {
            Err(())
        }
    }
}

impl UFrac8 {
    /// What `try_from` on an integer returns: an error exactly above 8,
    /// zero for 0, else the node of `n - 1` right turns.
    pub proof fn lemma_try_from_integer(n: u8)
        ensures
            <UFrac8 as TryFromSpec<u8>>::try_from_spec(n) is Err <==> n > 8,
            <UFrac8 as TryFromSpec<u8>>::try_from_spec(n) matches Ok(x) ==> x@ == if n == 0 {
                0
            } else {
                integer_node(n as nat, 8)
            },
    {
        lemma_width();
        if 1 <= n <= 8 {
            law_integer_round_trip(n as nat, 8);
        }
    }
}

impl core::convert::TryFrom<UFrac16> for UFrac8 {
    type Error = ();

    /// The same fraction, its pattern moved down 8 bits, or an error where
    /// its depth does not fit in 8 bits.
    fn try_from(v: UFrac16) -> (r: Result<Self, ()>) {
        let b = v.to_bits();
        proof {
            lemma2_to64();
            lemma2_to64_rest();
        }
        match node::narrow(b as u64, 16, 8) {
            Some(x) => Ok(UFrac8(x as u8)),
            None => Err(()),
        }
    }
}

impl vstd::std_specs::convert::TryFromSpecImpl<UFrac16> for UFrac8 {
    open spec fn obeys_try_from_spec() -> bool {
        true
    }

    closed spec fn try_from_spec(v: UFrac16) -> Result<Self, ()> {
        if v@ % pow2(8) == 0 {
            Ok(UFrac8((v@ / pow2(8)) as u8))
        } else {
            Err(())
        }
    }
}

impl UFrac8 {
    /// What `try_from` a `UFrac16` returns: an error exactly where one of the
    /// 8 low bits is set, else the pattern moved down 8 bits, standing for
    /// the same fraction.
    pub proof fn lemma_try_from_ufrac16(v: UFrac16)
        ensures
            <UFrac8 as TryFromSpec<UFrac16>>::try_from_spec(v) is Err <==> v@ % pow2(8) != 0,
            <UFrac8 as TryFromSpec<UFrac16>>::try_from_spec(v) matches Ok(x) ==> x@ * pow2(8) == v@,
            <UFrac8 as TryFromSpec<UFrac16>>::try_from_spec(v) matches Ok(x) ==> value(x@, 8) == value(
                v@,
                16,
            ),
    {
        lemma_width();
        lemma2_to64();
        v.lemma_valid();
        if v@ % pow2(8) == 0 {
            lemma_value_narrow(v@, 8, 8);
            let q = v@ / pow2(8);
            let x = UFrac8(q as u8);
            lemma_pattern(q);
            assert(<UFrac8 as TryFromSpec<UFrac16>>::try_from_spec(v) == Ok::<UFrac8, ()>(x));
            assert(value(x@, 8) == value(v@, 16));
        }
    }
}

impl core::convert::TryFrom<UFrac32> for UFrac8 {
    type Error = ();

    /// The same fraction, its pattern moved down 24 bits, or an error where
    /// its depth does not fit in 8 bits.
    fn try_from(v: UFrac32) -> (r: Result<Self, ()>) {
        let b = v.to_bits();
        proof {
            lemma2_to64();
            lemma2_to64_rest();
        }
        match node::narrow(b as u64, 32, 24) {
            Some(x) => Ok(UFrac8(x as u8)),
            None => Err(()),
        }
    }
}

impl vstd::std_specs::convert::TryFromSpecImpl<UFrac32> for UFrac8 {
    open spec fn obeys_try_from_spec() -> bool {
        true
    }

    closed spec fn try_from_spec(v: UFrac32) -> Result<Self, ()> {
        if v@ % pow2(24) == 0 {
            Ok(UFrac8((v@ / pow2(24)) as u8))
        } else {
            Err(())
        }
    }
}

impl UFrac8 {
    /// What `try_from` a `UFrac32` returns: an error exactly where one of the
    /// 24 low bits is set, else the pattern moved down 24 bits, standing for
    /// the same fraction.
    pub proof fn lemma_try_from_ufrac32(v: UFrac32)
        ensures
            <UFrac8 as TryFromSpec<UFrac32>>::try_from_spec(v) is Err <==> v@ % pow2(24) != 0,
            <UFrac8 as TryFromSpec<UFrac32>>::try_from_spec(v) matches Ok(x) ==> x@ * pow2(24) == v@,
            <UFrac8 as TryFromSpec<UFrac32>>::try_from_spec(v) matches Ok(x) ==> value(x@, 8) == value(
                v@,
                32,
            ),
    {
        lemma_width();
        lemma2_to64();
        v.lemma_valid();
        if v@ % pow2(24) == 0 {
            lemma_value_narrow(v@, 8, 24);
            let q = v@ / pow2(24);
            let x = UFrac8(q as u8);
            lemma_pattern(q);
            assert(<UFrac8 as TryFromSpec<UFrac32>>::try_from_spec(v) == Ok::<UFrac8, ()>(x));
            assert(value(x@, 8) == value(v@, 32));
        }
    }
}

impl core::convert::TryFrom<UFrac64> for UFrac8 {
    type Error = ();

    /// The same fraction, its pattern moved down 56 bits, or an error where
    /// its depth does not fit in 8 bits.
    fn try_from(v: UFrac64) -> (r: Result<Self, ()>) {
        let b = v.to_bits();
        proof {
            lemma2_to64();
            lemma2_to64_rest();
        }
        match node::narrow(b as u64, 64, 56) {
            Some(x) => Ok(UFrac8(x as u8)),
            None => Err(()),
        }
    }
}

impl vstd::std_specs::convert::TryFromSpecImpl<UFrac64> for UFrac8 {
    open spec fn obeys_try_from_spec() -> bool {
        true
    }

    closed spec fn try_from_spec(v: UFrac64) -> Result<Self, ()> {
        if v@ % pow2(56) == 0 {
            Ok(UFrac8((v@ / pow2(56)) as u8))
        } else {
            Err(())
        }
    }
}

impl UFrac8 {
    /// What `try_from` a `UFrac64` returns: an error exactly where one of the
    /// 56 low bits is set, else the pattern moved down 56 bits, standing for
    /// the same fraction.
    pub proof fn lemma_try_from_ufrac64(v: UFrac64)
        ensures
            <UFrac8 as TryFromSpec<UFrac64>>::try_from_spec(v) is Err <==> v@ % pow2(56) != 0,
            <UFrac8 as TryFromSpec<UFrac64>>::try_from_spec(v) matches Ok(x) ==> x@ * pow2(56) == v@,
            <UFrac8 as TryFromSpec<UFrac64>>::try_from_spec(v) matches Ok(x) ==> value(x@, 8) == value(
                v@,
                64,
            ),
    {
        lemma_width();
        lemma2_to64();
        v.lemma_valid();
        if v@ % pow2(56) == 0 {
            lemma_value_narrow(v@, 8, 56);
            let q = v@ / pow2(56);
            let x = UFrac8(q as u8);
            lemma_pattern(q);
            assert(<UFrac8 as TryFromSpec<UFrac64>>::try_from_spec(v) == Ok::<UFrac8, ()>(x));
            assert(value(x@, 8) == value(v@, 64));
        }
    }
}

} // verus!
