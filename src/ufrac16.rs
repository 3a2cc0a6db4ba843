//! The 16-bit unsigned fraction.
use crate::model::{
    approximation, bounds, depth, integer_node, is_leaf, left_of, mirror, parent_of, right_of, root,
    sibling_of, valid, value,
};
use crate::node;
use vstd::arithmetic::power2::{lemma2_to64, lemma2_to64_rest, pow2};
use vstd::prelude::*;
use vstd::std_specs::convert::{FromSpec, TryFromSpec};
use crate::laws::law_integer_round_trip;
use crate::model::{lemma_value_narrow, lemma_value_scale};
use crate::ufrac8::UFrac8;
use crate::ufrac32::UFrac32;

verus! {

/// A fraction in 16 bits: zero, or a node of the Stern–Brocot tree at a
/// depth of at most 15. The order of the bits as an unsigned integer is the
/// order of the fractions.
#[derive(PartialEq, Eq, Structural, Clone, Copy, Hash, PartialOrd, Ord, Debug, Default)]
pub struct UFrac16(u16);

impl View for UFrac16 {
    type V = nat;

    /// The bit pattern, as a number.
    closed spec fn view(&self) -> nat {
        self.0 as nat
    }
}

/// The facts about width 16 that the methods below rest on.
proof fn lemma_width()
    ensures
        valid(0, 16),
        pow2(16) == u16::MAX + 1,
        root(16) == 0x8000,
{
    lemma2_to64();
    lemma2_to64_rest();
}

/// A number below `2^16` is the view of the value with that pattern.
proof fn lemma_pattern(q: nat)
    requires
        q < pow2(16),
    ensures
        UFrac16(q as u16)@ == q,
{
    lemma_width();
}

impl UFrac16 {
    /// Two values are equal exactly when their bit patterns are.
    pub proof fn lemma_view_eq(a: Self, b: Self)
        ensures
            a@ == b@ <==> a == b,
    {
    }

    /// Every value is a pattern of width 16.
    pub proof fn lemma_valid(self)
        ensures
            valid(self@, 16),
    {
        lemma_width();
    }

    /// The fraction 0.
    pub fn zero() -> (r: Self)
        ensures
            r@ == 0,
    {
        UFrac16(0)
    }

    /// The smallest nonzero fraction, 1/16: all left turns.
    pub fn min_value() -> (r: Self)
        ensures
            r@ == 1,
    {
        UFrac16(1)
    }

    /// The fraction 1, the root of the tree.
    pub fn one() -> (r: Self)
        ensures
            r@ == root(16),
    {
        proof {
            lemma_width();
        }
        UFrac16(0x8000)
    }

    /// The golden ratio, to the depth of this width: 987/610.
    pub fn golden_ratio() -> (r: Self)
        ensures
            r@ == 0xAAAA,
    {
        UFrac16(0xAAAA)
    }

    /// Euler's number, to the depth of this width: 791/291.
    pub fn e() -> (r: Self)
        ensures
            r@ == 0xDA15,
    {
        UFrac16(0xDA15)
    }

    /// Pi, to the depth of this width: 204/65.
    pub fn pi() -> (r: Self)
        ensures
            r@ == 0xE03D,
    {
        UFrac16(0xE03D)
    }

    /// The largest fraction, the integer 16: all right turns.
    pub fn max_value() -> (r: Self)
        ensures
            r@ + 1 == pow2(16),
    {
        proof {
            lemma_width();
        }
        UFrac16(u16::MAX)
    }

    /// The value with the given bit pattern.
    pub fn from_bits(bits: u16) -> (r: Self)
        ensures
            r@ == bits as nat,
    {
        UFrac16(bits)
    }

    /// The bit pattern of the value.
    pub fn to_bits(self) -> (r: u16)
        ensures
            r as nat == self@,
    {
        self.0
    }

    /// The fraction as (numerator, denominator), in lowest terms; zero is
    /// `(0, 1)`.
    pub fn to_fraction(self) -> (r: (u16, u16))
        ensures
            (r.0 as nat, r.1 as nat) == value(self@, 16),
    {
        proof {
            lemma_width();
        }
        let (n, d) = node::decode(self.0 as u64, 16);
        (n as u16, d as u16)
    }

    /// The depth of the node: how many turns lead to it from the root (0 to
    /// 15); 0 for zero.
    pub fn precision(self) -> (r: u16)
        ensures
            r as nat == depth(self@, 16),
    {
        proof {
            lemma_width();
        }
        node::precision(self.0 as u64, 16) as u16
    }

    /// The reciprocal of a nonzero value.
    pub fn invert(self) -> (r: Self)
        requires
            self@ != 0,
        ensures
            r@ == mirror(self@, 16),
    {
        self.invert_unchecked()
    }

    /// The reciprocal, or `None` for zero.
    pub fn try_invert(self) -> (r: Option<Self>)
        ensures
            r is None <==> self@ == 0,
            r matches Some(x) ==> x@ == mirror(self@, 16),
    {
        if self.0 == 0 {
            None
        } else {
            Some(self.invert_unchecked())
        }
    }

    /// The reciprocal; zero, which has none, is left as it is.
    pub fn invert_unchecked(self) -> (r: Self)
        ensures
            r@ == mirror(self@, 16),
    {
        proof {
            lemma_width();
        }
        UFrac16(node::invert(self.0 as u64, 16) as u16)
    }

    /// The parent node, or `None` for zero and for the root.
    pub fn parent(self) -> (r: Option<Self>)
        ensures
            r is None <==> (self@ == 0 || self@ == root(16)),
            r matches Some(p) ==> p@ == parent_of(self@),
    {
        proof {
            lemma_width();
        }
        match node::parent(self.0 as u64, 16) {
            Some(p) => Some(UFrac16(p as u16)),
            None => None,
        }
    }

    /// The left child, or `None` for zero and for a leaf.
    pub fn left_child(self) -> (r: Option<Self>)
        ensures
            r is None <==> (self@ == 0 || is_leaf(self@)),
            r matches Some(c) ==> c@ == left_of(self@),
            r matches Some(c) ==> bounds(c@, 16) == (bounds(self@, 16).0, value(self@, 16)),
    {
        proof {
            lemma_width();
        }
        match node::left_child(self.0 as u64, 16) {
            Some(c) => Some(UFrac16(c as u16)),
            None => None,
        }
    }

    /// The right child, or `None` for zero and for a leaf.
    pub fn right_child(self) -> (r: Option<Self>)
        ensures
            r is None <==> (self@ == 0 || is_leaf(self@)),
            r matches Some(c) ==> c@ == right_of(self@),
            r matches Some(c) ==> bounds(c@, 16) == (value(self@, 16), bounds(self@, 16).1),
    {
        proof {
            lemma_width();
        }
        match node::right_child(self.0 as u64, 16) {
            Some(c) => Some(UFrac16(c as u16)),
            None => None,
        }
    }

    /// Both children, left first, or `None` for zero and for a leaf.
    pub fn children(self) -> (r: Option<(Self, Self)>)
        ensures
            r is None <==> (self@ == 0 || is_leaf(self@)),
            r matches Some(c) ==> c.0@ == left_of(self@) && c.1@ == right_of(self@),
    {
        proof {
            lemma_width();
        }
        match node::children(self.0 as u64, 16) {
            Some((l, r)) => Some((UFrac16(l as u16), UFrac16(r as u16))),
            None => None,
        }
    }

    /// The other child of the parent, or `None` for zero and for the root.
    pub fn sibling(self) -> (r: Option<Self>)
        ensures
            r is None <==> (self@ == 0 || self@ == root(16)),
            r matches Some(s) ==> s@ == sibling_of(self@),
    {
        proof {
            lemma_width();
        }
        if self.0 == 0 || self.0 == 0x8000 {
            None
        } else {
            Some(self.sibling_unchecked())
        }
    }

    /// The other child of the parent, for a value that is neither zero nor
    /// the root.
    pub fn sibling_unchecked(self) -> (r: Self)
        requires
            self@ != 0,
            self@ != root(16),
        ensures
            r@ == sibling_of(self@),
    {
        proof {
            lemma_width();
        }
        UFrac16(node::sibling(self.0 as u64, 16) as u16)
    }

    /// Whether the node has the greatest depth, 15, and so no children.
    /// Zero is no leaf.
    pub fn is_leaf(self) -> (r: bool)
        ensures
            r == is_leaf(self@),
    {
        self.0 % 2 == 1
    }

    /// The node that approximates `num/den`, or an error where `den` is 0.
    /// A node whose fraction equals `num/den` is found exactly. Otherwise
    /// the walk of `Approximation` goes down to the leaves and ends on the
    /// candidate it noted on the side the last node missed: the left child
    /// of the last node found too large, or of the last found too small.
    /// This rounding is directional, not to the nearest node.
    pub fn from_ratio(num: u64, den: u64) -> (r: Result<Self, ()>)
        ensures
            r is Err <==> den == 0,
            r matches Ok(x) ==> x@ == approximation((num as nat, den as nat), 16),
    {
        if den == 0 {
            Err(())
        } else {
            proof {
                lemma_width();
            }
            Ok(UFrac16(node::encode_ratio(num, den, 16) as u16))
        }
    }

    /// The node for an integer: zero for 0, `n - 1` right turns from the
    /// root for `1 <= n <= 16`, and an error above 16.
    pub fn from_integer(n: u16) -> (r: Result<Self, ()>)
        ensures
            r is Err <==> n > 16,
            r matches Ok(x) ==> x@ == if n == 0 {
                0
            } else {
                integer_node(n as nat, 16)
            },
    {
        proof {
            lemma_width();
        }
        match node::integer(n as u64, 16) {
            Some(b) => Ok(UFrac16(b as u16)),
            None => Err(()),
        }
    }

    /// This fraction in 8 bits: the same node where its depth fits, else
    /// its ancestor at depth 7. `UFrac8::try_from` is the exact conversion.
    pub fn to_ufrac8_lossy(self) -> (r: UFrac8)
        ensures
            r@ == if self@ % pow2(8) == 0 {
                self@ / pow2(8)
            } else {
                2 * (self@ / pow2(8) / 2) + 1
            },
    {
        proof {
            lemma_width();
            lemma2_to64();
        }
        UFrac8::from_bits(node::truncate(self.0 as u64, 16, 8) as u8)
    }
}

impl core::convert::TryFrom<u16> for UFrac16 {
    type Error = ();

    /// The node for an integer from 0 to 16; see `from_integer`.
    fn try_from(n: u16) -> (r: Result<Self, ()>) {
        let r = Self::from_integer(n);
        proof {
            match r {
                Ok(x) => {
                    if n == 0 {
                        assert(x == UFrac16(0));
                    } else {
                        assert(x == UFrac16(integer_node(n as nat, 16) as u16));
                    }
                },
                Err(e) => {
                    assert(e == ());
                },
            }
        }
        r
    }
}

impl vstd::std_specs::convert::TryFromSpecImpl<u16> for UFrac16 {
    open spec fn obeys_try_from_spec() -> bool {
        true
    }

    closed spec fn try_from_spec(n: u16) -> Result<Self, ()> {
        if n == 0 {
            Ok(UFrac16(0))
        } else if n <= 16 {
            Ok(UFrac16(integer_node(n as nat, 16) as u16))
        } else {
            Err(())
        }
    }
}

impl UFrac16 {
    /// What `try_from` on an integer returns: an error exactly above 16,
    /// zero for 0, else the node of `n - 1` right turns.
    pub proof fn lemma_try_from_integer(n: u16)
        ensures
            <UFrac16 as TryFromSpec<u16>>::try_from_spec(n) is Err <==> n > 16,
            <UFrac16 as TryFromSpec<u16>>::try_from_spec(n) matches Ok(x) ==> x@ == if n == 0 {
                0
            } else {
                integer_node(n as nat, 16)
            },
    {
        lemma_width();
        if 1 <= n <= 16 {
            law_integer_round_trip(n as nat, 16);
        }
    }
}

impl core::convert::From<UFrac8> for UFrac16 {
    /// The same fraction, its pattern moved up 8 bits; nothing is lost.
    fn from(v: UFrac8) -> (r: Self) {
        let b = v.to_bits();
        proof {
            lemma2_to64();
            lemma2_to64_rest();
        }
        UFrac16(node::widen(b as u64, 8, 8) as u16)
    }
}

impl vstd::std_specs::convert::FromSpecImpl<UFrac8> for UFrac16 {
    open spec fn obeys_from_spec() -> bool {
        true
    }

    closed spec fn from_spec(v: UFrac8) -> Self {
        UFrac16((v@ * pow2(8)) as u16)
    }
}

impl UFrac16 {
    /// What `from` a `UFrac8` returns: the pattern moved up 8 bits, standing
    /// for the same fraction.
    pub proof fn lemma_from_ufrac8(v: UFrac8)
        ensures
            <UFrac16 as FromSpec<UFrac8>>::from_spec(v)@ == v@ * pow2(8),
            value(<UFrac16 as FromSpec<UFrac8>>::from_spec(v)@, 16) == value(v@, 8),
    {
        lemma_width();
        v.lemma_valid();
        lemma_value_scale(v@, 8, 8);
    }
}

impl core::convert::TryFrom<UFrac32> for UFrac16 {
    type Error = ();

    /// The same fraction, its pattern moved down 16 bits, or an error where
    /// its depth does not fit in 16 bits.
    fn try_from(v: UFrac32) -> (r: Result<Self, ()>) {
        let b = v.to_bits();
        proof {
            lemma2_to64();
            lemma2_to64_rest();
        }
        match node::narrow(b as u64, 32, 16) {
            Some(x) => Ok(UFrac16(x as u16)),
            None => Err(()),
        }
    }
}

impl vstd::std_specs::convert::TryFromSpecImpl<UFrac32> for UFrac16 {
    open spec fn obeys_try_from_spec() -> bool {
        true
    }

    closed spec fn try_from_spec(v: UFrac32) -> Result<Self, ()> {
        if v@ % pow2(16) == 0 {
            Ok(UFrac16((v@ / pow2(16)) as u16))
        } else {
            Err(())
        }
    }
}

impl UFrac16 {
    /// What `try_from` a `UFrac32` returns: an error exactly where one of the
    /// 16 low bits is set, else the pattern moved down 16 bits, standing for
    /// the same fraction.
    pub proof fn lemma_try_from_ufrac32(v: UFrac32)
        ensures
            <UFrac16 as TryFromSpec<UFrac32>>::try_from_spec(v) is Err <==> v@ % pow2(16) != 0,
            <UFrac16 as TryFromSpec<UFrac32>>::try_from_spec(v) matches Ok(x) ==> x@ * pow2(16) == v@,
            <UFrac16 as TryFromSpec<UFrac32>>::try_from_spec(v) matches Ok(x) ==> value(x@, 16) == value(
                v@,
                32,
            ),
    {
        lemma_width();
        lemma2_to64();
        v.lemma_valid();
        if v@ % pow2(16) == 0 {
            lemma_value_narrow(v@, 16, 16);
            let q = v@ / pow2(16);
            let x = UFrac16(q as u16);
            lemma_pattern(q);
            assert(<UFrac16 as TryFromSpec<UFrac32>>::try_from_spec(v) == Ok::<UFrac16, ()>(x));
            assert(value(x@, 16) == value(v@, 32));
        }
    }
}

} // verus!
