//! The 64-bit unsigned fraction.
use crate::model::{
    approximation, bounds, depth, integer_node, is_leaf, left_of, mirror, parent_of, right_of, root,
    sibling_of, valid, value,
};
use crate::node;
use vstd::arithmetic::power2::{lemma2_to64, lemma2_to64_rest, pow2};
use vstd::prelude::*;
use vstd::std_specs::convert::{FromSpec, TryFromSpec};
use crate::laws::law_integer_round_trip;
use crate::model::{lemma_value_narrow, lemma_value_scale};
use crate::ufrac8::UFrac8;
use crate::ufrac16::UFrac16;
use crate::ufrac32::UFrac32;

verus! {

/// A fraction in 64 bits: zero, or a node of the Stern–Brocot tree at a
/// depth of at most 63. The order of the bits as an unsigned integer is the
/// order of the fractions.
#[derive(PartialEq, Eq, Structural, Clone, Copy, Hash, PartialOrd, Ord, Debug, Default)]
pub struct UFrac64(u64);

impl View for UFrac64 {
    type V = nat;

    /// The bit pattern, as a number.
    closed spec fn view(&self) -> nat {
        self.0 as nat
    }
}

/// The facts about width 64 that the methods below rest on.
proof fn lemma_width()
    ensures
        valid(0, 64),
        pow2(64) == u64::MAX + 1,
        root(64) == 0x8000000000000000,
{
    lemma2_to64();
    lemma2_to64_rest();
}

/// A number below `2^64` is the view of the value with that pattern.
proof fn lemma_pattern(q: nat)
    requires
        q < pow2(64),
    ensures
        UFrac64(q as u64)@ == q,
{
    lemma_width();
}

impl UFrac64 {
    /// Two values are equal exactly when their bit patterns are.
    pub proof fn lemma_view_eq(a: Self, b: Self)
        ensures
            a@ == b@ <==> a == b,
    {
    }

    /// Every value is a pattern of width 64.
    pub proof fn lemma_valid(self)
        ensures
            valid(self@, 64),
    {
        lemma_width();
    }

    /// The fraction 0.
    pub fn zero() -> (r: Self)
        ensures
            r@ == 0,
    {
        UFrac64(0)
    }

    /// The smallest nonzero fraction, 1/64: all left turns.
    pub fn min_value() -> (r: Self)
        ensures
            r@ == 1,
    {
        UFrac64(1)
    }

    /// The fraction 1, the root of the tree.
    pub fn one() -> (r: Self)
        ensures
            r@ == root(64),
    {
        proof {
            lemma_width();
        }
        UFrac64(0x8000000000000000)
    }

    /// The golden ratio, to the depth of this width: 10610209857723/6557470319842.
    pub fn golden_ratio() -> (r: Self)
        ensures
            r@ == 0xAAAA_AAAA_AAAA_AAAA,
    {
        UFrac64(0xAAAA_AAAA_AAAA_AAAA)
    }

    /// Euler's number, to the depth of this width: 340033231/125091235.
    pub fn e() -> (r: Self)
        ensures
            r@ == 0xDA17_E805_FFA0_017D,
    {
        UFrac64(0xDA17_E805_FFA0_017D)
    }

    /// Pi, to the depth of this width: 26581/8461.
    pub fn pi() -> (r: Self)
        ensures
            r@ == 0xE03F_FFBF_FFFF_FFFD,
    {
        UFrac64(0xE03F_FFBF_FFFF_FFFD)
    }

    /// The largest fraction, the integer 64: all right turns.
    pub fn max_value() -> (r: Self)
        ensures
            r@ + 1 == pow2(64),
    {
        proof {
            lemma_width();
        }
        UFrac64(u64::MAX)
    }

    /// The value with the given bit pattern.
    pub fn from_bits(bits: u64) -> (r: Self)
        ensures
            r@ == bits as nat,
    {
        UFrac64(bits)
    }

    /// The bit pattern of the value.
    pub fn to_bits(self) -> (r: u64)
        ensures
            r as nat == self@,
    {
        self.0
    }

    /// The fraction as (numerator, denominator), in lowest terms; zero is
    /// `(0, 1)`.
    pub fn to_fraction(self) -> (r: (u64, u64))
        ensures
            (r.0 as nat, r.1 as nat) == value(self@, 64),
    {
        proof {
            lemma_width();
        }
        let (n, d) = node::decode(self.0 as u64, 64);
        (n as u64, d as u64)
    }

    /// The depth of the node: how many turns lead to it from the root (0 to
    /// 63); 0 for zero.
    pub fn precision(self) -> (r: u32)
        ensures
            r as nat == depth(self@, 64),
    {
        proof {
            lemma_width();
        }
        node::precision(self.0 as u64, 64) as u32
    }

    /// The reciprocal of a nonzero value.
    pub fn invert(self) -> (r: Self)
        requires
            self@ != 0,
        ensures
            r@ == mirror(self@, 64),
    {
        self.invert_unchecked()
    }

    /// The reciprocal, or `None` for zero.
    pub fn try_invert(self) -> (r: Option<Self>)
        ensures
            r is None <==> self@ == 0,
            r matches Some(x) ==> x@ == mirror(self@, 64),
    {
        if self.0 == 0 {
            None
        } else {
            Some(self.invert_unchecked())
        }
    }

    /// The reciprocal; zero, which has none, is left as it is.
    pub fn invert_unchecked(self) -> (r: Self)
        ensures
            r@ == mirror(self@, 64),
    {
        proof {
            lemma_width();
        }
        UFrac64(node::invert(self.0 as u64, 64) as u64)
    }

    /// The parent node, or `None` for zero and for the root.
    pub fn parent(self) -> (r: Option<Self>)
        ensures
            r is None <==> (self@ == 0 || self@ == root(64)),
            r matches Some(p) ==> p@ == parent_of(self@),
    {
        proof {
            lemma_width();
        }
        match node::parent(self.0 as u64, 64) {
            Some(p) => Some(UFrac64(p as u64)),
            None => None,
        }
    }

    /// The left child, or `None` for zero and for a leaf.
    pub fn left_child(self) -> (r: Option<Self>)
        ensures
            r is None <==> (self@ == 0 || is_leaf(self@)),
            r matches Some(c) ==> c@ == left_of(self@),
            r matches Some(c) ==> bounds(c@, 64) == (bounds(self@, 64).0, value(self@, 64)),
    {
        proof {
            lemma_width();
        }
        match node::left_child(self.0 as u64, 64) {
            Some(c) => Some(UFrac64(c as u64)),
            None => None,
        }
    }

    /// The right child, or `None` for zero and for a leaf.
    pub fn right_child(self) -> (r: Option<Self>)
        ensures
            r is None <==> (self@ == 0 || is_leaf(self@)),
            r matches Some(c) ==> c@ == right_of(self@),
            r matches Some(c) ==> bounds(c@, 64) == (value(self@, 64), bounds(self@, 64).1),
    {
        proof {
            lemma_width();
        }
        match node::right_child(self.0 as u64, 64) {
            Some(c) => Some(UFrac64(c as u64)),
            None => None,
        }
    }

    /// Both children, left first, or `None` for zero and for a leaf.
    pub fn children(self) -> (r: Option<(Self, Self)>)
        ensures
            r is None <==> (self@ == 0 || is_leaf(self@)),
            r matches Some(c) ==> c.0@ == left_of(self@) && c.1@ == right_of(self@),
    {
        proof {
            lemma_width();
        }
        match node::children(self.0 as u64, 64) {
            Some((l, r)) => Some((UFrac64(l as u64), UFrac64(r as u64))),
            None => None,
        }
    }

    /// The other child of the parent, or `None` for zero and for the root.
    pub fn sibling(self) -> (r: Option<Self>)
        ensures
            r is None <==> (self@ == 0 || self@ == root(64)),
            r matches Some(s) ==> s@ == sibling_of(self@),
    {
        proof {
            lemma_width();
        }
        if self.0 == 0 || self.0 == 0x8000000000000000 {
            None
        } else {
            Some(self.sibling_unchecked())
        }
    }

    /// The other child of the parent, for a value that is neither zero nor
    /// the root.
    pub fn sibling_unchecked(self) -> (r: Self)
        requires
            self@ != 0,
            self@ != root(64),
        ensures
            r@ == sibling_of(self@),
    {
        proof {
            lemma_width();
        }
        UFrac64(node::sibling(self.0 as u64, 64) as u64)
    }

    /// Whether the node has the greatest depth, 63, and so no children.
    /// Zero is no leaf.
    pub fn is_leaf(self) -> (r: bool)
        ensures
            r == is_leaf(self@),
    {
        self.0 % 2 == 1
    }

    /// The node that approximates `num/den`, or an error where `den` is 0.
    /// A node whose fraction equals `num/den` is found exactly. Otherwise
    /// the walk of `Approximation` goes down to the leaves and ends on the
    /// candidate it noted on the side the last node missed: the left child
    /// of the last node found too large, or of the last found too small.
    /// This rounding is directional, not to the nearest node.
    pub fn from_ratio(num: u64, den: u64) -> (r: Result<Self, ()>)
        ensures
            r is Err <==> den == 0,
            r matches Ok(x) ==> x@ == approximation((num as nat, den as nat), 64),
    {
        if den == 0 {
            Err(())
        } else {
            proof {
                lemma_width();
            }
            Ok(UFrac64(node::encode_ratio(num, den, 64) as u64))
        }
    }

    /// The node for an integer: zero for 0, `n - 1` right turns from the
    /// root for `1 <= n <= 64`, and an error above 64.
    pub fn from_integer(n: u64) -> (r: Result<Self, ()>)
        ensures
            r is Err <==> n > 64,
            r matches Ok(x) ==> x@ == if n == 0 {
                0
            } else {
                integer_node(n as nat, 64)
            },
    {
        proof {
            lemma_width();
        }
        match node::integer(n as u64, 64) {
            Some(b) => Ok(UFrac64(b as u64)),
            None => Err(()),
        }
    }

    /// This fraction in 8 bits: the same node where its depth fits, else
    /// its ancestor at depth 7. `UFrac8::try_from` is the exact conversion.
    pub fn to_ufrac8_lossy(self) -> (r: UFrac8)
        ensures
            r@ == if self@ % pow2(56) == 0 {
                self@ / pow2(56)
            } else {
                2 * (self@ / pow2(56) / 2) + 1
            },
    {
        proof {
            lemma_width();
            lemma2_to64();
        }
        UFrac8::from_bits(node::truncate(self.0 as u64, 64, 56) as u8)
    }

    /// This fraction in 16 bits: the same node where its depth fits, else
    /// its ancestor at depth 15. `UFrac16::try_from` is the exact conversion.
    pub fn to_ufrac16_lossy(self) -> (r: UFrac16)
        ensures
            r@ == if self@ % pow2(48) == 0 {
                self@ / pow2(48)
            } else {
                2 * (self@ / pow2(48) / 2) + 1
            },
    {
        proof {
            lemma_width();
            lemma2_to64();
        }
        UFrac16::from_bits(node::truncate(self.0 as u64, 64, 48) as u16)
    }
}

impl core::convert::TryFrom<u64> for UFrac64 {
    type Error = ();

    /// The node for an integer from 0 to 64; see `from_integer`.
    fn try_from(n: u64) -> (r: Result<Self, ()>) {
        let r = Self::from_integer(n);
        proof {
            match r {
                Ok(x) => {
                    if n == 0 {
                        assert(x == UFrac64(0));
                    } else {
                        assert(x == UFrac64(integer_node(n as nat, 64) as u64));
                    }
                },
                Err(e) => {
                    assert(e == ());
                },
            }
        }
        r
    }
}

impl vstd::std_specs::convert::TryFromSpecImpl<u64> for UFrac64 {
    open spec fn obeys_try_from_spec() -> bool {
        true
    }

    closed spec fn try_from_spec(n: u64) -> Result<Self, ()> {
        if n == 0 {
            Ok(UFrac64(0))
        } else if n <= 64 {
            Ok(UFrac64(integer_node(n as nat, 64) as u64))
        } else {
            Err(())
        }
    }
}

impl UFrac64 {
    /// What `try_from` on an integer returns: an error exactly above 64,
    /// zero for 0, else the node of `n - 1` right turns.
    pub proof fn lemma_try_from_integer(n: u64)
        ensures
            <UFrac64 as TryFromSpec<u64>>::try_from_spec(n) is Err <==> n > 64,
            <UFrac64 as TryFromSpec<u64>>::try_from_spec(n) matches Ok(x) ==> x@ == if n == 0 {
                0
            } else {
                integer_node(n as nat, 64)
            },
    {
        lemma_width();
        if 1 <= n <= 64 {
            law_integer_round_trip(n as nat, 64);
        }
    }
}

impl core::convert::From<UFrac8> for UFrac64 {
    /// The same fraction, its pattern moved up 56 bits; nothing is lost.
    fn from(v: UFrac8) -> (r: Self) {
        let b = v.to_bits();
        proof {
            lemma2_to64();
            lemma2_to64_rest();
        }
        UFrac64(node::widen(b as u64, 8, 56) as u64)
    }
}

impl vstd::std_specs::convert::FromSpecImpl<UFrac8> for UFrac64 {
    open spec fn obeys_from_spec() -> bool {
        true
    }

    closed spec fn from_spec(v: UFrac8) -> Self {
        UFrac64((v@ * pow2(56)) as u64)
    }
}

impl UFrac64 {
    /// What `from` a `UFrac8` returns: the pattern moved up 56 bits, standing
    /// for the same fraction.
    pub proof fn lemma_from_ufrac8(v: UFrac8)
        ensures
            <UFrac64 as FromSpec<UFrac8>>::from_spec(v)@ == v@ * pow2(56),
            value(<UFrac64 as FromSpec<UFrac8>>::from_spec(v)@, 64) == value(v@, 8),
    {
        lemma_width();
        v.lemma_valid();
        lemma_value_scale(v@, 8, 56);
    }
}

impl core::convert::From<UFrac16> for UFrac64 {
    /// The same fraction, its pattern moved up 48 bits; nothing is lost.
    fn from(v: UFrac16) -> (r: Self) {
        let b = v.to_bits();
        proof {
            lemma2_to64();
            lemma2_to64_rest();
        }
        UFrac64(node::widen(b as u64, 16, 48) as u64)
    }
}

impl vstd::std_specs::convert::FromSpecImpl<UFrac16> for UFrac64 {
    open spec fn obeys_from_spec() -> bool {
        true
    }

    closed spec fn from_spec(v: UFrac16) -> Self {
        UFrac64((v@ * pow2(48)) as u64)
    }
}

impl UFrac64 {
    /// What `from` a `UFrac16` returns: the pattern moved up 48 bits, standing
    /// for the same fraction.
    pub proof fn lemma_from_ufrac16(v: UFrac16)
        ensures
            <UFrac64 as FromSpec<UFrac16>>::from_spec(v)@ == v@ * pow2(48),
            value(<UFrac64 as FromSpec<UFrac16>>::from_spec(v)@, 64) == value(v@, 16),
    {
        lemma_width();
        v.lemma_valid();
        lemma_value_scale(v@, 16, 48);
    }
}

impl core::convert::From<UFrac32> for UFrac64 {
    /// The same fraction, its pattern moved up 32 bits; nothing is lost.
    fn from(v: UFrac32) -> (r: Self) {
        let b = v.to_bits();
        proof {
            lemma2_to64();
            lemma2_to64_rest();
        }
        UFrac64(node::widen(b as u64, 32, 32) as u64)
    }
}

impl vstd::std_specs::convert::FromSpecImpl<UFrac32> for UFrac64 {
    open spec fn obeys_from_spec() -> bool {
        true
    }

    closed spec fn from_spec(v: UFrac32) -> Self {
        UFrac64((v@ * pow2(32)) as u64)
    }
}

impl UFrac64 {
    /// What `from` a `UFrac32` returns: the pattern moved up 32 bits, standing
    /// for the same fraction.
    pub proof fn lemma_from_ufrac32(v: UFrac32)
        ensures
            <UFrac64 as FromSpec<UFrac32>>::from_spec(v)@ == v@ * pow2(32),
            value(<UFrac64 as FromSpec<UFrac32>>::from_spec(v)@, 64) == value(v@, 32),
    {
        lemma_width();
        v.lemma_valid();
        lemma_value_scale(v@, 32, 32);
    }
}

} // verus!
