//! The 32-bit unsigned fraction.
use crate::model::{
    approximation, bounds, depth, integer_node, is_leaf, left_of, mirror, parent_of, right_of, root,
    sibling_of, valid, value,
};
use crate::node;
use vstd::arithmetic::power2::{lemma2_to64, lemma2_to64_rest, pow2};
use vstd::prelude::*;
use vstd::std_specs::convert::{FromSpec, TryFromSpec};
use crate::laws::law_integer_round_trip;
use crate::model::{lemma_value_narrow, lemma_value_scale};
use crate::ufrac8::UFrac8;
use crate::ufrac16::UFrac16;

verus! {

/// A fraction in 32 bits: zero, or a node of the Stern–Brocot tree at a
/// depth of at most 31. The order of the bits as an unsigned integer is the
/// order of the fractions.
#[derive(PartialEq, Eq, Structural, Clone, Copy, Hash, PartialOrd, Ord, Debug, Default)]
pub struct UFrac32(u32);

impl View for UFrac32 {
    type V = nat;

    /// The bit pattern, as a number.
    closed spec fn view(&self) -> nat {
        self.0 as nat
    }
}

/// The facts about width 32 that the methods below rest on.
proof fn lemma_width()
    ensures
        valid(0, 32),
        pow2(32) == u32::MAX + 1,
        root(32) == 0x80000000,
{
    lemma2_to64();
    lemma2_to64_rest();
}

/// A number below `2^32` is the view of the value with that pattern.
proof fn lemma_pattern(q: nat)
    requires
        q < pow2(32),
    ensures
        UFrac32(q as u32)@ == q,
{
    lemma_width();
}

impl UFrac32 {
    /// Two values are equal exactly when their bit patterns are.
    pub proof fn lemma_view_eq(a: Self, b: Self)
        ensures
            a@ == b@ <==> a == b,
    {
    }

    /// Every value is a pattern of width 32.
    pub proof fn lemma_valid(self)
        ensures
            valid(self@, 32),
    {
        lemma_width();
    }

    /// The fraction 0.
    pub fn zero() -> (r: Self)
        ensures
            r@ == 0,
    {
        UFrac32(0)
    }

    /// The smallest nonzero fraction, 1/32: all left turns.
    pub fn min_value() -> (r: Self)
        ensures
            r@ == 1,
    {
        UFrac32(1)
    }

    /// The fraction 1, the root of the tree.
    pub fn one() -> (r: Self)
        ensures
            r@ == root(32),
    {
        proof {
            lemma_width();
        }
        UFrac32(0x80000000)
    }

    /// The golden ratio, to the depth of this width: 2178309/1346269.
    pub fn golden_ratio() -> (r: Self)
        ensures
            r@ == 0xAAAA_AAAA,
    {
        UFrac32(0xAAAA_AAAA)
    }

    /// Euler's number, to the depth of this width: 28667/10546.
    pub fn e() -> (r: Self)
        ensures
            r@ == 0xDA17_E802,
    {
        UFrac32(0xDA17_E802)
    }

    /// Pi, to the depth of this width: 3861/1229.
    pub fn pi() -> (r: Self)
        ensures
            r@ == 0xE03F_FFBD,
    {
        UFrac32(0xE03F_FFBD)
    }

    /// The largest fraction, the integer 32: all right turns.
    pub fn max_value() -> (r: Self)
        ensures
            r@ + 1 == pow2(32),
    {
        proof {
            lemma_width();
        }
        UFrac32(u32::MAX)
    }

    /// The value with the given bit pattern.
    pub fn from_bits(bits: u32) -> (r: Self)
        ensures
            r@ == bits as nat,
    {
        UFrac32(bits)
    }

    /// The bit pattern of the value.
    pub fn to_bits(self) -> (r: u32)
        ensures
            r as nat == self@,
    {
        self.0
    }

    /// The fraction as (numerator, denominator), in lowest terms; zero is
    /// `(0, 1)`.
    pub fn to_fraction(self) -> (r: (u32, u32))
        ensures
            (r.0 as nat, r.1 as nat) == value(self@, 32),
    {
        proof {
            lemma_width();
        }
        let (n, d) = node::decode(self.0 as u64, 32);
        (n as u32, d as u32)
    }

    /// The depth of the node: how many turns lead to it from the root (0 to
    /// 31); 0 for zero.
    pub fn precision(self) -> (r: u32)
        ensures
            r as nat == depth(self@, 32),
    {
        proof {
            lemma_width();
        }
        node::precision(self.0 as u64, 32) as u32
    }

    /// The reciprocal of a nonzero value.
    pub fn invert(self) -> (r: Self)
        requires
            self@ != 0,
        ensures
            r@ == mirror(self@, 32),
    {
        self.invert_unchecked()
    }

    /// The reciprocal, or `None` for zero.
    pub fn try_invert(self) -> (r: Option<Self>)
        ensures
            r is None <==> self@ == 0,
            r matches Some(x) ==> x@ == mirror(self@, 32),
    {
        if self.0 == 0 {
            None
        } else {
            Some(self.invert_unchecked())
        }
    }

    /// The reciprocal; zero, which has none, is left as it is.
    pub fn invert_unchecked(self) -> (r: Self)
        ensures
            r@ == mirror(self@, 32),
    {
        proof {
            lemma_width();
        }
        UFrac32(node::invert(self.0 as u64, 32) as u32)
    }

    /// The parent node, or `None` for zero and for the root.
    pub fn parent(self) -> (r: Option<Self>)
        ensures
            r is None <==> (self@ == 0 || self@ == root(32)),
            r matches Some(p) ==> p@ == parent_of(self@),
    {
        proof {
            lemma_width();
        }
        match node::parent(self.0 as u64, 32) {
            Some(p) => Some(UFrac32(p as u32)),
            None => None,
        }
    }

    /// The left child, or `None` for zero and for a leaf.
    pub fn left_child(self) -> (r: Option<Self>)
        ensures
            r is None <==> (self@ == 0 || is_leaf(self@)),
            r matches Some(c) ==> c@ == left_of(self@),
            r matches Some(c) ==> bounds(c@, 32) == (bounds(self@, 32).0, value(self@, 32)),
    {
        proof {
            lemma_width();
        }
        match node::left_child(self.0 as u64, 32) {
            Some(c) => Some(UFrac32(c as u32)),
            None => None,
        }
    }

    /// The right child, or `None` for zero and for a leaf.
    pub fn right_child(self) -> (r: Option<Self>)
        ensures
            r is None <==> (self@ == 0 || is_leaf(self@)),
            r matches Some(c) ==> c@ == right_of(self@),
            r matches Some(c) ==> bounds(c@, 32) == (value(self@, 32), bounds(self@, 32).1),
    {
        proof {
            lemma_width();
        }
        match node::right_child(self.0 as u64, 32) {
            Some(c) => Some(UFrac32(c as u32)),
            None => None,
        }
    }

    /// Both children, left first, or `None` for zero and for a leaf.
    pub fn children(self) -> (r: Option<(Self, Self)>)
        ensures
            r is None <==> (self@ == 0 || is_leaf(self@)),
            r matches Some(c) ==> c.0@ == left_of(self@) && c.1@ == right_of(self@),
    {
        proof {
            lemma_width();
        }
        match node::children(self.0 as u64, 32) {
            Some((l, r)) => Some((UFrac32(l as u32), UFrac32(r as u32))),
            None => None,
        }
    }

    /// The other child of the parent, or `None` for zero and for the root.
    pub fn sibling(self) -> (r: Option<Self>)
        ensures
            r is None <==> (self@ == 0 || self@ == root(32)),
            r matches Some(s) ==> s@ == sibling_of(self@),
    {
        proof {
            lemma_width();
        }
        if self.0 == 0 || self.0 == 0x80000000 {
            None
        } else {
            Some(self.sibling_unchecked())
        }
    }

    /// The other child of the parent, for a value that is neither zero nor
    /// the root.
    pub fn sibling_unchecked(self) -> (r: Self)
        requires
            self@ != 0,
            self@ != root(32),
        ensures
            r@ == sibling_of(self@),
    {
        proof {
            lemma_width();
        }
        UFrac32(node::sibling(self.0 as u64, 32) as u32)
    }

    /// Whether the node has the greatest depth, 31, and so no children.
    /// Zero is no leaf.
    pub fn is_leaf(self) -> (r: bool)
        ensures
            r == is_leaf(self@),
    {
        self.0 % 2 == 1
    }

    /// The node that approximates `num/den`, or an error where `den` is 0.
    /// A node whose fraction equals `num/den` is found exactly. Otherwise
    /// the walk of `Approximation` goes down to the leaves and ends on the
    /// candidate it noted on the side the last node missed: the left child
    /// of the last node found too large, or of the last found too small.
    /// This rounding is directional, not to the nearest node.
    pub fn from_ratio(num: u64, den: u64) -> (r: Result<Self, ()>)
        ensures
            r is Err <==> den == 0,
            r matches Ok(x) ==> x@ == approximation((num as nat, den as nat), 32),
    {
        if den == 0 {
            Err(())
        } else {
            proof {
                lemma_width();
            }
            Ok(UFrac32(node::encode_ratio(num, den, 32) as u32))
        }
    }

    /// The node for an integer: zero for 0, `n - 1` right turns from the
    /// root for `1 <= n <= 32`, and an error above 32.
    pub fn from_integer(n: u32) -> (r: Result<Self, ()>)
        ensures
            r is Err <==> n > 32,
            r matches Ok(x) ==> x@ == if n == 0 {
                0
            } else {
                integer_node(n as nat, 32)
            },
    {
        proof {
            lemma_width();
        }
        match node::integer(n as u64, 32) {
            Some(b) => Ok(UFrac32(b as u32)),
            None => Err(()),
        }
    }

    /// This fraction in 8 bits: the same node where its depth fits, else
    /// its ancestor at depth 7. `UFrac8::try_from` is the exact conversion.
    pub fn to_ufrac8_lossy(self) -> (r: UFrac8)
        ensures
            r@ == if self@ % pow2(24) == 0 {
                self@ / pow2(24)
            } else {
                2 * (self@ / pow2(24) / 2) + 1
            },
    {
        proof {
            lemma_width();
            lemma2_to64();
        }
        UFrac8::from_bits(node::truncate(self.0 as u64, 32, 24) as u8)
    }

    /// This fraction in 16 bits: the same node where its depth fits, else
    /// its ancestor at depth 15. `UFrac16::try_from` is the exact conversion.
    pub fn to_ufrac16_lossy(self) -> (r: UFrac16)
        ensures
            r@ == if self@ % pow2(16) == 0 {
                self@ / pow2(16)
            } else {
                2 * (self@ / pow2(16) / 2) + 1
            },
    {
        proof {
            lemma_width();
            lemma2_to64();
        }
        UFrac16::from_bits(node::truncate(self.0 as u64, 32, 16) as u16)
    }
}

impl core::convert::TryFrom<u32> for UFrac32 {
    type Error = ();

    /// The node for an integer from 0 to 32; see `from_integer`.
    fn try_from(n: u32) -> (r: Result<Self, ()>) {
        let r = Self::from_integer(n);
        proof {
            match r {
                Ok(x) => {
                    if n == 0 {
                        assert(x == UFrac32(0));
                    } else {
                        assert(x == UFrac32(integer_node(n as nat, 32) as u32));
                    }
                },
                Err(e) => {
                    assert(e == ());
                },
            }
        }
        r
    }
}

impl vstd::std_specs::convert::TryFromSpecImpl<u32> for UFrac32 {
    open spec fn obeys_try_from_spec() -> bool {
        true
    }

    closed spec fn try_from_spec(n: u32) -> Result<Self, ()> {
        if n == 0 {
            Ok(UFrac32(0))
        } else if n <= 32 {
            Ok(UFrac32(integer_node(n as nat, 32) as u32))
        } else {
            Err(())
        }
    }
}

impl UFrac32 {
    /// What `try_from` on an integer returns: an error exactly above 32,
    /// zero for 0, else the node of `n - 1` right turns.
    pub proof fn lemma_try_from_integer(n: u32)
        ensures
            <UFrac32 as TryFromSpec<u32>>::try_from_spec(n) is Err <==> n > 32,
            <UFrac32 as TryFromSpec<u32>>::try_from_spec(n) matches Ok(x) ==> x@ == if n == 0 {
                0
            } else {
                integer_node(n as nat, 32)
            },
    {
        lemma_width();
        if 1 <= n <= 32 {
            law_integer_round_trip(n as nat, 32);
        }
    }
}

impl core::convert::From<UFrac8> for UFrac32 {
    /// The same fraction, its pattern moved up 24 bits; nothing is lost.
    fn from(v: UFrac8) -> (r: Self) {
        let b = v.to_bits();
        proof {
            lemma2_to64();
            lemma2_to64_rest();
        }
        UFrac32(node::widen(b as u64, 8, 24) as u32)
    }
}

impl vstd::std_specs::convert::FromSpecImpl<UFrac8> for UFrac32 {
    open spec fn obeys_from_spec() -> bool {
        true
    }

    closed spec fn from_spec(v: UFrac8) -> Self {
        UFrac32((v@ * pow2(24)) as u32)
    }
}

impl UFrac32 {
    /// What `from` a `UFrac8` returns: the pattern moved up 24 bits, standing
    /// for the same fraction.
    pub proof fn lemma_from_ufrac8(v: UFrac8)
        ensures
            <UFrac32 as FromSpec<UFrac8>>::from_spec(v)@ == v@ * pow2(24),
            value(<UFrac32 as FromSpec<UFrac8>>::from_spec(v)@, 32) == value(v@, 8),
    {
        lemma_width();
        v.lemma_valid();
        lemma_value_scale(v@, 8, 24);
    }
}

impl core::convert::From<UFrac16> for UFrac32 {
    /// The same fraction, its pattern moved up 16 bits; nothing is lost.
    fn from(v: UFrac16) -> (r: Self) {
        let b = v.to_bits();
        proof {
            lemma2_to64();
            lemma2_to64_rest();
        }
        UFrac32(node::widen(b as u64, 16, 16) as u32)
    }
}

impl vstd::std_specs::convert::FromSpecImpl<UFrac16> for UFrac32 {
    open spec fn obeys_from_spec() -> bool {
        true
    }

    closed spec fn from_spec(v: UFrac16) -> Self {
        UFrac32((v@ * pow2(16)) as u32)
    }
}

impl UFrac32 {
    /// What `from` a `UFrac16` returns: the pattern moved up 16 bits, standing
    /// for the same fraction.
    pub proof fn lemma_from_ufrac16(v: UFrac16)
        ensures
            <UFrac32 as FromSpec<UFrac16>>::from_spec(v)@ == v@ * pow2(16),
            value(<UFrac32 as FromSpec<UFrac16>>::from_spec(v)@, 32) == value(v@, 16),
    {
        lemma_width();
        v.lemma_valid();
        lemma_value_scale(v@, 16, 16);
    }
}

} // verus!
