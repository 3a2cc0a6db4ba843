//! The signed 8-bit fraction.
use crate::model::{depth, integer_node, mirror, valid, value, approximation};
use crate::node;
use core::cmp::Ordering;
use vstd::arithmetic::power2::{lemma2_to64, pow2};
use vstd::prelude::*;
use vstd::std_specs::convert::TryFromSpec;
use crate::laws::law_integer_round_trip;

verus! {

/// The magnitude field of a signed pattern: its low 7 bits.
pub open spec fn magnitude(b: nat) -> nat {
    b % 128
}

/// The sign bit of a signed pattern.
pub open spec fn negative(b: nat) -> bool {
    b >= 128
}

/// How two signed patterns compare: by sign first, then by magnitude, in
/// reverse between two negative values.
pub open spec fn signed_order(a: nat, b: nat) -> Ordering {
    if negative(a) != negative(b) {
        if negative(a) {
            Ordering::Less
        } else {
            Ordering::Greater
        }
    } else {
        let (x, y) = if negative(a) {
            (magnitude(b), magnitude(a))
        } else {
            (magnitude(a), magnitude(b))
        };
        if x < y {
            Ordering::Less
        } else if x > y {
            Ordering::Greater
        } else {
            Ordering::Equal
        }
    }
}

/// A signed fraction in 8 bits: a sign bit on top of a 7-bit unsigned
/// fraction (zero, or a node of the Stern–Brocot tree at a depth of at
/// most 6).
#[derive(PartialEq, Eq, Structural, Clone, Copy, Hash, Debug, Default)]
pub struct IFrac8(u8);

impl View for IFrac8 {
    type V = nat;

    /// The bit pattern, as a number.
    closed spec fn view(&self) -> nat {
        self.0 as nat
    }
}

proof fn lemma_width()
    ensures
        pow2(7) == 128,
        pow2(6) == 64,
{
    lemma2_to64();
}

impl IFrac8 {
    /// Two values are equal exactly when their bit patterns are.
    pub proof fn lemma_view_eq(a: Self, b: Self)
        ensures
            a@ == b@ <==> a == b,
    {
    }

    /// Every value is an 8-bit pattern.
    pub proof fn lemma_valid(self)
        ensures
            self@ < 256,
    {
    }

    /// What `try_from` on an integer returns: an error exactly where its
    /// absolute value is above 7, else the node for the absolute value with
    /// the integer's sign (zero has none).
    pub proof fn lemma_try_from_integer(n: i8)
        ensures
            <IFrac8 as TryFromSpec<i8>>::try_from_spec(n) is Err <==> (n > 7 || n < -7),
            <IFrac8 as TryFromSpec<i8>>::try_from_spec(n) matches Ok(x) ==> negative(x@) == (n
                < 0),
            <IFrac8 as TryFromSpec<i8>>::try_from_spec(n) matches Ok(x) ==> magnitude(x@) == if n
                == 0 {
                0
            } else {
                integer_node(abs_of(n as int), 7)
            },
    {
        lemma_width();
        if n != 0 && -7 <= n <= 7 {
            law_integer_round_trip(abs_of(n as int), 7);
        }
    }

    /// The fraction 0.
    pub fn zero() -> (r: Self)
        ensures
            r@ == 0,
    {
        IFrac8(0)
    }

    /// The smallest positive fraction, 1/7.
    pub fn min_value() -> (r: Self)
        ensures
            r@ == 1,
    {
        IFrac8(1)
    }

    /// The fraction 1.
    pub fn one() -> (r: Self)
        ensures
            r@ == 0x40,
    {
        IFrac8(0x40)
    }

    /// The golden ratio, to the depth of the magnitude: 11/7.
    pub fn golden_ratio() -> (r: Self)
        ensures
            r@ == 0x52,
    {
        IFrac8(0x52)
    }

    /// Euler's number, to the depth of the magnitude: 13/5.
    pub fn e() -> (r: Self)
        ensures
            r@ == 0x6A,
    {
        IFrac8(0x6A)
    }

    /// Pi, to the depth of the magnitude: 13/4.
    pub fn pi() -> (r: Self)
        ensures
            r@ == 0x71,
    {
        IFrac8(0x71)
    }

    /// The largest fraction, the integer 7.
    pub fn max_value() -> (r: Self)
        ensures
            r@ == 0x7F,
    {
        IFrac8(0x7F)
    }

    /// The value with the given bit pattern.
    pub fn from_bits(bits: u8) -> (r: Self)
        ensures
            r@ == bits as nat,
    {
        IFrac8(bits)
    }

    /// The bit pattern of the value.
    pub fn to_bits(self) -> (r: u8)
        ensures
            r as nat == self@,
    {
        self.0
    }

    /// The value with the given sign and 7-bit magnitude pattern, or an
    /// error where the magnitude does not fit in 7 bits. A zero magnitude
    /// gives zero, whatever the sign.
    pub fn from_magnitude(is_negative: bool, magnitude_bits: u8) -> (r: Result<Self, ()>)
        ensures
            r is Err <==> magnitude_bits >= 128,
            r matches Ok(x) ==> magnitude(x@) == magnitude_bits as nat,
            r matches Ok(x) ==> negative(x@) == (is_negative && magnitude_bits != 0),
    {
        if magnitude_bits >= 128 {
            Err(())
        } else if is_negative && magnitude_bits != 0 {
            Ok(IFrac8(magnitude_bits + 128))
        } else {
            Ok(IFrac8(magnitude_bits))
        }
    }

    /// Whether the sign bit is clear (zero included).
    pub fn is_positive(self) -> (r: bool)
        ensures
            r == !negative(self@),
    {
        self.0 < 128
    }

    /// Whether the sign bit is set.
    pub fn is_negative(self) -> (r: bool)
        ensures
            r == negative(self@),
    {
        self.0 >= 128
    }

    /// The value with the sign bit cleared.
    pub fn abs(self) -> (r: Self)
        ensures
            r@ == magnitude(self@),
    {
        IFrac8(self.0 % 128)
    }

    /// The depth of the magnitude's node (0 to 6); 0 for zero.
    pub fn precision(self) -> (r: u8)
        ensures
            r as nat == depth(magnitude(self@), 7),
    {
        proof {
            lemma_width();
        }
        node::precision((self.0 % 128) as u64, 7) as u8
    }

    /// The fraction as (numerator, denominator) in lowest terms, the sign on
    /// the numerator; zero is `(0, 1)`.
    pub fn to_fraction(self) -> (r: (i8, i8))
        ensures
            r.1 as int == value(magnitude(self@), 7).1,
            r.0 as int == if negative(self@) {
                -value(magnitude(self@), 7).0
            } else {
                value(magnitude(self@), 7).0 as int
            },
    {
        proof {
            lemma_width();
        }
        let (n, d) = node::decode((self.0 % 128) as u64, 7);
        let n = n as i8;
        if self.0 >= 128 {
            (-n, d as i8)
        } else {
            (n, d as i8)
        }
    }

    /// The reciprocal, with the sign kept. The magnitude zero has none; by
    /// convention it is taken to the largest magnitude, 7.
    pub fn invert(self) -> (r: Self)
        ensures
            negative(r@) == negative(self@),
            magnitude(r@) == if magnitude(self@) == 0 {
                0x7F
            } else {
                mirror(magnitude(self@), 7)
            },
    {
        proof {
            lemma_width();
        }
        let m = self.0 % 128;
        let sign = self.0 - m;
        if m == 0 {
            IFrac8(sign + 0x7F)
        } else {
            IFrac8(sign + node::invert(m as u64, 7) as u8)
        }
    }

    /// The total order of signed values: negative below positive, and
    /// between two values of one sign the order of their magnitudes,
    /// reversed where both are negative.
    pub fn cmp(&self, other: &Self) -> (r: Ordering)
        ensures
            r == signed_order(self@, other@),
    {
        let (a, b) = (self.0, other.0);
        if (a >= 128) != (b >= 128) {
            if a >= 128 {
                Ordering::Less
            } else {
                Ordering::Greater
            }
        } else {
            let (x, y) = if a >= 128 {
                (b % 128, a % 128)
            } else {
                (a % 128, b % 128)
            };
            if x < y {
                Ordering::Less
            } else if x > y {
                Ordering::Greater
            } else {
                Ordering::Equal
            }
        }
    }

    /// The node for a signed integer: zero for 0, else the node for its
    /// absolute value with its sign; an error where the absolute value is
    /// above 7.
    pub fn from_integer(n: i8) -> (r: Result<Self, ()>)
        ensures
            r is Err <==> (n > 7 || n < -7),
            r matches Ok(x) ==> negative(x@) == (n < 0),
            r matches Ok(x) ==> magnitude(x@) == if n == 0 {
                0
            } else {
                integer_node(abs_of(n as int), 7)
            },
    {
        if n > 7 || n < -7 {
            return Err(());
        }
        let a: u8 = if n < 0 {
            (-n) as u8
        } else {
            n as u8
        };
        proof {
            lemma_width();
        }
        match node::integer(a as u64, 7) {
            Some(b) => {
                proof {
                    if n != 0 {
                        assert(b != 0) by {
                            vstd::arithmetic::power2::lemma_pow2_strictly_increases(
                                (7 - a) as nat,
                                7,
                            );
                        }
                    }
                }
                Self::from_magnitude(n < 0, b as u8)
            },
            None => Err(()),
        }
    }

    /// The node that the walk toward `|num|/den` settles on at 7 bits, with
    /// the sign of `num`; an error where `den` is 0. The rounding is the
    /// directional one of `UFrac8::from_ratio`, not to the nearest node.
    pub fn from_ratio(num: i64, den: u64) -> (r: Result<Self, ()>)
        ensures
            r is Err <==> den == 0,
            r matches Ok(x) ==> magnitude(x@) == approximation(
                (abs_of(num as int), den as nat),
                7,
            ),
            r matches Ok(x) ==> negative(x@) == (num < 0 && magnitude(x@) != 0),
    {
        if den == 0 {
            return Err(());
        }
        let a: u64 = if num < 0 {
            (-(num as i128)) as u64
        } else {
            num as u64
        };
        proof {
            lemma_width();
        }
        let b = node::encode_ratio(a, den, 7);
        Self::from_magnitude(num < 0, b as u8)
    }
}

/// The absolute value of an integer, as a natural number.
pub open spec fn abs_of(n: int) -> nat {
    if n < 0 {
        (-n) as nat
    } else {
        n as nat
    }
}

impl core::convert::TryFrom<i8> for IFrac8 {
    type Error = ();

    /// The node for a signed integer from -7 to 7; see `from_integer`.
    fn try_from(n: i8) -> (r: Result<Self, ()>) {
        let r = Self::from_integer(n);
        proof {
            match r {
                Ok(x) => {
                    if n == 0 {
                        assert(x == IFrac8(0));
                    } else if n < 0 {
                        assert(x == IFrac8((integer_node(abs_of(n as int), 7) + 128) as u8));
                    } else {
                        assert(x == IFrac8(integer_node(n as nat, 7) as u8));
                    }
                },
                Err(e) => {
                    assert(e == ());
                },
            }
        }
        r
    }
}

impl vstd::std_specs::convert::TryFromSpecImpl<i8> for IFrac8 {
    open spec fn obeys_try_from_spec() -> bool {
        true
    }

    closed spec fn try_from_spec(n: i8) -> Result<Self, ()> {
        if n > 7 || n < -7 {
            Err(())
        } else if n == 0 {
            Ok(IFrac8(0))
        } else if n < 0 {
            Ok(IFrac8((integer_node(abs_of(n as int), 7) + 128) as u8))
        } else {
            Ok(IFrac8(integer_node(n as nat, 7) as u8))
        }
    }
}

} // verus!
