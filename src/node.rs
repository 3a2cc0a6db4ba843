//! The algorithms on patterns of any width from 1 to 64, held in a `u64`.
//! Each fraction type calls them at its own width.
use crate::model::{
    bounds, depth, descend, integer_node, is_leaf, last_turn, left_of, lemma_node_shape,
    lemma_low_zeros_exact, lemma_pow2_strictly_increases_or_eq, lemma_root_marker, lemma_turn_shape,
    lemma_children, lemma_descend_size, lemma_root_fits, low_zeros, marker, mirror, parent_of, ratio_eq,
    ratio_lt, right_of, root, settle, sibling_of, valid, value, Ratio, approximation,
    lemma_low_zeros_parity, lemma_settle_unfold, lemma_value_scale, lemma_value_narrow,
};
use core::cmp::Ordering;
use vstd::arithmetic::div_mod::*;
use vstd::arithmetic::mul::*;
use vstd::arithmetic::power2::*;
use vstd::bits::*;
use vstd::prelude::*;

verus! {

broadcast use lemma_pow2_pos;

/// The position of the marker of a nonzero pattern, read with one
/// `trailing_zeros`.
fn marker_position(bits: u64) -> (t: u32)
    requires
        bits != 0,
    ensures
        t < 64,
        t as nat == low_zeros(bits as nat),
        bits as nat % pow2(t as nat) == 0,
        (bits as nat / pow2(t as nat)) % 2 == 1,
{
    let t = bits.trailing_zeros();
    proof {
        broadcast use vstd::std_specs::bits::axiom_u64_trailing_zeros;

        let s = t as u64;
        assert(s < 64);
        assert((bits >> s) & 1u64 == 1u64 ==> (bits >> s) % 2 == 1) by (bit_vector);
        assert(s < 64 && bits << vstd::prelude::sub(64u64, s) == 0 ==> (bits >> s) << s == bits) by (bit_vector);
        lemma_u64_shr_is_div(bits, s);
        let q = bits >> s;
        lemma_fundamental_div_mod(bits as int, pow2(s as nat) as int);
        assert(q * pow2(s as nat) <= bits) by (nonlinear_arith)
            requires
                q == bits as nat / pow2(s as nat),
                bits == pow2(s as nat) * (bits as nat / pow2(s as nat)) + bits as nat % pow2(
                    s as nat,
                ),
                bits as nat % pow2(s as nat) >= 0,
        ;
        lemma_u64_shl_is_mul(q, s);
        assert(bits == q * pow2(s as nat));
        assert(bits as nat % pow2(s as nat) == 0) by {
            lemma_mod_multiples_basic(q as int, pow2(s as nat) as int);
        }
        lemma_low_zeros_exact(bits as nat, t as nat);
    }
    t
}

/// `2^e` for `e < 64`.
fn power_of_two(e: u32) -> (r: u64)
    requires
        e < 64,
    ensures
        r as nat == pow2(e as nat),
{
    proof {
        lemma_u64_pow2_no_overflow(e as nat);
        lemma_u64_shl_is_mul(1, e as u64);
    }
    1u64 << e
}

/// The fraction that a pattern stands for, walked down from the root bit by
/// bit; no division is made.
pub fn decode(bits: u64, width: u32) -> (r: (u64, u64))
    requires
        valid(bits as nat, width as nat),
    ensures
        (r.0 as nat, r.1 as nat) == value(bits as nat, width as nat),
        r.0 as nat <= root(width as nat),
        r.1 as nat <= root(width as nat),
{
    if bits == 0 {
        return (0, 1);
    }
    let ghost top = root(width as nat);
    let mut lo_n: u64 = 0;
    let mut lo_d: u64 = 1;
    let mut hi_n: u64 = 1;
    let mut hi_d: u64 = 0;
    let mut mid_n: u64 = 1;
    let mut mid_d: u64 = 1;
    let mut rest: u64 = bits;
    let mut half: u64 = power_of_two(width - 1);
    let ghost mut k: nat = width as nat;
    proof {
        lemma_pow2_unfold(width as nat);
    }
    while rest != half
        invariant
            1 <= k <= 64,
            half as nat == pow2((k - 1) as nat),
            0 < rest < 2 * half,
            mid_n == lo_n + hi_n,
            mid_d == lo_d + hi_d,
            descend(
                (lo_n as nat, lo_d as nat),
                (hi_n as nat, hi_d as nat),
                rest as nat,
                k,
            ) == bounds(bits as nat, width as nat),
            mid_n * half <= top,
            mid_d * half <= top,
            top == root(width as nat),
            top <= u64::MAX,
        decreases half,
    {
        proof {
            assert(k >= 2) by {
                if k == 1 {
                    lemma2_to64();
                }
            }
            lemma_pow2_unfold((k - 1) as nat);
            assert(mid_n + mid_n <= mid_n * half) by (nonlinear_arith)
                requires
                    half >= 2,
            ;
            assert(mid_d + mid_d <= mid_d * half) by (nonlinear_arith)
                requires
                    half >= 2,
            ;
        }
        let ghost old_mid_n = mid_n;
        let ghost old_mid_d = mid_d;
        let ghost old_half = half;
        if rest < half {
            hi_n = mid_n;
            hi_d = mid_d;
            mid_n = mid_n + lo_n;
            mid_d = mid_d + lo_d;
        } else {
            lo_n = mid_n;
            lo_d = mid_d;
            mid_n = mid_n + hi_n;
            mid_d = mid_d + hi_d;
            rest = rest - half;
        }
        half = half / 2;
        proof {
            k = (k - 1) as nat;
            assert(mid_n * half <= old_mid_n * old_half) by (nonlinear_arith)
                requires
                    mid_n <= 2 * old_mid_n,
                    old_half == 2 * half,
            ;
            assert(mid_d * half <= old_mid_d * old_half) by (nonlinear_arith)
                requires
                    mid_d <= 2 * old_mid_d,
                    old_half == 2 * half,
            ;
        }
    }
    proof {
        assert(mid_n <= mid_n * half) by (nonlinear_arith)
            requires
                half >= 1,
        ;
        assert(mid_d <= mid_d * half) by (nonlinear_arith)
            requires
                half >= 1,
        ;
    }
    (mid_n, mid_d)
}

/// `2^w - 1` for a width `w`.
fn all_ones(width: u32) -> (r: u64)
    requires
        1 <= width <= 64,
    ensures
        r as nat + 1 == pow2(width as nat),
{
    if width == 64 {
        proof {
            lemma2_to64_rest();
        }
        u64::MAX
    } else {
        power_of_two(width) - 1
    }
}

/// The depth of a node: 0 for zero and the root, `width - 1` for a leaf.
pub fn precision(bits: u64, width: u32) -> (r: u32)
    requires
        valid(bits as nat, width as nat),
    ensures
        r as nat == depth(bits as nat, width as nat),
        r < width,
{
    if bits == 0 {
        0
    } else {
        let t = marker_position(bits);
        proof {
            lemma_node_shape(bits as nat, width as nat);
        }
        width - 1 - t
    }
}

/// The reciprocal: the pattern negated modulo `2^width`; zero stays zero.
pub fn invert(bits: u64, width: u32) -> (r: u64)
    requires
        valid(bits as nat, width as nat),
    ensures
        r as nat == mirror(bits as nat, width as nat),
        valid(r as nat, width as nat),
{
    if bits == 0 {
        0
    } else {
        all_ones(width) - bits + 1
    }
}

/// The node for the integer `n`, or `None` where `n > width`.
pub fn integer(n: u64, width: u32) -> (r: Option<u64>)
    requires
        1 <= width <= 64,
    ensures
        n > width ==> r is None,
        n == 0 ==> r == Some(0u64),
        1 <= n <= width ==> r == Some(integer_node(n as nat, width as nat) as u64),
        r matches Some(b) ==> valid(b as nat, width as nat),
        1 <= n <= width ==> (r matches Some(b) && b as nat == integer_node(n as nat, width as nat)),
{
    if n == 0 {
        Some(0)
    } else if n <= width as u64 {
        let e = width - n as u32;
        let low = power_of_two(e);
        proof {
            lemma_pow2_strictly_increases(e as nat, width as nat);
        }
        Some(all_ones(width) - (low - 1))
    } else {
        None
    }
}

/// The left child, or `None` for zero and for a leaf.
pub fn left_child(bits: u64, width: u32) -> (r: Option<u64>)
    requires
        valid(bits as nat, width as nat),
    ensures
        r == (if bits == 0 || is_leaf(bits as nat) {
            None
        } else {
            Some(left_of(bits as nat) as u64)
        }),
        r matches Some(c) ==> valid(c as nat, width as nat) && c != 0,
        r matches Some(c) ==> c as nat == left_of(bits as nat),
        r matches Some(c) ==> bounds(c as nat, width as nat) == (
            bounds(bits as nat, width as nat).0,
            value(bits as nat, width as nat),
        ),
{
    if bits == 0 || bits % 2 == 1 {
        None
    } else {
        let t = marker_position(bits);
        proof {
            lemma_children(bits as nat, width as nat);
        }
        let h = power_of_two(t - 1);
        Some(bits - h)
    }
}

/// The right child, or `None` for zero and for a leaf.
pub fn right_child(bits: u64, width: u32) -> (r: Option<u64>)
    requires
        valid(bits as nat, width as nat),
    ensures
        r == (if bits == 0 || is_leaf(bits as nat) {
            None
        } else {
            Some(right_of(bits as nat) as u64)
        }),
        r matches Some(c) ==> valid(c as nat, width as nat) && c != 0,
        r matches Some(c) ==> c as nat == right_of(bits as nat),
        r matches Some(c) ==> bounds(c as nat, width as nat) == (
            value(bits as nat, width as nat),
            bounds(bits as nat, width as nat).1,
        ),
{
    if bits == 0 || bits % 2 == 1 {
        None
    } else {
        let t = marker_position(bits);
        proof {
            lemma_children(bits as nat, width as nat);
            lemma_root_fits(width as nat);
        }
        let h = power_of_two(t - 1);
        Some(bits + h)
    }
}

/// Whether the node is below the root; with the marker's position.
fn turn_above_marker(bits: u64, width: u32) -> (r: (u32, bool))
    requires
        valid(bits as nat, width as nat),
        bits != 0,
        bits as nat != root(width as nat),
    ensures
        r.0 as nat == low_zeros(bits as nat),
        r.1 == last_turn(bits as nat),
        r.0 + 1 < width,
        r.1 ==> bits >= 3 * pow2(r.0 as nat),
        !r.1 ==> bits + 2 * pow2(r.0 as nat) < pow2(width as nat),
        !r.1 ==> bits + 2 * pow2(r.0 as nat) <= u64::MAX,
        2 * pow2(r.0 as nat) < pow2(width as nat),
{
    let t = marker_position(bits);
    proof {
        lemma_turn_shape(bits as nat, width as nat);
    }
    let m2 = power_of_two(t + 1);
    proof {
        lemma_pow2_unfold((t + 1) as nat);
    }
    (t, (bits / m2) % 2 == 1)
}

/// `bits` is the root, told by its marker.
fn is_root(bits: u64, width: u32) -> (r: bool)
    requires
        valid(bits as nat, width as nat),
        bits != 0,
    ensures
        r == (bits as nat == root(width as nat)),
{
    let t = marker_position(bits);
    proof {
        lemma_root_marker(bits as nat, width as nat);
    }
    t == width - 1
}

/// The parent, or `None` for zero and for the root.
pub fn parent(bits: u64, width: u32) -> (r: Option<u64>)
    requires
        valid(bits as nat, width as nat),
    ensures
        r == (if bits == 0 || bits as nat == root(width as nat) {
            None
        } else {
            Some(parent_of(bits as nat) as u64)
        }),
        r matches Some(c) ==> valid(c as nat, width as nat),
        r matches Some(c) ==> c as nat == parent_of(bits as nat),
{
    if bits == 0 || is_root(bits, width) {
        None
    } else {
        let (t, turn) = turn_above_marker(bits, width);
        let m = power_of_two(t);
        if turn {
            Some(bits - m)
        } else {
            Some(bits + m)
        }
    }
}

/// The other child of the parent, for a node that is neither zero nor the
/// root.
pub fn sibling(bits: u64, width: u32) -> (r: u64)
    requires
        valid(bits as nat, width as nat),
        bits != 0,
        bits as nat != root(width as nat),
    ensures
        r as nat == sibling_of(bits as nat),
        valid(r as nat, width as nat),
{
    let (t, turn) = turn_above_marker(bits, width);
    let m = power_of_two(t);
    if turn {
        bits - 2 * m
    } else {
        bits + 2 * m
    }
}

/// Both children, or `None` for zero and for a leaf.
pub fn children(bits: u64, width: u32) -> (r: Option<(u64, u64)>)
    requires
        valid(bits as nat, width as nat),
    ensures
        r == (if bits == 0 || is_leaf(bits as nat) {
            None
        } else {
            Some((left_of(bits as nat) as u64, right_of(bits as nat) as u64))
        }),
        r matches Some(c) ==> valid(c.0 as nat, width as nat) && valid(c.1 as nat, width as nat),
        r matches Some(c) ==> c.0 as nat == left_of(bits as nat) && c.1 as nat == right_of(
            bits as nat,
        ),
{
    match (left_child(bits, width), right_child(bits, width)) {
        (Some(l), Some(r)) => Some((l, r)),
        _ => None,
    }
}

/// A walk down the tree toward a target fraction, steered by how the
/// fraction of the current node compares with the target. Whoever holds the
/// target makes each comparison; the walk makes every decision.
pub struct Approximation {
    width: u32,
    lo_n: u64,
    lo_d: u64,
    hi_n: u64,
    hi_d: u64,
    node: u64,
    below: u64,
    above: u64,
}

impl Approximation {
    /// The width of the patterns the walk produces.
    pub closed spec fn width(self) -> nat {
        self.width as nat
    }

    /// The node the walk stands on.
    pub closed spec fn node(self) -> nat {
        self.node as nat
    }

    /// The candidate noted below the target.
    pub closed spec fn below(self) -> nat {
        self.below as nat
    }

    /// The candidate noted above the target.
    pub closed spec fn above(self) -> nat {
        self.above as nat
    }

    /// The walk stands on a nonzero node whose interval it holds, its
    /// candidates are patterns of its width, and the sizes fit.
    pub closed spec fn wf(self) -> bool {
        &&& valid(self.node as nat, self.width as nat)
        &&& valid(self.below as nat, self.width as nat)
        &&& valid(self.above as nat, self.width as nat)
        &&& self.node != 0
        &&& bounds(self.node as nat, self.width as nat) == (
            (self.lo_n as nat, self.lo_d as nat),
            (self.hi_n as nat, self.hi_d as nat),
        )
        &&& self.lo_n + self.hi_n <= root(self.width as nat)
        &&& self.lo_d + self.hi_d <= root(self.width as nat)
    }

    /// A walk that starts at the root, with the root as both candidates.
    pub fn new(width: u32) -> (r: Self)
        requires
            1 <= width <= 64,
        ensures
            r.wf(),
            r.width() == width as nat,
            r.node() == root(width as nat),
            r.below() == root(width as nat),
            r.above() == root(width as nat),
    {
        let top = power_of_two(width - 1);
        proof {
            lemma_pow2_unfold(width as nat);
            lemma2_to64();
            lemma_pow2_strictly_increases_or_eq((width - 1) as nat, 63);
            if width > 1 {
                lemma_pow2_strictly_increases(0, (width - 1) as nat);
            }
        }
        Approximation {
            width,
            lo_n: 0,
            lo_d: 1,
            hi_n: 1,
            hi_d: 0,
            node: top,
            below: top,
            above: top,
        }
    }

    /// The fraction of the current node, to be compared with the target.
    pub fn candidate(&self) -> (r: (u64, u64))
        requires
            self.wf(),
        ensures
            (r.0 as nat, r.1 as nat) == value(self.node(), self.width()),
    {
        proof {
            lemma_root_fits(self.width as nat);
        }
        (self.lo_n + self.hi_n, self.lo_d + self.hi_d)
    }

    /// One turn from a node that is not a leaf: left where the candidate
    /// was too large, else right; the left child is noted on the side missed.
    #[verifier::rlimit(40)]
    fn step(&mut self, order: Ordering)
        requires
            old(self).wf(),
            !is_leaf(old(self).node()),
        ensures
            final(self).wf(),
            final(self).width() == old(self).width(),
            final(self).node() == if order == Ordering::Greater {
                left_of(old(self).node())
            } else {
                right_of(old(self).node())
            },
            final(self).above() == if order == Ordering::Greater {
                left_of(old(self).node())
            } else {
                old(self).above()
            },
            final(self).below() == if order == Ordering::Greater {
                old(self).below()
            } else {
                left_of(old(self).node())
            },
    {
        let ghost w = self.width as nat;
        let ghost b = self.node as nat;
        let left = match left_child(self.node, self.width) {
            Some(c) => c,
            None => self.node,
        };
        let right = match right_child(self.node, self.width) {
            Some(c) => c,
            None => self.node,
        };
        proof {
            lemma_children(b, w);
            lemma_root_fits(w);
            assert(1 * pow2((w - 1) as nat) == root(w));
            lemma_descend_size((0, 1), (1, 0), left as nat, w, root(w));
            lemma_descend_size((0, 1), (1, 0), right as nat, w, root(w));
        }
        match order {
            Ordering::Greater => {
                self.hi_n = self.lo_n + self.hi_n;
                self.hi_d = self.lo_d + self.hi_d;
                self.node = left;
                self.above = left;
            },
            _ => {
                self.lo_n = self.lo_n + self.hi_n;
                self.lo_d = self.lo_d + self.hi_d;
                self.node = right;
                self.below = left;
            },
        }
    }

    /// One step, given how the candidate compares with the target
    /// (`Greater`: the candidate is larger). Returns the node settled on, or
    /// `None` where the walk goes on.
    pub fn advance(&mut self, order: Ordering) -> (r: Option<u64>)
        requires
            old(self).wf(),
        ensures
            final(self).wf(),
            final(self).width() == old(self).width(),
            r matches Some(b) ==> valid(b as nat, old(self).width()),
            order == Ordering::Equal ==> r == Some(old(self).node() as u64),
            order != Ordering::Equal && is_leaf(old(self).node()) ==> r == Some(
                (if order == Ordering::Greater {
                    old(self).above()
                } else {
                    old(self).below()
                }) as u64,
            ),
            order != Ordering::Equal && !is_leaf(old(self).node()) ==> {
                &&& r is None
                &&& final(self).node() == if order == Ordering::Greater {
                    left_of(old(self).node())
                } else {
                    right_of(old(self).node())
                }
                &&& final(self).above() == if order == Ordering::Greater {
                    left_of(old(self).node())
                } else {
                    old(self).above()
                }
                &&& final(self).below() == if order == Ordering::Greater {
                    old(self).below()
                } else {
                    left_of(old(self).node())
                }
            },
    {
        proof {
            lemma_root_fits(self.width as nat);
        }
        match order {
            Ordering::Equal => Some(self.node),
            _ => {
                if self.node % 2 == 1 {
                    match order {
                        Ordering::Greater => Some(self.above),
                        _ => Some(self.below),
                    }
                } else {
                    self.step(order);
                    None
                }
            },
        }
    }
}

/// How the fraction `n/d` compares with `num/den`, exactly.
fn compare(n: u64, d: u64, num: u64, den: u64) -> (r: Ordering)
    ensures
        r == Ordering::Equal <==> ratio_eq((n as nat, d as nat), (num as nat, den as nat)),
        r == Ordering::Greater <==> ratio_lt((num as nat, den as nat), (n as nat, d as nat)),
        r == Ordering::Less <==> ratio_lt((n as nat, d as nat), (num as nat, den as nat)),
{
    proof {
        assert(n * den <= u64::MAX * u64::MAX) by (nonlinear_arith)
            requires
                n <= u64::MAX,
                den <= u64::MAX,
        ;
        assert(num * d <= u64::MAX * u64::MAX) by (nonlinear_arith)
            requires
                num <= u64::MAX,
                d <= u64::MAX,
        ;
    }
    let a = n as u128 * den as u128;
    let b = num as u128 * d as u128;
    if a > b {
        Ordering::Greater
    } else if a < b {
        Ordering::Less
    } else {
        Ordering::Equal
    }
}

/// One comparison and one step of the walk toward `num/den`.
fn settle_step(walk: &mut Approximation, num: u64, den: u64) -> (r: Option<u64>)
    requires
        old(walk).wf(),
    ensures
        final(walk).wf(),
        final(walk).width() == old(walk).width(),
        r matches Some(b) ==> valid(b as nat, old(walk).width()),
        r matches Some(b) ==> b as nat == settle(
            (num as nat, den as nat),
            old(walk).node(),
            old(walk).below(),
            old(walk).above(),
            low_zeros(old(walk).node()),
            old(walk).width(),
        ),
        r is None ==> low_zeros(final(walk).node()) < low_zeros(old(walk).node()),
        r is None ==> settle(
            (num as nat, den as nat),
            old(walk).node(),
            old(walk).below(),
            old(walk).above(),
            low_zeros(old(walk).node()),
            old(walk).width(),
        ) == settle(
            (num as nat, den as nat),
            final(walk).node(),
            final(walk).below(),
            final(walk).above(),
            low_zeros(final(walk).node()),
            old(walk).width(),
        ),
{
    let (n, d) = walk.candidate();
    let order = compare(n, d, num, den);
    let ghost node = walk.node();
    let ghost w = walk.width();
    proof {
        lemma_low_zeros_parity(node);
        if !is_leaf(node) {
            lemma_children(node, w);
        }
        lemma_settle_unfold((num as nat, den as nat), node, walk.below(), walk.above(), w);
    }
    walk.advance(order)
}

/// The node that approximates `num/den` at the given width, found by the
/// walk of `Approximation` with exact comparisons.
pub fn encode_ratio(num: u64, den: u64, width: u32) -> (r: u64)
    requires
        den > 0,
        1 <= width <= 64,
    ensures
        r as nat == approximation((num as nat, den as nat), width as nat),
        valid(r as nat, width as nat),
{
    if num == 0 {
        proof {
            lemma_root_fits(width as nat);
        }
        return 0;
    }
    let ghost target: Ratio = (num as nat, den as nat);
    let ghost w = width as nat;
    let mut walk = Approximation::new(width);
    proof {
        lemma_root_fits(w);
        lemma_pow2_unfold(w);
        lemma_root_marker(root(w), w);
    }
    loop
        invariant
            walk.wf(),
            walk.width() == w,
            w == width,
            num > 0,
            target == (num as nat, den as nat),
            approximation(target, w) == settle(
                target,
                walk.node(),
                walk.below(),
                walk.above(),
                low_zeros(walk.node()),
                w,
            ),
        decreases low_zeros(walk.node()),
    {
        let step = settle_step(&mut walk, num, den);
        match step {
            Some(b) => {
                return b;
            },
            None => {},
        }
    }
}

/// The same node in a pattern `shift` bits wider: the bits moved up.
pub fn widen(bits: u64, width: u32, shift: u32) -> (r: u64)
    requires
        valid(bits as nat, width as nat),
        width + shift <= 64,
    ensures
        r as nat == bits as nat * pow2(shift as nat),
        valid(r as nat, (width + shift) as nat),
        value(r as nat, (width + shift) as nat) == value(bits as nat, width as nat),
{
    proof {
        lemma_value_scale(bits as nat, width as nat, shift as nat);
        lemma_root_fits((width + shift) as nat);
    }
    let p = power_of_two(shift);
    bits * p
}

/// The same node in a pattern `shift` bits narrower, or `None` where its
/// depth does not fit there (a set bit would be lost).
pub fn narrow(bits: u64, width: u32, shift: u32) -> (r: Option<u64>)
    requires
        valid(bits as nat, width as nat),
        shift < width,
    ensures
        r is None <==> bits as nat % pow2(shift as nat) != 0,
        r matches Some(b) ==> {
            &&& b as nat == bits as nat / pow2(shift as nat)
            &&& valid(b as nat, (width - shift) as nat)
            &&& value(b as nat, (width - shift) as nat) == value(bits as nat, width as nat)
        },
{
    let p = power_of_two(shift);
    if bits % p != 0 {
        None
    } else {
        let b = bits / p;
        proof {
            lemma_value_narrow(bits as nat, (width - shift) as nat, shift as nat);
        }
        Some(b)
    }
}

/// The node kept in a pattern `shift` bits narrower: the node itself where
/// its depth fits, else its ancestor at the narrower width's greatest depth.
pub fn truncate(bits: u64, width: u32, shift: u32) -> (r: u64)
    requires
        valid(bits as nat, width as nat),
        shift < width,
    ensures
        r as nat == if bits as nat % pow2(shift as nat) == 0 {
            bits as nat / pow2(shift as nat)
        } else {
            2 * (bits as nat / pow2(shift as nat) / 2) + 1
        },
        valid(r as nat, (width - shift) as nat),
{
    let p = power_of_two(shift);
    let q = bits / p;
    proof {
        let w2 = (width - shift) as nat;
        lemma_fundamental_div_mod(bits as int, p as int);
        lemma_pow2_adds(w2, shift as nat);
        assert(q < pow2(w2)) by (nonlinear_arith)
            requires
                bits == p * q + bits % p,
                bits % p >= 0,
                bits < pow2(w2) * p,
                p > 0,
        ;
        lemma_pow2_unfold(w2);
    }
    if bits % p == 0 || q % 2 == 1 {
        q
    } else {
        q + 1
    }
}

} // verus!
