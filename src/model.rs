//! The model the contracts speak of: a pattern of `w` bits as a node of the
//! Stern–Brocot tree, the fraction it stands for, its marker and depth, and
//! the facts about them that the code and the laws rest on.
use vstd::arithmetic::div_mod::*;
use vstd::arithmetic::mul::*;
use vstd::arithmetic::power2::*;
use vstd::prelude::*;

verus! {

broadcast use lemma_pow2_pos;

/// A fraction as a pair (numerator, denominator); `(1, 0)` stands for the
/// upper end of the tree.
pub type Ratio = (nat, nat);

/// The mediant of two fractions: numerators and denominators added.
pub open spec fn mediant(a: Ratio, b: Ratio) -> Ratio {
    (a.0 + b.0, a.1 + b.1)
}

/// The bounds reached by following the pattern `b` of `k` bits down from the
/// interval `(lo, hi)`: at each bit above the marker a 0 keeps the lower half
/// and a 1 the upper half; the walk stops at the marker.
pub open spec fn descend(lo: Ratio, hi: Ratio, b: nat, k: nat) -> (Ratio, Ratio)
    decreases k,
{
    if k == 0 || b == pow2((k - 1) as nat) {
        (lo, hi)
    } else if b < pow2((k - 1) as nat) {
        descend(lo, mediant(lo, hi), b, (k - 1) as nat)
    } else {
        descend(mediant(lo, hi), hi, (b - pow2((k - 1) as nat)) as nat, (k - 1) as nat)
    }
}

/// The interval of the tree whose mediant is the node `b` of width `w`.
pub open spec fn bounds(b: nat, w: nat) -> (Ratio, Ratio) {
    descend((0, 1), (1, 0), b, w)
}

/// The fraction that the pattern `b` of width `w` stands for.
pub open spec fn value(b: nat, w: nat) -> Ratio {
    if b == 0 {
        (0, 1)
    } else {
        mediant(bounds(b, w).0, bounds(b, w).1)
    }
}

/// `a < b` as fractions, by cross-multiplication.
pub open spec fn ratio_lt(a: Ratio, b: Ratio) -> bool {
    a.0 * b.1 < b.0 * a.1
}

/// The number of zero bits below the lowest set bit of `b` (0 for 0).
pub open spec fn low_zeros(b: nat) -> nat
    decreases b,
{
    if b == 0 || b % 2 == 1 {
        0
    } else {
        1 + low_zeros(b / 2)
    }
}

/// The marker of a nonzero pattern: its lowest set bit, as a number.
pub open spec fn marker(b: nat) -> nat {
    pow2(low_zeros(b))
}

/// The depth of the node `b` of width `w`: how many turns lead to it from the
/// root. Zero and the root both have depth 0.
pub open spec fn depth(b: nat, w: nat) -> nat {
    if b == 0 {
        0
    } else {
        (w - 1 - low_zeros(b)) as nat
    }
}

/// A pattern of width `w` as the library handles it.
pub open spec fn valid(b: nat, w: nat) -> bool {
    1 <= w <= 64 && b < pow2(w)
}

/// The root of the tree at width `w`: the marker alone, in the top bit.
pub open spec fn root(w: nat) -> nat {
    pow2((w - 1) as nat)
}

/// The node for the integer `n` (`1 <= n <= w`): `n - 1` right turns from
/// the root, that is the top `n` bits set.
pub open spec fn integer_node(n: nat, w: nat) -> nat {
    (pow2(w) - pow2((w - n) as nat)) as nat
}

/// The reciprocal node: every turn above the marker mirrored, which is the
/// pattern's negation modulo `2^w`.
pub open spec fn mirror(b: nat, w: nat) -> nat {
    if b == 0 {
        0
    } else {
        (pow2(w) - b) as nat
    }
}

/// `b` is a leaf: a nonzero node at the greatest depth, `w - 1`.
pub open spec fn is_leaf(b: nat) -> bool {
    b % 2 == 1
}

/// The left child of a nonzero node that is not a leaf: the marker moves one
/// bit down and the turn written in its old place is 0.
pub open spec fn left_of(b: nat) -> nat {
    (b - marker(b) / 2) as nat
}

/// The right child: as the left one, with the turn 1.
pub open spec fn right_of(b: nat) -> nat {
    b + marker(b) / 2
}

/// The last turn taken to reach a node below the root: the bit just above
/// its marker.
pub open spec fn last_turn(b: nat) -> bool {
    (b / (2 * marker(b))) % 2 == 1
}

/// The parent of a node below the root: the last turn is dropped and the
/// marker moves one bit up.
pub open spec fn parent_of(b: nat) -> nat {
    if last_turn(b) {
        (b - marker(b)) as nat
    } else {
        b + marker(b)
    }
}

/// The other child of the parent of a node below the root: its last turn
/// flipped.
pub open spec fn sibling_of(b: nat) -> nat {
    if last_turn(b) {
        (b - 2 * marker(b)) as nat
    } else {
        b + 2 * marker(b)
    }
}

/// A nonzero pattern with `t` zero bits below a set bit has `low_zeros` `t`.
pub proof fn lemma_low_zeros_exact(b: nat, t: nat)
    requires
        b % pow2(t) == 0,
        (b / pow2(t)) % 2 == 1,
    ensures
        low_zeros(b) == t,
    decreases t,
{
    if t == 0 {
        lemma2_to64();
        assert(b / 1 == b);
    } else {
        let p = pow2((t - 1) as nat);
        lemma_pow2_unfold(t);
        assert(pow2(t) == 2 * p);
        let q = b / pow2(t);
        lemma_fundamental_div_mod(b as int, pow2(t) as int);
        assert(b == q * (2 * p));
        assert(b == 2 * (q * p)) by (nonlinear_arith)
            requires
                b == q * (2 * p),
        ;
        assert(b % 2 == 0);
        assert(b != 0);
        assert(b / 2 == q * p);
        lemma_mod_multiples_basic(q as int, p as int);
        lemma_div_multiples_vanish(q as int, p as int);
        assert((q * p) / p == q) by {
            lemma_mul_is_commutative(q as int, p as int);
        }
        lemma_low_zeros_exact(b / 2, (t - 1) as nat);
    }
}

/// A nonzero pattern is an odd number times its marker, and fits above it.
pub proof fn lemma_node_shape(b: nat, w: nat)
    requires
        valid(b, w),
        b != 0,
    ensures
        low_zeros(b) < w,
        b == (b / marker(b)) * marker(b),
        (b / marker(b)) % 2 == 1,
        b / marker(b) < pow2((w - low_zeros(b)) as nat),
        pow2(w) == pow2((w - low_zeros(b)) as nat) * marker(b),
{
    let t = lemma_marker_divides(b);
    let m = marker(b);
    let q = b / m;
    lemma_fundamental_div_mod(b as int, m as int);
    assert(b == q * m);
    if t >= w {
        lemma_pow2_strictly_increases_or_eq(w, t);
        assert(q * m >= m) by (nonlinear_arith)
            requires
                q >= 1,
        ;
    }
    lemma_pow2_adds((w - t) as nat, t);
    assert(q < pow2((w - t) as nat)) by (nonlinear_arith)
        requires
            q * m < pow2((w - t) as nat) * m,
            m > 0,
    ;
}

/// The marker of a nonzero pattern divides it, and the quotient is odd.
pub proof fn lemma_marker_divides(b: nat) -> (t: nat)
    requires
        b != 0,
    ensures
        t == low_zeros(b),
        b % pow2(t) == 0,
        (b / pow2(t)) % 2 == 1,
    decreases b,
{
    if b % 2 == 1 {
        lemma2_to64();
        0
    } else {
        let s = lemma_marker_divides(b / 2);
        let p = pow2(s);
        lemma_pow2_unfold(s + 1);
        assert(pow2(s + 1) == 2 * p);
        let q = (b / 2) / p;
        lemma_fundamental_div_mod((b / 2) as int, p as int);
        assert(b == 2 * (q * p));
        assert(b == q * (2 * p)) by (nonlinear_arith)
            requires
                b == 2 * (q * p),
        ;
        lemma_mod_multiples_basic(q as int, (2 * p) as int);
        lemma_div_multiples_vanish(q as int, (2 * p) as int);
        lemma_mul_is_commutative(q as int, (2 * p) as int);
        s + 1
    }
}

pub proof fn lemma_pow2_strictly_increases_or_eq(a: nat, b: nat)
    requires
        a <= b,
    ensures
        pow2(a) <= pow2(b),
{
    if a < b {
        lemma_pow2_strictly_increases(a, b);
    }
}

/// Where the marker of a node sits: at the top bit exactly for the root.
pub proof fn lemma_root_marker(b: nat, w: nat)
    requires
        valid(b, w),
        b != 0,
    ensures
        low_zeros(b) == w - 1 <==> b == root(w),
{
    lemma_node_shape(b, w);
    let t = low_zeros(b);
    let q = b / marker(b);
    if t == w - 1 {
        assert(pow2(1) == 2) by {
            lemma2_to64();
        }
        assert(q == 1);
    }
    if b == root(w) && t < w - 1 {
        lemma_pow2_adds((w - 1 - t) as nat, t);
        let e = pow2((w - 1 - t) as nat);
        lemma_pow2_unfold((w - 1 - t) as nat);
        assert(e == 2 * pow2((w - 2 - t) as nat));
        assert(b == e * marker(b));
        lemma_div_multiples_vanish(e as int, marker(b) as int);
        lemma_mul_is_commutative(e as int, marker(b) as int);
        assert(q == e);
    }
}

/// Below the root, the turn above the marker and the room left above it.
pub proof fn lemma_turn_shape(b: nat, w: nat)
    requires
        valid(b, w),
        b != 0,
        b != root(w),
    ensures
        low_zeros(b) + 1 < w,
        last_turn(b) ==> b >= 3 * marker(b),
        !last_turn(b) ==> b + 2 * marker(b) < pow2(w),
        !last_turn(b) ==> b + 2 * marker(b) <= u64::MAX,
        2 * marker(b) < pow2(w),
{
    lemma_node_shape(b, w);
    lemma_root_marker(b, w);
    let t = low_zeros(b);
    let m = marker(b);
    let q = b / m;
    let top = pow2((w - t) as nat);
    assert(top == 4 * pow2((w - t - 2) as nat)) by {
        lemma_pow2_unfold((w - t) as nat);
        lemma_pow2_unfold((w - t - 1) as nat);
    }
    lemma_div_denominator(b as int, m as int, 2);
    lemma_mul_is_commutative(2, m as int);
    assert(b / (2 * m) == q / 2);
    if last_turn(b) {
        assert(q >= 3);
        assert(b >= 3 * m) by (nonlinear_arith)
            requires
                b == q * m,
                q >= 3,
        ;
    } else {
        assert(q + 2 < top);
        assert(b + 2 * m < pow2(w)) by (nonlinear_arith)
            requires
                b == q * m,
                q + 2 < top,
                pow2(w) == top * m,
                m > 0,
        ;
    }
    assert(2 * m < pow2(w)) by (nonlinear_arith)
        requires
            top >= 4,
            pow2(w) == top * m,
            m > 0,
    ;
    lemma2_to64();
    lemma_pow2_strictly_increases_or_eq(w, 64);
}


/// A power of two above `2^t` is a multiple of `2^(t + 1)`.
proof fn lemma_pow2_multiple(t: nat, e: nat)
    requires
        t < e,
    ensures
        pow2(e) == pow2((e - t) as nat) * pow2(t),
        pow2(e) % (2 * pow2(t)) == 0,
        pow2(e) >= 2 * pow2(t),
{
    lemma_pow2_adds((e - t) as nat, t);
    let c = pow2((e - t - 1) as nat);
    lemma_pow2_unfold((e - t) as nat);
    assert(pow2((e - t) as nat) == 2 * c);
    assert(pow2(e) == c * (2 * pow2(t))) by (nonlinear_arith)
        requires
            pow2(e) == pow2((e - t) as nat) * pow2(t),
            pow2((e - t) as nat) == 2 * c,
    ;
    lemma_mod_multiples_basic(c as int, (2 * pow2(t)) as int);
    assert(c * (2 * pow2(t)) >= 2 * pow2(t)) by (nonlinear_arith)
        requires
            c >= 1,
    ;
}

/// Taking a multiple of twice the marker away from a larger pattern keeps
/// the marker.
proof fn lemma_marker_after_sub(b: nat, p: nat)
    requires
        b != 0,
        p < b,
        p % (2 * marker(b)) == 0,
    ensures
        low_zeros((b - p) as nat) == low_zeros(b),
{
    let t = lemma_marker_divides(b);
    let m = pow2(t);
    let q = b / m;
    lemma_fundamental_div_mod(b as int, m as int);
    lemma_fundamental_div_mod(p as int, (2 * m) as int);
    let c = p / (2 * m);
    assert(b == q * m);
    assert(p == (2 * c) * m) by (nonlinear_arith)
        requires
            p == (2 * m) * c,
    ;
    let r = (b - p) as nat;
    assert(r == ((q - 2 * c) as nat) * m) by (nonlinear_arith)
        requires
            b == q * m,
            p == (2 * c) * m,
            p < b,
            m > 0,
            r == b - p,
    ;
    assert(q > 2 * c) by (nonlinear_arith)
        requires
            b == q * m,
            p == (2 * c) * m,
            p < b,
            m > 0,
    ;
    let q2 = (q - 2 * c) as nat;
    lemma_mod_multiples_basic(q2 as int, m as int);
    lemma_div_multiples_vanish(q2 as int, m as int);
    lemma_mul_is_commutative(q2 as int, m as int);
    lemma_low_zeros_exact(r, t);
}

/// A pattern that is neither zero nor odd has a marker of at least 2.
proof fn lemma_even_shape(b: nat) -> (t: nat)
    requires
        b != 0,
        b % 2 == 0,
    ensures
        t == low_zeros(b),
        t >= 1,
        marker(b) == 2 * pow2((t - 1) as nat),
        b == (b / marker(b)) * marker(b),
        (b / marker(b)) % 2 == 1,
        b >= marker(b),
{
    let t = lemma_marker_divides(b);
    let m = pow2(t);
    let q = b / m;
    lemma_fundamental_div_mod(b as int, m as int);
    lemma_pow2_unfold(t);
    assert(b >= m) by (nonlinear_arith)
        requires
            b == q * m,
            q % 2 == 1,
    ;
    t
}

/// The children of the node in the top bit of `k`.
proof fn lemma_descend_children_top(lo: Ratio, hi: Ratio, k: nat)
    requires
        k >= 2,
    ensures
        low_zeros(pow2((k - 1) as nat)) == k - 1,
        descend(lo, hi, left_of(pow2((k - 1) as nat)), k) == (lo, mediant(lo, hi)),
        descend(lo, hi, right_of(pow2((k - 1) as nat)), k) == (mediant(lo, hi), hi),
{
    let h = pow2((k - 1) as nat);
    lemma_div_by_self(h as int);
    lemma_mod_self_0(h as int);
    lemma_low_zeros_exact(h, (k - 1) as nat);
    lemma_pow2_unfold((k - 1) as nat);
    lemma_pow2_unfold(k);
    let g = pow2((k - 2) as nat);
    assert(h == 2 * g);
    assert(left_of(h) == g);
    assert(right_of(h) == h + g);
    assert(descend(lo, hi, g, k) == descend(lo, mediant(lo, hi), g, (k - 1) as nat));
    assert(descend(lo, hi, h + g, k) == descend(mediant(lo, hi), hi, g, (k - 1) as nat));
}

/// The children of a node split its interval at the node's fraction: the
/// left child has the lower half, the right child the upper half.
pub proof fn lemma_descend_children(lo: Ratio, hi: Ratio, b: nat, k: nat)
    requires
        b != 0,
        b < pow2(k),
        b % 2 == 0,
    ensures
        descend(lo, hi, left_of(b), k) == (
            descend(lo, hi, b, k).0,
            mediant(descend(lo, hi, b, k).0, descend(lo, hi, b, k).1),
        ),
        descend(lo, hi, right_of(b), k) == (
            mediant(descend(lo, hi, b, k).0, descend(lo, hi, b, k).1),
            descend(lo, hi, b, k).1,
        ),
    decreases k,
{
    let t = lemma_even_shape(b);
    let m = marker(b);
    let q = b / m;
    assert(k >= 1) by {
        if k == 0 {
            lemma2_to64();
        }
    }
    let h = pow2((k - 1) as nat);
    lemma_pow2_unfold(k);
    let mid = mediant(lo, hi);
    if b == h {
        assert(k >= 2) by {
            if k == 1 {
                lemma2_to64();
            }
        }
        lemma_descend_children_top(lo, hi, k);
    } else {
        assert(t < k - 1) by {
            if t == k - 1 {
                assert(q == 1) by (nonlinear_arith)
                    requires
                        b == q * m,
                        b < 2 * m,
                        q % 2 == 1,
                ;
            } else if t > k - 1 {
                lemma_pow2_strictly_increases_or_eq(k, t);
            }
        }
        lemma_pow2_multiple(t, (k - 1) as nat);
        let c = pow2((k - 1 - t) as nat);
        assert(h == c * m);
        if b < h {
            assert(b + m <= h) by (nonlinear_arith)
                requires
                    b == q * m,
                    h == c * m,
                    b < h,
                    m > 0,
            ;
            assert(descend(lo, hi, b, k) == descend(lo, mid, b, (k - 1) as nat));
            assert(descend(lo, hi, left_of(b), k) == descend(lo, mid, left_of(b), (k - 1) as nat));
            assert(descend(lo, hi, right_of(b), k) == descend(
                lo,
                mid,
                right_of(b),
                (k - 1) as nat,
            ));
            lemma_descend_children(lo, mid, b, (k - 1) as nat);
        } else {
            lemma_marker_after_sub(b, h);
            let b2 = (b - h) as nat;
            let t2 = lemma_even_shape_sub(b, h, t);
            assert(left_of(b) - h == left_of(b2));
            assert(right_of(b) - h == right_of(b2));
            assert(descend(lo, hi, b, k) == descend(mid, hi, b2, (k - 1) as nat));
            assert(descend(lo, hi, left_of(b), k) == descend(
                mid,
                hi,
                left_of(b2),
                (k - 1) as nat,
            ));
            assert(descend(lo, hi, right_of(b), k) == descend(
                mid,
                hi,
                right_of(b2),
                (k - 1) as nat,
            ));
            lemma_descend_children(mid, hi, b2, (k - 1) as nat);
        }
    }
}

/// What is left of an even pattern after a multiple of twice its marker is
/// taken away is even, nonzero, and has the same marker.
proof fn lemma_even_shape_sub(b: nat, p: nat, t: nat) -> (t2: nat)
    requires
        b != 0,
        p < b,
        t == low_zeros(b),
        t >= 1,
        p % (2 * marker(b)) == 0,
    ensures
        t2 == t,
        low_zeros((b - p) as nat) == t,
        ((b - p) as nat) % 2 == 0,
        b - p >= marker(b),
{
    lemma_marker_after_sub(b, p);
    let r = (b - p) as nat;
    let t2 = lemma_marker_divides(r);
    let m = pow2(t);
    let qq = r / m;
    lemma_fundamental_div_mod(r as int, m as int);
    lemma_pow2_unfold(t);
    let g = pow2((t - 1) as nat);
    assert(r == 2 * (qq * g)) by (nonlinear_arith)
        requires
            r == m * qq + 0,
            m == 2 * g,
    ;
    assert(r >= m) by (nonlinear_arith)
        requires
            r == m * qq,
            qq % 2 == 1,
    ;
    t2
}

/// An interval `lo < hi` whose lower end has a positive denominator, as every
/// interval met on the way down from `(0/1, 1/0)` has.
pub open spec fn proper(lo: Ratio, hi: Ratio) -> bool {
    lo.1 >= 1 && ratio_lt(lo, hi)
}

/// The mediant lies strictly inside the interval, and both halves are proper.
proof fn lemma_mediant_inside(lo: Ratio, hi: Ratio)
    requires
        proper(lo, hi),
    ensures
        ratio_lt(lo, mediant(lo, hi)),
        ratio_lt(mediant(lo, hi), hi),
        proper(lo, mediant(lo, hi)),
        proper(mediant(lo, hi), hi),
        mediant(lo, hi).1 >= 1,
{
    let m = mediant(lo, hi);
    assert(lo.0 * m.1 < m.0 * lo.1) by (nonlinear_arith)
        requires
            lo.0 * hi.1 < hi.0 * lo.1,
            m.0 == lo.0 + hi.0,
            m.1 == lo.1 + hi.1,
    ;
    assert(m.0 * hi.1 < hi.0 * m.1) by (nonlinear_arith)
        requires
            lo.0 * hi.1 < hi.0 * lo.1,
            m.0 == lo.0 + hi.0,
            m.1 == lo.1 + hi.1,
    ;
}

/// `a < m < c` gives `a < c` where `m` has a positive denominator.
proof fn lemma_ratio_lt_trans(a: Ratio, m: Ratio, c: Ratio)
    requires
        ratio_lt(a, m),
        ratio_lt(m, c),
        m.1 >= 1,
    ensures
        ratio_lt(a, c),
{
    assert(a.1 > 0) by (nonlinear_arith)
        requires
            a.0 * m.1 < m.0 * a.1,
    ;
    if c.1 == 0 {
        assert(c.0 > 0) by (nonlinear_arith)
            requires
                m.0 * c.1 < c.0 * m.1,
                c.1 == 0,
        ;
        assert(a.0 * c.1 < c.0 * a.1) by (nonlinear_arith)
            requires
                c.1 == 0,
                c.0 > 0,
                a.1 > 0,
        ;
    } else {
        assert(a.0 * c.1 * m.1 < c.0 * a.1 * m.1) by (nonlinear_arith)
            requires
                a.0 * m.1 < m.0 * a.1,
                m.0 * c.1 < c.0 * m.1,
                a.1 > 0,
                c.1 > 0,
        ;
        assert(a.0 * c.1 < c.0 * a.1) by (nonlinear_arith)
            requires
                a.0 * c.1 * m.1 < c.0 * a.1 * m.1,
                m.1 > 0,
        ;
    }
}

/// The fraction of a node lies strictly inside the interval it was reached
/// from.
pub proof fn lemma_inside(lo: Ratio, hi: Ratio, b: nat, k: nat)
    requires
        proper(lo, hi),
        0 < b < pow2(k),
    ensures
        proper(descend(lo, hi, b, k).0, descend(lo, hi, b, k).1),
        ratio_lt(lo, mediant(descend(lo, hi, b, k).0, descend(lo, hi, b, k).1)),
        ratio_lt(mediant(descend(lo, hi, b, k).0, descend(lo, hi, b, k).1), hi),
    decreases k,
{
    let m = mediant(lo, hi);
    lemma_mediant_inside(lo, hi);
    assert(k >= 1) by {
        if k == 0 {
            lemma2_to64();
        }
    }
    let h = pow2((k - 1) as nat);
    lemma_pow2_unfold(k);
    if b == h {
    } else if b < h {
        lemma_inside(lo, m, b, (k - 1) as nat);
        let v = mediant(descend(lo, hi, b, k).0, descend(lo, hi, b, k).1);
        lemma_ratio_lt_trans(v, m, hi);
    } else {
        lemma_inside(m, hi, (b - h) as nat, (k - 1) as nat);
        let v = mediant(descend(lo, hi, b, k).0, descend(lo, hi, b, k).1);
        lemma_ratio_lt_trans(lo, m, v);
    }
}

/// Below a proper interval, a smaller pattern has a smaller fraction.
pub proof fn lemma_descend_monotone(lo: Ratio, hi: Ratio, x: nat, y: nat, k: nat)
    requires
        proper(lo, hi),
        0 < x < y,
        y < pow2(k),
    ensures
        ratio_lt(
            mediant(descend(lo, hi, x, k).0, descend(lo, hi, x, k).1),
            mediant(descend(lo, hi, y, k).0, descend(lo, hi, y, k).1),
        ),
    decreases k,
{
    let m = mediant(lo, hi);
    lemma_mediant_inside(lo, hi);
    assert(k >= 1) by {
        if k == 0 {
            lemma2_to64();
        }
    }
    let h = pow2((k - 1) as nat);
    lemma_pow2_unfold(k);
    let vx = mediant(descend(lo, hi, x, k).0, descend(lo, hi, x, k).1);
    let vy = mediant(descend(lo, hi, y, k).0, descend(lo, hi, y, k).1);
    if y < h {
        lemma_descend_monotone(lo, m, x, y, (k - 1) as nat);
    } else if x > h {
        lemma_descend_monotone(m, hi, (x - h) as nat, (y - h) as nat, (k - 1) as nat);
    } else if x == h {
        lemma_inside(m, hi, (y - h) as nat, (k - 1) as nat);
    } else if y == h {
        lemma_inside(lo, m, x, (k - 1) as nat);
    } else {
        lemma_inside(lo, m, x, (k - 1) as nat);
        lemma_inside(m, hi, (y - h) as nat, (k - 1) as nat);
        lemma_ratio_lt_trans(vx, m, vy);
    }
}

/// `a` and `b` are the same fraction, by cross-multiplication.
pub open spec fn ratio_eq(a: Ratio, b: Ratio) -> bool {
    a.0 * b.1 == b.0 * a.1
}

/// The node at which a walk toward `target` settles. The walk starts at
/// `node` with `n` turns left before the leaves and the candidates `below`
/// and `above`. At a node whose fraction equals the target it stops there.
/// Otherwise it turns toward the target, and notes the left child of the
/// node it leaves: as the candidate above the target where the node was too
/// large, below it where the node was too small. At a leaf it stops on the
/// candidate on the side the leaf missed.
pub open spec fn settle(target: Ratio, node: nat, below: nat, above: nat, n: nat, w: nat) -> nat
    decreases n,
{
    let v = value(node, w);
    if ratio_eq(v, target) {
        node
    } else if n == 0 {
        if ratio_lt(target, v) {
            above
        } else {
            below
        }
    } else if ratio_lt(target, v) {
        settle(target, left_of(node), below, left_of(node), (n - 1) as nat, w)
    } else {
        settle(target, right_of(node), left_of(node), above, (n - 1) as nat, w)
    }
}

/// The node that approximates `target` (with a positive denominator) at
/// width `w`: zero for zero, else where the walk from the root settles.
pub open spec fn approximation(target: Ratio, w: nat) -> nat {
    if target.0 == 0 {
        0
    } else {
        settle(target, root(w), root(w), root(w), (w - 1) as nat, w)
    }
}

/// The sizes along a walk: where the mediant of `(lo, hi)` scaled by
/// `2^(k - 1)` stays within `top`, so does every fraction below it.
pub proof fn lemma_descend_size(lo: Ratio, hi: Ratio, b: nat, k: nat, top: nat)
    requires
        1 <= k,
        0 < b < pow2(k),
        (lo.0 + hi.0) * pow2((k - 1) as nat) <= top,
        (lo.1 + hi.1) * pow2((k - 1) as nat) <= top,
    ensures
        descend(lo, hi, b, k).0.0 + descend(lo, hi, b, k).1.0 <= top,
        descend(lo, hi, b, k).0.1 + descend(lo, hi, b, k).1.1 <= top,
    decreases k,
{
    let h = pow2((k - 1) as nat);
    lemma_pow2_unfold(k);
    let m = mediant(lo, hi);
    assert(m.0 <= top && m.1 <= top) by (nonlinear_arith)
        requires
            m.0 * h <= top,
            m.1 * h <= top,
            h >= 1,
    ;
    if b != h {
        assert(k >= 2) by {
            if k == 1 {
                lemma2_to64();
            }
        }
        lemma_pow2_unfold((k - 1) as nat);
        let g = pow2((k - 2) as nat);
        assert(h == 2 * g);
        if b < h {
            assert((lo.0 + m.0) * g <= top && (lo.1 + m.1) * g <= top) by (nonlinear_arith)
                requires
                    m.0 * h <= top,
                    m.1 * h <= top,
                    h == 2 * g,
                    m.0 == lo.0 + hi.0,
                    m.1 == lo.1 + hi.1,
            ;
            lemma_descend_size(lo, m, b, (k - 1) as nat, top);
        } else {
            assert((m.0 + hi.0) * g <= top && (m.1 + hi.1) * g <= top) by (nonlinear_arith)
                requires
                    m.0 * h <= top,
                    m.1 * h <= top,
                    h == 2 * g,
                    m.0 == lo.0 + hi.0,
                    m.1 == lo.1 + hi.1,
            ;
            lemma_descend_size(m, hi, (b - h) as nat, (k - 1) as nat, top);
        }
    }
}

/// The children of a node that is neither zero nor a leaf are nodes of the
/// same width, and split its interval at its fraction.
pub proof fn lemma_children(b: nat, w: nat)
    requires
        valid(b, w),
        b != 0,
        !is_leaf(b),
    ensures
        valid(left_of(b), w),
        valid(right_of(b), w),
        left_of(b) != 0,
        right_of(b) != 0,
        low_zeros(left_of(b)) + 1 == low_zeros(b),
        low_zeros(right_of(b)) + 1 == low_zeros(b),
        low_zeros(b) >= 1,
        marker(b) == 2 * pow2((low_zeros(b) - 1) as nat),
        b >= marker(b),
        bounds(left_of(b), w) == (bounds(b, w).0, value(b, w)),
        bounds(right_of(b), w) == (value(b, w), bounds(b, w).1),
{
    let t = lemma_even_shape(b);
    lemma_node_shape(b, w);
    let m = marker(b);
    let h = pow2((t - 1) as nat);
    let q = b / m;
    let top = pow2((w - t) as nat);
    assert(b + h < pow2(w)) by (nonlinear_arith)
        requires
            b == q * m,
            q < top,
            pow2(w) == top * m,
            m == 2 * h,
            h > 0,
    ;
    lemma_descend_children((0, 1), (1, 0), b, w);
    // the children's markers: an odd multiple of half the marker
    let l = left_of(b);
    let r = right_of(b);
    assert(l == (2 * q - 1) * h && r == (2 * q + 1) * h) by (nonlinear_arith)
        requires
            b == q * m,
            m == 2 * h,
            l == b - h,
            r == b + h,
            q >= 1,
    ;
    lemma_mod_multiples_basic((2 * q - 1) as int, h as int);
    lemma_div_multiples_vanish((2 * q - 1) as int, h as int);
    lemma_mul_is_commutative((2 * q - 1) as int, h as int);
    lemma_low_zeros_exact(l, (t - 1) as nat);
    lemma_mod_multiples_basic((2 * q + 1) as int, h as int);
    lemma_div_multiples_vanish((2 * q + 1) as int, h as int);
    lemma_mul_is_commutative((2 * q + 1) as int, h as int);
    lemma_low_zeros_exact(r, (t - 1) as nat);
}

/// The root fits in 63 bits.
pub proof fn lemma_root_fits(w: nat)
    requires
        1 <= w <= 64,
    ensures
        1 <= root(w) <= 0x8000_0000_0000_0000,
        pow2(w) <= 0x1_0000_0000_0000_0000,
{
    lemma2_to64();
    lemma2_to64_rest();
    lemma_pow2_strictly_increases_or_eq((w - 1) as nat, 63);
    lemma_pow2_strictly_increases_or_eq(w, 64);
}

/// A nonzero pattern is odd exactly when its marker is the lowest bit.
pub proof fn lemma_low_zeros_parity(b: nat)
    requires
        b != 0,
    ensures
        is_leaf(b) <==> low_zeros(b) == 0,
{
}

/// One step of `settle`, from a node with `low_zeros(node)` turns left.
pub proof fn lemma_settle_unfold(target: Ratio, node: nat, below: nat, above: nat, w: nat)
    ensures
        ({
            let lz = low_zeros(node);
            let v = value(node, w);
            settle(target, node, below, above, lz, w) == if ratio_eq(v, target) {
                node
            } else if lz == 0 {
                if ratio_lt(target, v) {
                    above
                } else {
                    below
                }
            } else if ratio_lt(target, v) {
                settle(target, left_of(node), below, left_of(node), (lz - 1) as nat, w)
            } else {
                settle(target, right_of(node), left_of(node), above, (lz - 1) as nat, w)
            }
        }),
{
}

/// Shifting a pattern up by `s` bits, into a pattern `s` bits wider, keeps
/// the walk it describes.
pub proof fn lemma_descend_scale(lo: Ratio, hi: Ratio, b: nat, k: nat, s: nat)
    requires
        0 < b < pow2(k),
    ensures
        descend(lo, hi, b * pow2(s), k + s) == descend(lo, hi, b, k),
    decreases k,
{
    assert(k >= 1) by {
        if k == 0 {
            lemma2_to64();
        }
    }
    let h = pow2((k - 1) as nat);
    let p = pow2(s);
    lemma_pow2_unfold(k);
    lemma_pow2_adds((k - 1) as nat, s);
    assert(pow2((k + s - 1) as nat) == h * p);
    let m = mediant(lo, hi);
    if b == h {
    } else if b < h {
        assert(b * p < h * p) by (nonlinear_arith)
            requires
                b < h,
                p > 0,
        ;
        lemma_descend_scale(lo, m, b, (k - 1) as nat, s);
    } else {
        assert(b * p > h * p) by (nonlinear_arith)
            requires
                b > h,
                p > 0,
        ;
        assert((b * p - h * p) as nat == ((b - h) as nat) * p) by (nonlinear_arith)
            requires
                b > h,
        ;
        lemma_descend_scale(m, hi, (b - h) as nat, (k - 1) as nat, s);
    }
}

/// Widening keeps the fraction: the pattern `b` of width `w`, shifted up by
/// `s` bits, stands in width `w + s` for the same fraction.
pub proof fn lemma_value_scale(b: nat, w: nat, s: nat)
    requires
        valid(b, w),
        w + s <= 64,
    ensures
        valid(b * pow2(s), w + s),
        value(b * pow2(s), w + s) == value(b, w),
{
    lemma_pow2_adds(w, s);
    assert(b * pow2(s) < pow2(w) * pow2(s)) by (nonlinear_arith)
        requires
            b < pow2(w),
            pow2(s) > 0,
    ;
    if b != 0 {
        lemma_descend_scale((0, 1), (1, 0), b, w, s);
        assert(b * pow2(s) != 0) by (nonlinear_arith)
            requires
                b > 0,
                pow2(s) > 0,
        ;
    } else {
        assert(0 * pow2(s) == 0);
    }
}

/// Narrowing is exact where it loses no set bit: the pattern shifted down by
/// `s` bits is a pattern of the narrower width that stands for the same
/// fraction.
pub proof fn lemma_value_narrow(b: nat, w: nat, s: nat)
    requires
        1 <= w,
        valid(b, w + s),
        b % pow2(s) == 0,
    ensures
        valid(b / pow2(s), w),
        (b / pow2(s)) * pow2(s) == b,
        value(b / pow2(s), w) == value(b, w + s),
{
    let p = pow2(s);
    let q = b / p;
    lemma_fundamental_div_mod(b as int, p as int);
    lemma_pow2_adds(w, s);
    assert(q < pow2(w)) by (nonlinear_arith)
        requires
            b == p * q,
            b < pow2(w) * p,
            p > 0,
    ;
    lemma_value_scale(q, w, s);
    assert(q * p == b);
}

} // verus!
