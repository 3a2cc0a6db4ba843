//! What holds of the encoding as a whole, proved over the model.
use crate::ifrac8::{magnitude, negative, signed_order};
use crate::model::{
    approximation, depth, descend, integer_node, is_leaf, last_turn, left_of,
    lemma_children, lemma_descend_monotone, lemma_inside, lemma_low_zeros_exact,
    lemma_low_zeros_parity, lemma_node_shape, lemma_root_fits, lemma_root_marker,
    lemma_settle_unfold, lemma_value_scale, low_zeros, marker, mediant, mirror, parent_of, proper, ratio_eq,
    ratio_lt, right_of, root, settle, sibling_of, valid, value, Ratio,
};
use vstd::arithmetic::div_mod::*;
use vstd::arithmetic::mul::*;
use vstd::arithmetic::power2::*;
use core::cmp::Ordering;
use vstd::prelude::*;

verus! {

broadcast use lemma_pow2_pos;

/// A fraction with numerator and denominator exchanged.
pub open spec fn swap(r: Ratio) -> Ratio {
    (r.1, r.0)
}

/// Of two patterns of one width, the smaller stands for the smaller
/// fraction.
proof fn lemma_value_lt(x: nat, y: nat, w: nat)
    requires
        valid(y, w),
        x < y,
    ensures
        ratio_lt(value(x, w), value(y, w)),
{
    assert(proper((0, 1), (1, 0)));
    if x == 0 {
        lemma_inside((0, 1), (1, 0), y, w);
    } else {
        lemma_descend_monotone((0, 1), (1, 0), x, y, w);
    }
}

/// Order isomorphism: for two patterns of one width, the order of the
/// patterns as unsigned integers is the order of the fractions they stand
/// for, compared by cross-multiplication.
pub proof fn law_order(x: nat, y: nat, w: nat)
    requires
        valid(x, w),
        valid(y, w),
    ensures
        x < y <==> ratio_lt(value(x, w), value(y, w)),
{
    if x < y {
        lemma_value_lt(x, y, w);
    } else if y < x {
        lemma_value_lt(y, x, w);
    }
}

/// The walk toward the fraction of `b`, from a node whose subtree holds `b`,
/// settles on `b`.
proof fn lemma_settle_finds(b: nat, node: nat, below: nat, above: nat, w: nat)
    requires
        valid(b, w),
        valid(node, w),
        b != 0,
        node != 0,
        node < b + marker(node),
        b < node + marker(node),
    ensures
        settle(value(b, w), node, below, above, low_zeros(node), w) == b,
    decreases low_zeros(node),
{
    let target = value(b, w);
    let lz = low_zeros(node);
    lemma_settle_unfold(target, node, below, above, w);
    lemma_low_zeros_parity(node);
    if b != node {
        if b < node {
            lemma_value_lt(b, node, w);
        } else {
            lemma_value_lt(node, b, w);
        }
        if lz == 0 {
            lemma2_to64();
        } else {
            lemma_children(node, w);
            if b < node {
                lemma_settle_finds(b, left_of(node), below, left_of(node), w);
            } else {
                lemma_settle_finds(b, right_of(node), left_of(node), above, w);
            }
        }
    }
}

/// Round trip on the tree: encoding the exact fraction of a pattern gives
/// the pattern back.
pub proof fn law_round_trip_node(b: nat, w: nat)
    requires
        valid(b, w),
    ensures
        approximation(value(b, w), w) == b,
{
    if b != 0 {
        assert(proper((0, 1), (1, 0)));
        lemma_inside((0, 1), (1, 0), b, w);
        lemma_root_fits(w);
        lemma_pow2_unfold(w);
        lemma_root_marker(root(w), w);
        lemma_settle_finds(b, root(w), root(w), root(w), w);
    }
}

/// The walk along `j` right turns from `(a/1, 1/0)` ends at `(a + j)/1`.
proof fn lemma_integers(a: nat, k: nat, j: nat)
    requires
        1 <= j <= k,
    ensures
        ({
            let d = descend((a, 1), (1, 0), (pow2(k) - pow2((k - j) as nat)) as nat, k);
            mediant(d.0, d.1) == (a + j, 1nat)
        }),
    decreases j,
{
    let h = pow2((k - 1) as nat);
    lemma_pow2_unfold(k);
    if j > 1 {
        lemma_pow2_strictly_increases((k - j) as nat, (k - 1) as nat);
        let b = (pow2(k) - pow2((k - j) as nat)) as nat;
        assert((b - h) as nat == (pow2((k - 1) as nat) - pow2(((k - 1) - (j - 1)) as nat)) as nat);
        lemma_integers(a + 1, (k - 1) as nat, (j - 1) as nat);
    }
}

/// Round trip on integers: the node for `n` (`1 <= n <= w`) stands for
/// `n/1`, and zero for `0/1`.
pub proof fn law_integer_round_trip(n: nat, w: nat)
    requires
        1 <= w <= 64,
        n <= w,
    ensures
        value(0, w) == (0nat, 1nat),
        1 <= n ==> valid(integer_node(n, w), w),
        1 <= n ==> value(integer_node(n, w), w) == (n, 1nat),
{
    if 1 <= n {
        lemma_integers(0, w, n);
        lemma_pow2_strictly_increases((w - n) as nat, w);
    }
}

/// Mirroring the pattern below a mirrored interval mirrors the interval
/// reached.
proof fn lemma_mirror_descend(lo: Ratio, hi: Ratio, b: nat, k: nat)
    requires
        0 < b < pow2(k),
    ensures
        descend(swap(hi), swap(lo), (pow2(k) - b) as nat, k) == (
            swap(descend(lo, hi, b, k).1),
            swap(descend(lo, hi, b, k).0),
        ),
    decreases k,
{
    assert(k >= 1) by {
        if k == 0 {
            lemma2_to64();
        }
    }
    let h = pow2((k - 1) as nat);
    lemma_pow2_unfold(k);
    let m = mediant(lo, hi);
    assert(mediant(swap(hi), swap(lo)) == swap(m));
    if b < h {
        lemma_mirror_descend(lo, m, b, (k - 1) as nat);
    } else if b > h {
        lemma_mirror_descend(m, hi, (b - h) as nat, (k - 1) as nat);
    }
}

/// Inversion: a nonzero pattern's mirror stands for the reciprocal, and
/// mirroring twice gives the pattern back.
pub proof fn law_invert(b: nat, w: nat)
    requires
        valid(b, w),
        b != 0,
    ensures
        valid(mirror(b, w), w),
        mirror(b, w) != 0,
        mirror(mirror(b, w), w) == b,
        value(mirror(b, w), w) == swap(value(b, w)),
{
    lemma_mirror_descend((0, 1), (1, 0), b, w);
}

/// Tree consistency: the children of a node that is neither zero nor a
/// leaf lie below the root, have that node as parent, and are each other's
/// sibling.
pub proof fn law_tree(b: nat, w: nat)
    requires
        valid(b, w),
        b != 0,
        !is_leaf(b),
    ensures
        valid(left_of(b), w),
        valid(right_of(b), w),
        left_of(b) != 0 && left_of(b) != root(w),
        right_of(b) != 0 && right_of(b) != root(w),
        parent_of(left_of(b)) == b,
        parent_of(right_of(b)) == b,
        sibling_of(left_of(b)) == right_of(b),
        sibling_of(right_of(b)) == left_of(b),
{
    lemma_children(b, w);
    lemma_node_shape(b, w);
    let l = left_of(b);
    let r = right_of(b);
    lemma_root_marker(l, w);
    lemma_root_marker(r, w);
    let t = low_zeros(b);
    let m = marker(b);
    let h = pow2((t - 1) as nat);
    let q = b / m;
    assert(marker(l) == h && marker(r) == h);
    assert(l == (q - 1) * (2 * h) + h) by (nonlinear_arith)
        requires
            b == q * m,
            m == 2 * h,
            l == b - h,
            q >= 1,
    ;
    assert(r == q * (2 * h) + h) by (nonlinear_arith)
        requires
            b == q * m,
            m == 2 * h,
            r == b + h,
    ;
    lemma_fundamental_div_mod_converse(l as int, (2 * h) as int, (q - 1) as int, h as int);
    lemma_fundamental_div_mod_converse(r as int, (2 * h) as int, q as int, h as int);
    assert(!last_turn(l));
    assert(last_turn(r));
}

/// Leaf boundary: a nonzero pattern is a leaf exactly when its depth is the
/// greatest, `w - 1`; zero and leaves are where the child accessors give
/// `None`.
pub proof fn law_leaf(b: nat, w: nat)
    requires
        valid(b, w),
        b != 0,
    ensures
        is_leaf(b) <==> depth(b, w) == w - 1,
{
    lemma_node_shape(b, w);
    lemma_low_zeros_parity(b);
}

/// Widening is exact: a pattern shifted up by `s` bits stands, at the
/// wider width, for the same fraction, and shifting it back down (which
/// loses no set bit) gives the pattern again.
pub proof fn law_widen(b: nat, w: nat, s: nat)
    requires
        valid(b, w),
        w + s <= 64,
    ensures
        valid(b * pow2(s), w + s),
        value(b * pow2(s), w + s) == value(b, w),
        (b * pow2(s)) % pow2(s) == 0,
        (b * pow2(s)) / pow2(s) == b,
{
    lemma_value_scale(b, w, s);
    lemma_mod_multiples_basic(b as int, pow2(s) as int);
    lemma_div_multiples_vanish(b as int, pow2(s) as int);
    lemma_mul_is_commutative(b as int, pow2(s) as int);
}

/// The signed fraction of an 8-bit signed pattern, as (numerator,
/// denominator) with the sign on the numerator.
pub open spec fn signed_value(b: nat) -> (int, int) {
    let v = value(magnitude(b), 7);
    (if negative(b) {
        -v.0
    } else {
        v.0 as int
    }, v.1 as int)
}

/// The fraction of a 7-bit pattern has a positive denominator, and a
/// positive numerator unless the pattern is zero.
proof fn lemma_value_signs(b: nat)
    requires
        b < 128,
    ensures
        value(b, 7).1 >= 1,
        b != 0 ==> value(b, 7).0 >= 1,
{
    if b != 0 {
        vstd::arithmetic::power2::lemma2_to64();
        assert(proper((0, 1), (1, 0)));
        lemma_inside((0, 1), (1, 0), b, 7);
    }
}

/// Order of the signed type: apart from the pattern of a negative zero,
/// the sign-aware comparison of two patterns is the order of their signed
/// fractions, and it finds them equal only when the patterns are equal.
pub proof fn law_signed_order(a: nat, b: nat)
    requires
        a < 256,
        b < 256,
        !(negative(a) && magnitude(a) == 0),
        !(negative(b) && magnitude(b) == 0),
    ensures
        signed_order(a, b) == Ordering::Less <==> signed_value(a).0 * signed_value(b).1
            < signed_value(b).0 * signed_value(a).1,
        signed_order(a, b) == Ordering::Equal <==> a == b,
{
    let (ma, mb) = (magnitude(a), magnitude(b));
    vstd::arithmetic::power2::lemma2_to64();
    law_order(ma, mb, 7);
    law_order(mb, ma, 7);
    lemma_value_signs(ma);
    lemma_value_signs(mb);
    let va = value(ma, 7);
    let vb = value(mb, 7);
    if negative(a) && !negative(b) {
        assert(-va.0 * (vb.1 as int) < 0) by (nonlinear_arith)
            requires
                va.0 >= 1,
                vb.1 >= 1,
        ;
        assert((vb.0 as int) * (va.1 as int) >= 0) by (nonlinear_arith)
            requires
                vb.0 >= 0,
                va.1 >= 0,
        ;
    } else if !negative(a) && negative(b) {
        assert(-vb.0 * (va.1 as int) < 0) by (nonlinear_arith)
            requires
                vb.0 >= 1,
                va.1 >= 1,
        ;
        assert((va.0 as int) * (vb.1 as int) >= 0) by (nonlinear_arith)
            requires
                va.0 >= 0,
                vb.1 >= 0,
        ;
    } else if negative(a) && negative(b) {
        assert((-va.0) * (vb.1 as int) < (-vb.0) * (va.1 as int) <==> vb.0 * va.1 < va.0 * vb.1)
            by (nonlinear_arith);
    }
}

} // verus!
