//! Why the Lagrange weights reconstruct the shared value: for every
//! polynomial of a degree below the number of points, the weighted sum of
//! its values at the points is its value at zero.

use vstd::prelude::*;
use vstd::arithmetic::div_mod::{
    lemma_add_mod_noop, lemma_mod_bound, lemma_mod_twice, lemma_mul_mod_noop_general,
    lemma_small_mod, lemma_sub_mod_noop,
};
use crate::lagrange::{lagrange_factor, partial_weight};
use crate::scalar::{
    field_inverse, field_mul, field_sub, has_inverse, is_inverse_of, modulus,
};

verus! {

/// The residue of `a`.
pub open spec fn residue(a: int) -> int {
    a % (modulus() as int)
}

proof fn lemma_residue_of_nat(a: nat)
    ensures
        residue(a as int) == (a % modulus()) as int,
        0 <= residue(a as int) < modulus(),
{
    lemma_mod_bound(a as int, modulus() as int);
}

proof fn lemma_residue_reduced(a: int)
    ensures
        0 <= residue(a) < modulus(),
        residue(residue(a)) == residue(a),
{
    lemma_mod_bound(a, modulus() as int);
    lemma_mod_twice(a, modulus() as int);
}

proof fn lemma_sum_respects(a: int, a2: int, b: int, b2: int)
    requires
        residue(a) == residue(a2),
        residue(b) == residue(b2),
    ensures
        residue(a + b) == residue(a2 + b2),
{
    lemma_add_mod_noop(a, b, modulus() as int);
    lemma_add_mod_noop(a2, b2, modulus() as int);
}

proof fn lemma_difference_respects(a: int, a2: int, b: int, b2: int)
    requires
        residue(a) == residue(a2),
        residue(b) == residue(b2),
    ensures
        residue(a - b) == residue(a2 - b2),
{
    lemma_sub_mod_noop(a, b, modulus() as int);
    lemma_sub_mod_noop(a2, b2, modulus() as int);
}

proof fn lemma_product_respects(a: int, a2: int, b: int, b2: int)
    requires
        residue(a) == residue(a2),
        residue(b) == residue(b2),
    ensures
        residue(a * b) == residue(a2 * b2),
{
    lemma_mul_mod_noop_general(a, b, modulus() as int);
    lemma_mul_mod_noop_general(a2, b2, modulus() as int);
}

/// The value at `x` of the polynomial with the coefficients `coeffs`, the
/// constant one first.
pub open spec fn eval(coeffs: Seq<nat>, x: nat) -> nat
    decreases coeffs.len(),
{
    if coeffs.len() == 0 {
        0
    } else {
        (coeffs[0] + x * eval(coeffs.drop_first(), x)) % modulus()
    }
}

/// The quotient of the polynomial by `X - c`.
spec fn quotient(coeffs: Seq<nat>, c: nat) -> Seq<nat>
    decreases coeffs.len(),
{
    if coeffs.len() <= 1 {
        Seq::empty()
    } else {
        seq![eval(coeffs.drop_first(), c)] + quotient(coeffs.drop_first(), c)
    }
}

proof fn lemma_quotient_len(coeffs: Seq<nat>, c: nat)
    ensures
        quotient(coeffs, c).len() == if coeffs.len() == 0 {
            0
        } else {
            coeffs.len() - 1
        },
    decreases coeffs.len(),
{
    if coeffs.len() > 1 {
        lemma_quotient_len(coeffs.drop_first(), c);
    }
}

/// A polynomial's value is a reduced residue.
pub proof fn lemma_eval_reduced(coeffs: Seq<nat>, x: nat)
    ensures
        eval(coeffs, x) < modulus(),
        residue(eval(coeffs, x) as int) == eval(coeffs, x),
    decreases coeffs.len(),
{
    if coeffs.len() > 0 {
        lemma_mod_bound(
            (coeffs[0] + x * eval(coeffs.drop_first(), x)) as int,
            modulus() as int,
        );
    }
    lemma_small_mod(eval(coeffs, x), modulus());
}

/// Division by `X - c`: `f(y) = f(c) + (y - c) q(y)`.
proof fn lemma_division(coeffs: Seq<nat>, c: nat, y: nat)
    ensures
        residue(eval(coeffs, y) as int) == residue(
            eval(coeffs, c) + (y - c) * eval(quotient(coeffs, c), y),
        ),
    decreases coeffs.len(),
{
    let m = modulus() as int;
    if coeffs.len() == 0 {
        assert((y - c) * 0 == 0);
    } else if coeffs.len() == 1 {
        let rest = coeffs.drop_first();
        assert(eval(rest, y) == 0 && eval(rest, c) == 0);
        assert((y - c) * 0 == 0);
        assert(y * 0 == 0 && c * 0 == 0);
    } else {
        let rest = coeffs.drop_first();
        let q0 = quotient(rest, c);
        let q = quotient(coeffs, c);
        assert(q.drop_first() =~= q0);
        assert(q[0] == eval(rest, c));
        let a0 = coeffs[0] as int;
        let fy = eval(rest, y) as int;
        let fc = eval(rest, c) as int;
        let qy = eval(q0, y) as int;
        let (c, y) = (c as int, y as int);
        lemma_division(rest, c as nat, y as nat);
        // f'(y) = f'(c) + (y - c) q'(y)
        assert(residue(fy) == residue(fc + (y - c) * qy));
        // left: a0 + y f'(y)
        lemma_residue_reduced(a0 + y * fy);
        assert(residue(y * fy) == residue(y * (fc + (y - c) * qy))) by {
            lemma_product_respects(y, y, fy, fc + (y - c) * qy);
        }
        assert(residue(a0 + y * fy) == residue(a0 + y * (fc + (y - c) * qy))) by {
            lemma_sum_respects(a0, a0, y * fy, y * (fc + (y - c) * qy));
        }
        // right: (a0 + c f'(c)) + (y - c) (f'(c) + y q'(y))
        let fcc = eval(coeffs, c as nat) as int;
        let qq = eval(q, y as nat) as int;
        assert(fcc == residue(a0 + c * fc));
        assert(qq == residue(fc + y * qy));
        lemma_residue_reduced(a0 + c * fc);
        lemma_residue_reduced(fc + y * qy);
        assert(residue((y - c) * qq) == residue((y - c) * (fc + y * qy))) by {
            lemma_product_respects(y - c, y - c, qq, fc + y * qy);
        }
        assert(residue(fcc + (y - c) * qq) == residue((a0 + c * fc) + (y - c) * (fc + y * qy)))
            by {
            lemma_sum_respects(fcc, a0 + c * fc, (y - c) * qq, (y - c) * (fc + y * qy));
        }
        assert(a0 + y * (fc + (y - c) * qy) == (a0 + c * fc) + (y - c) * (fc + y * qy))
            by (nonlinear_arith);
    }
}

/// The differences of the points have inverses. This holds of any distinct
/// 64-bit numbers, the field's order being a prime above them; the library
/// does not prove that, and finds each inverse when it computes a weight.
pub open spec fn differences_invertible(ids: Seq<u64>) -> bool {
    forall|i: int, j: int|
        0 <= i < ids.len() && 0 <= j < ids.len() && i != j ==> has_inverse(
            #[trigger] field_sub(ids[i] as nat, ids[j] as nat),
        )
}

/// The sum over the first `m` of the first `k` points of the point's weight
/// among those `k`, times the polynomial's value at the point.
pub open spec fn weighted_value(ids: Seq<u64>, coeffs: Seq<nat>, k: int, m: int) -> nat
    decreases m,
{
    if m <= 0 {
        0
    } else {
        (weighted_value(ids, coeffs, k, m - 1) + partial_weight(ids, m - 1, k) * eval(
            coeffs,
            ids[m - 1] as nat,
        )) % modulus()
    }
}

proof fn lemma_weighted_value_reduced(ids: Seq<u64>, coeffs: Seq<nat>, k: int, m: int)
    ensures
        residue(weighted_value(ids, coeffs, k, m) as int) == weighted_value(ids, coeffs, k, m),
    decreases m,
{
    if m > 0 {
        lemma_residue_reduced(
            (weighted_value(ids, coeffs, k, m - 1) + partial_weight(ids, m - 1, k) * eval(
                coeffs,
                ids[m - 1] as nat,
            )) as int,
        );
    } else {
        lemma_small_mod(0, modulus());
    }
}

/// `d` times its inverse is one, and so is minus `d` times minus the inverse.
proof fn lemma_inverse_of_difference(ids: Seq<u64>, i: int, j: int)
    requires
        0 <= i < ids.len(),
        0 <= j < ids.len(),
        i != j,
        differences_invertible(ids),
    ensures
        residue(
            (ids[i] - ids[j]) * field_inverse(field_sub(ids[i] as nat, ids[j] as nat)),
        ) == 1,
        residue(
            (ids[j] - ids[i]) * field_inverse(field_sub(ids[i] as nat, ids[j] as nat)),
        ) == residue(-1),
{
    let d = field_sub(ids[i] as nat, ids[j] as nat);
    assert(has_inverse(d));
    let v = field_inverse(d);
    assert(is_inverse_of(v, d));
    let (di, vi) = (d as int, v as int);
    let x = ids[i] - ids[j];
    lemma_residue_reduced(x);
    assert(di == residue(x));
    assert(residue(x * vi) == residue(di * vi)) by {
        lemma_product_respects(x, di, vi, vi);
    }
    assert(residue(0 - x * vi) == residue(0 - 1)) by {
        lemma_small_mod(1, modulus());
        lemma_difference_respects(0, 0, x * vi, 1);
    }
    assert((ids[j] - ids[i]) * vi == 0 - x * vi) by (nonlinear_arith)
        requires
            x == ids[i] - ids[j],
    ;
}

/// How a point's weight changes when the point `k` joins the first `k`:
/// `w' (x_i - x_k) = -x_k w`.
proof fn lemma_weight_step(ids: Seq<u64>, i: int, k: int)
    requires
        0 <= i < k < ids.len(),
        differences_invertible(ids),
    ensures
        residue(partial_weight(ids, i, k + 1) * (ids[i] - ids[k])) == residue(
            -(ids[k] as int) * partial_weight(ids, i, k),
        ),
{
    let w = partial_weight(ids, i, k) as int;
    let w1 = partial_weight(ids, i, k + 1) as int;
    let xk = ids[k] as int;
    let xi = ids[i] as int;
    let v = field_inverse(field_sub(ids[k] as nat, ids[i] as nat)) as int;
    let factor = lagrange_factor(ids[k], ids[i]) as int;
    assert(factor == residue(xk * v));
    assert(w1 == residue(w * factor));
    lemma_inverse_of_difference(ids, k, i);
    assert(residue((xi - xk) * v) == residue(-1));
    lemma_residue_reduced(xk * v);
    lemma_residue_reduced(w * factor);
    assert(residue(w * factor) == residue(w * (xk * v))) by {
        lemma_product_respects(w, w, factor, xk * v);
    }
    assert(residue(w1 * (xi - xk)) == residue((w * (xk * v)) * (xi - xk))) by {
        lemma_product_respects(w1, w * (xk * v), xi - xk, xi - xk);
    }
    assert((w * (xk * v)) * (xi - xk) == (w * xk) * ((xi - xk) * v)) by (nonlinear_arith);
    assert(residue((w * xk) * ((xi - xk) * v)) == residue((w * xk) * (-1))) by {
        lemma_product_respects(w * xk, w * xk, (xi - xk) * v, -1);
    }
    assert((w * xk) * (-1) == -xk * w) by (nonlinear_arith);
}

/// With `g` the quotient of `f` by `X - x_k`: the sum of `f` over the first
/// `m` points, weighted among `k + 1`, is `f(x_k)` times the sum of those
/// weights, less `x_k` times the sum of `g` weighted among `k`.
proof fn lemma_split_sum(ids: Seq<u64>, coeffs: Seq<nat>, k: int, m: int)
    requires
        0 <= m <= k < ids.len(),
        differences_invertible(ids),
    ensures
        residue(weighted_value(ids, coeffs, k + 1, m) as int) == residue(
            eval(coeffs, ids[k] as nat) * weighted_value(ids, seq![1nat], k + 1, m) - ids[k]
                * weighted_value(ids, quotient(coeffs, ids[k] as nat), k, m),
        ),
    decreases m,
{
    let one = seq![1nat];
    let g = quotient(coeffs, ids[k] as nat);
    let xk = ids[k] as int;
    let fk = eval(coeffs, ids[k] as nat) as int;
    if m == 0 {
        assert(fk * 0 - xk * 0 == 0) by (nonlinear_arith);
    } else {
        let i = m - 1;
        lemma_split_sum(ids, coeffs, k, i);
        let xi = ids[i] as int;
        let w = partial_weight(ids, i, k) as int;
        let w1 = partial_weight(ids, i, k + 1) as int;
        let fi = eval(coeffs, ids[i] as nat) as int;
        let gi = eval(g, ids[i] as nat) as int;
        let sf = weighted_value(ids, coeffs, k + 1, i) as int;
        let s1 = weighted_value(ids, one, k + 1, i) as int;
        let sg = weighted_value(ids, g, k, i) as int;
        // the three sums, one term further
        let tf = weighted_value(ids, coeffs, k + 1, m) as int;
        let t1 = weighted_value(ids, one, k + 1, m) as int;
        let tg = weighted_value(ids, g, k, m) as int;
        assert(eval(one, ids[i] as nat) == 1) by {
            assert(one.drop_first() =~= Seq::<nat>::empty());
            assert(eval(one.drop_first(), ids[i] as nat) == 0);
            assert(ids[i] as nat * 0 == 0);
            lemma_small_mod(1, modulus());
        }
        assert(tf == residue(sf + w1 * fi));
        assert(t1 == residue(s1 + w1 * 1));
        assert(tg == residue(sg + w * gi));
        lemma_residue_reduced(sf + w1 * fi);
        lemma_residue_reduced(s1 + w1 * 1);
        lemma_residue_reduced(sg + w * gi);
        // f(x_i) = f(x_k) + (x_i - x_k) g(x_i)
        lemma_division(coeffs, ids[k] as nat, ids[i] as nat);
        lemma_eval_reduced(coeffs, ids[i] as nat);
        assert(residue(fi) == residue(fk + (xi - xk) * gi));
        // w' f(x_i) = w' f(x_k) - x_k w g(x_i)
        lemma_weight_step(ids, i, k);
        assert(residue(w1 * fi) == residue(w1 * (fk + (xi - xk) * gi))) by {
            lemma_product_respects(w1, w1, fi, fk + (xi - xk) * gi);
        }
        assert(w1 * (fk + (xi - xk) * gi) == w1 * fk + (w1 * (xi - xk)) * gi)
            by (nonlinear_arith);
        assert(residue((w1 * (xi - xk)) * gi) == residue((-xk * w) * gi)) by {
            lemma_product_respects(w1 * (xi - xk), -xk * w, gi, gi);
        }
        assert(residue(w1 * fk + (w1 * (xi - xk)) * gi) == residue(w1 * fk + (-xk * w) * gi)) by {
            lemma_sum_respects(w1 * fk, w1 * fk, (w1 * (xi - xk)) * gi, (-xk * w) * gi);
        }
        // left side
        assert(residue(sf + w1 * fi) == residue((fk * s1 - xk * sg) + (w1 * fk + (-xk * w) * gi)))
            by {
            lemma_sum_respects(sf, fk * s1 - xk * sg, w1 * fi, w1 * fk + (-xk * w) * gi);
        }
        // right side
        assert(residue(fk * t1) == residue(fk * (s1 + w1 * 1))) by {
            lemma_product_respects(fk, fk, t1, s1 + w1 * 1);
        }
        assert(residue(xk * tg) == residue(xk * (sg + w * gi))) by {
            lemma_product_respects(xk, xk, tg, sg + w * gi);
        }
        assert(residue(fk * t1 - xk * tg) == residue(fk * (s1 + w1 * 1) - xk * (sg + w * gi))) by {
            lemma_difference_respects(fk * t1, fk * (s1 + w1 * 1), xk * tg, xk * (sg + w * gi));
        }
        assert((fk * s1 - xk * sg) + (w1 * fk + (-xk * w) * gi) == fk * (s1 + w1 * 1) - xk * (sg
            + w * gi)) by (nonlinear_arith);
    }
}

/// The polynomial with `v` added to its constant coefficient.
spec fn plus_constant(coeffs: Seq<nat>, v: nat) -> Seq<nat> {
    if coeffs.len() == 0 {
        seq![v % modulus()]
    } else {
        seq![(coeffs[0] + v) % modulus()] + coeffs.drop_first()
    }
}

proof fn lemma_plus_constant(coeffs: Seq<nat>, v: nat, y: nat)
    ensures
        residue(eval(plus_constant(coeffs, v), y) as int) == residue((v + eval(coeffs, y)) as int),
        plus_constant(coeffs, v).len() == if coeffs.len() == 0 {
            1
        } else {
            coeffs.len()
        },
{
    let p = plus_constant(coeffs, v);
    let (vi, yi) = (v as int, y as int);
    if coeffs.len() == 0 {
        assert(p.drop_first() =~= Seq::<nat>::empty());
        assert(eval(p.drop_first(), y) == 0);
        assert(yi * 0 == 0);
        lemma_residue_reduced(vi);
        lemma_residue_reduced(residue(vi) + yi * 0);
    } else {
        let rest = coeffs.drop_first();
        assert(p.drop_first() =~= rest);
        let t = eval(rest, y) as int;
        let c0 = coeffs[0] as int;
        assert(eval(p, y) == residue(residue(c0 + vi) + yi * t));
        assert(eval(coeffs, y) == residue(c0 + yi * t));
        lemma_residue_reduced(c0 + vi);
        lemma_residue_reduced(c0 + yi * t);
        lemma_residue_reduced(residue(c0 + vi) + yi * t);
        assert(residue(residue(c0 + vi) + yi * t) == residue((c0 + vi) + yi * t)) by {
            lemma_sum_respects(residue(c0 + vi), c0 + vi, yi * t, yi * t);
        }
        assert(residue(vi + residue(c0 + yi * t)) == residue(vi + (c0 + yi * t))) by {
            lemma_sum_respects(vi, vi, residue(c0 + yi * t), c0 + yi * t);
        }
    }
}

/// The polynomial times `X - a`.
spec fn times_linear(coeffs: Seq<nat>, a: nat) -> Seq<nat>
    decreases coeffs.len(),
{
    if coeffs.len() == 0 {
        Seq::empty()
    } else {
        seq![residue(-(a as int) * coeffs[0]) as nat] + plus_constant(
            times_linear(coeffs.drop_first(), a),
            coeffs[0],
        )
    }
}

proof fn lemma_times_linear(coeffs: Seq<nat>, a: nat, y: nat)
    ensures
        residue(eval(times_linear(coeffs, a), y) as int) == residue(
            (y - a) * eval(coeffs, y),
        ),
        times_linear(coeffs, a).len() == if coeffs.len() == 0 {
            0
        } else {
            coeffs.len() + 1
        },
    decreases coeffs.len(),
{
    let (ai, yi) = (a as int, y as int);
    if coeffs.len() == 0 {
        assert((yi - ai) * 0 == 0);
    } else {
        let rest = coeffs.drop_first();
        let c0 = coeffs[0] as int;
        let inner = times_linear(rest, a);
        let shifted = plus_constant(inner, coeffs[0]);
        let p = times_linear(coeffs, a);
        lemma_times_linear(rest, a, y);
        lemma_plus_constant(inner, coeffs[0], y);
        assert(p.drop_first() =~= shifted);
        let head = residue(-ai * c0);
        lemma_residue_reduced(-ai * c0);
        assert(p[0] == head);
        let t = eval(rest, y) as int;
        let u = eval(inner, y) as int;
        let s = eval(shifted, y) as int;
        assert(eval(p, y) == residue(head + yi * s));
        assert(eval(coeffs, y) == residue(c0 + yi * t));
        lemma_residue_reduced(head + yi * s);
        lemma_residue_reduced(c0 + yi * t);
        lemma_eval_reduced(inner, y);
        lemma_eval_reduced(shifted, y);
        // s = c0 + u, u = (y - a) t
        assert(residue(s) == residue(c0 + u));
        assert(residue(u) == residue((yi - ai) * t));
        assert(residue(c0 + u) == residue(c0 + (yi - ai) * t)) by {
            lemma_sum_respects(c0, c0, u, (yi - ai) * t);
        }
        assert(residue(yi * s) == residue(yi * (c0 + (yi - ai) * t))) by {
            lemma_product_respects(yi, yi, s, c0 + (yi - ai) * t);
        }
        assert(residue(head + yi * s) == residue(-ai * c0 + yi * (c0 + (yi - ai) * t))) by {
            lemma_sum_respects(head, -ai * c0, yi * s, yi * (c0 + (yi - ai) * t));
        }
        assert(residue((yi - ai) * residue(c0 + yi * t)) == residue((yi - ai) * (c0 + yi * t)))
            by {
            lemma_product_respects(yi - ai, yi - ai, residue(c0 + yi * t), c0 + yi * t);
        }
        assert(-ai * c0 + yi * (c0 + (yi - ai) * t) == (yi - ai) * (c0 + yi * t))
            by (nonlinear_arith);
    }
}

/// The polynomial that vanishes at the first `k` points: the product of
/// `X - x_j` over them.
spec fn vanishing(ids: Seq<u64>, k: int) -> Seq<nat>
    decreases k,
{
    if k <= 0 {
        seq![1nat]
    } else {
        times_linear(vanishing(ids, k - 1), ids[k - 1] as nat)
    }
}

proof fn lemma_vanishing_len(ids: Seq<u64>, k: int)
    requires
        0 <= k,
    ensures
        vanishing(ids, k).len() == k + 1,
    decreases k,
{
    if k > 0 {
        lemma_vanishing_len(ids, k - 1);
        lemma_times_linear(vanishing(ids, k - 1), ids[k - 1] as nat, 0);
    }
}

proof fn lemma_vanishing_at_point(ids: Seq<u64>, k: int, i: int)
    requires
        0 <= i < k <= ids.len(),
    ensures
        eval(vanishing(ids, k), ids[i] as nat) == 0,
    decreases k,
{
    let y = ids[i] as nat;
    let a = ids[k - 1] as nat;
    let inner = eval(vanishing(ids, k - 1), y) as int;
    lemma_times_linear(vanishing(ids, k - 1), a, y);
    lemma_eval_reduced(vanishing(ids, k), y);
    if i == k - 1 {
        assert((y - a) * inner == 0) by (nonlinear_arith)
            requires
                y == a,
        ;
    } else {
        lemma_vanishing_at_point(ids, k - 1, i);
        assert((y - a) * inner == 0) by (nonlinear_arith)
            requires
                inner == 0,
        ;
    }
    lemma_small_mod(0, modulus());
}

/// The value of the vanishing polynomial of the first `n` points at a
/// further point, times that point's weight among them, is the polynomial's
/// value at zero.
proof fn lemma_weight_of_new_point(ids: Seq<u64>, k: int, n: int)
    requires
        0 <= n <= k < ids.len(),
        differences_invertible(ids),
    ensures
        residue(
            (eval(vanishing(ids, n), ids[k] as nat) * partial_weight(ids, k, n)) as int,
        ) == residue(eval(vanishing(ids, n), 0) as int),
    decreases n,
{
    let xk = ids[k] as int;
    if n == 0 {
        let one = seq![1nat];
        assert(one.drop_first() =~= Seq::<nat>::empty());
        assert(eval(one.drop_first(), ids[k] as nat) == 0 && eval(one.drop_first(), 0) == 0);
        assert(xk * 0 == 0);
        lemma_small_mod(1, modulus());
        assert(eval(one, ids[k] as nat) == 1 && eval(one, 0) == 1);
        assert(partial_weight(ids, k, 0) == 1);
        assert(vanishing(ids, 0) == one);
    } else {
        let j = n - 1;
        let xj = ids[j] as int;
        let h0 = vanishing(ids, j);
        let h = vanishing(ids, n);
        lemma_weight_of_new_point(ids, k, j);
        let hk0 = eval(h0, ids[k] as nat) as int;
        let hz0 = eval(h0, 0) as int;
        let hk = eval(h, ids[k] as nat) as int;
        let hz = eval(h, 0) as int;
        let w0 = partial_weight(ids, k, j) as int;
        let w = partial_weight(ids, k, n) as int;
        let v = field_inverse(field_sub(ids[j] as nat, ids[k] as nat)) as int;
        let factor = lagrange_factor(ids[j], ids[k]) as int;
        assert(factor == residue(xj * v));
        assert(w == residue(w0 * factor));
        lemma_residue_reduced(xj * v);
        lemma_residue_reduced(w0 * factor);
        lemma_times_linear(h0, ids[j] as nat, ids[k] as nat);
        lemma_times_linear(h0, ids[j] as nat, 0);
        lemma_eval_reduced(h, ids[k] as nat);
        lemma_eval_reduced(h, 0);
        assert(residue(hk) == residue((xk - xj) * hk0));
        assert(residue(hz) == residue((0 - xj) * hz0));
        lemma_inverse_of_difference(ids, j, k);
        assert(residue((xk - xj) * v) == residue(-1));
        // w = w0 x_j v
        assert(residue(w0 * factor) == residue(w0 * (xj * v))) by {
            lemma_product_respects(w0, w0, factor, xj * v);
        }
        assert(residue(hk * w) == residue(((xk - xj) * hk0) * (w0 * (xj * v)))) by {
            lemma_product_respects(hk, (xk - xj) * hk0, w, w0 * (xj * v));
        }
        assert(((xk - xj) * hk0) * (w0 * (xj * v)) == ((xk - xj) * v) * (xj * (hk0 * w0)))
            by (nonlinear_arith);
        assert(residue(xj * (hk0 * w0)) == residue(xj * hz0)) by {
            lemma_product_respects(xj, xj, hk0 * w0, hz0);
        }
        assert(residue(((xk - xj) * v) * (xj * (hk0 * w0))) == residue((-1) * (xj * hz0))) by {
            lemma_product_respects((xk - xj) * v, -1, xj * (hk0 * w0), xj * hz0);
        }
        assert((-1) * (xj * hz0) == (0 - xj) * hz0) by (nonlinear_arith);
        assert(residue(hk * w) == residue(hz));
    }
}

/// The product of the inverses of `x_k - x_j` over the first `n` points.
spec fn inverse_at_new_point(ids: Seq<u64>, k: int, n: int) -> nat
    decreases n,
{
    if n <= 0 {
        1
    } else {
        field_mul(
            inverse_at_new_point(ids, k, n - 1),
            field_inverse(field_sub(ids[k] as nat, ids[n - 1] as nat)),
        )
    }
}

/// The vanishing polynomial of the first `n` points has an inverse at a
/// further point.
proof fn lemma_inverse_at_new_point(ids: Seq<u64>, k: int, n: int)
    requires
        0 <= n <= k < ids.len(),
        differences_invertible(ids),
    ensures
        residue(
            (inverse_at_new_point(ids, k, n) * eval(vanishing(ids, n), ids[k] as nat)) as int,
        ) == 1,
    decreases n,
{
    let xk = ids[k] as int;
    if n == 0 {
        let one = seq![1nat];
        assert(one.drop_first() =~= Seq::<nat>::empty());
        assert(eval(one.drop_first(), ids[k] as nat) == 0);
        assert(xk * 0 == 0);
        lemma_small_mod(1, modulus());
        assert(eval(one, ids[k] as nat) == 1);
    } else {
        let j = n - 1;
        let xj = ids[j] as int;
        let h0 = vanishing(ids, j);
        let h = vanishing(ids, n);
        lemma_inverse_at_new_point(ids, k, j);
        let hk0 = eval(h0, ids[k] as nat) as int;
        let hk = eval(h, ids[k] as nat) as int;
        let e0 = inverse_at_new_point(ids, k, j) as int;
        let e = inverse_at_new_point(ids, k, n) as int;
        let v = field_inverse(field_sub(ids[k] as nat, ids[j] as nat)) as int;
        assert(e == residue(e0 * v));
        lemma_residue_reduced(e0 * v);
        lemma_times_linear(h0, ids[j] as nat, ids[k] as nat);
        lemma_eval_reduced(h, ids[k] as nat);
        assert(residue(hk) == residue((xk - xj) * hk0));
        lemma_inverse_of_difference(ids, k, j);
        assert(residue((xk - xj) * v) == 1);
        assert(residue(e * hk) == residue((e0 * v) * ((xk - xj) * hk0))) by {
            lemma_product_respects(e, e0 * v, hk, (xk - xj) * hk0);
        }
        assert((e0 * v) * ((xk - xj) * hk0) == (e0 * hk0) * ((xk - xj) * v)) by (nonlinear_arith);
        assert(residue((e0 * hk0) * ((xk - xj) * v)) == residue(1int * 1int)) by {
            lemma_small_mod(1, modulus());
            lemma_product_respects(e0 * hk0, 1, (xk - xj) * v, 1);
        }
        lemma_small_mod(1, modulus());
    }
}

proof fn lemma_eval_of_one(x: nat)
    ensures
        eval(seq![1nat], x) == 1,
{
    let one = seq![1nat];
    assert(one.drop_first() =~= Seq::<nat>::empty());
    assert(eval(one.drop_first(), x) == 0);
    assert(x * 0 == 0);
    lemma_small_mod(1, modulus());
}

/// The vanishing polynomial of the first `k` points weighs nothing at them.
proof fn lemma_vanishing_sum(ids: Seq<u64>, k: int, m: int)
    requires
        0 <= m <= k < ids.len(),
    ensures
        weighted_value(ids, vanishing(ids, k), k + 1, m) == 0,
    decreases m,
{
    if m > 0 {
        lemma_vanishing_sum(ids, k, m - 1);
        lemma_vanishing_at_point(ids, k, m - 1);
        assert(partial_weight(ids, m - 1, k + 1) * 0 == 0);
        lemma_small_mod(0, modulus());
    }
}

/// The weights of `k + 1` points add up to one, if the weights of `k`
/// points reconstruct the value at zero of the quotient of the vanishing
/// polynomial.
proof fn lemma_weights_sum_to_one(ids: Seq<u64>, k: int)
    requires
        1 <= k < ids.len(),
        differences_invertible(ids),
        weighted_value(ids, quotient(vanishing(ids, k), ids[k] as nat), k, k) == eval(
            quotient(vanishing(ids, k), ids[k] as nat),
            0,
        ),
    ensures
        residue(
            (weighted_value(ids, seq![1nat], k + 1, k) + partial_weight(ids, k, k + 1)) as int,
        ) == 1,
{
    let h = vanishing(ids, k);
    let g = quotient(h, ids[k] as nat);
    let xk = ids[k] as int;
    let hk = eval(h, ids[k] as nat) as int;
    let hz = eval(h, 0) as int;
    let g0 = eval(g, 0) as int;
    let v = weighted_value(ids, seq![1nat], k + 1, k) as int;
    let w = partial_weight(ids, k, k + 1) as int;
    let e = inverse_at_new_point(ids, k, k) as int;
    assert(w == partial_weight(ids, k, k));
    lemma_vanishing_sum(ids, k, k);
    lemma_split_sum(ids, h, k, k);
    lemma_small_mod(0, modulus());
    assert(residue(hk * v - xk * g0) == 0);
    lemma_division(h, ids[k] as nat, 0);
    assert(residue(hz) == residue(hk + (0 - xk) * g0));
    lemma_weight_of_new_point(ids, k, k);
    assert(residue(hk * w) == residue(hz));
    lemma_inverse_at_new_point(ids, k, k);
    assert(residue(e * hk) == 1);
    // h(x_k) (v + w) = h(x_k)
    assert(residue(hk * v + hk * w) == residue(hk * v + (hk + (0 - xk) * g0))) by {
        lemma_sum_respects(hk * v, hk * v, hk * w, hk + (0 - xk) * g0);
    }
    assert(hk * v + (hk + (0 - xk) * g0) == (hk * v - xk * g0) + hk) by (nonlinear_arith);
    assert(residue((hk * v - xk * g0) + hk) == residue(0 + hk)) by {
        lemma_sum_respects(hk * v - xk * g0, 0, hk, hk);
    }
    assert(hk * (v + w) == hk * v + hk * w) by (nonlinear_arith);
    assert(residue(hk * (v + w)) == residue(hk));
    // times the inverse of h(x_k)
    assert(residue(e * (hk * (v + w))) == residue(e * hk)) by {
        lemma_product_respects(e, e, hk * (v + w), hk);
    }
    assert(e * (hk * (v + w)) == (e * hk) * (v + w)) by (nonlinear_arith);
    assert(residue((e * hk) * (v + w)) == residue(1 * (v + w))) by {
        lemma_small_mod(1, modulus());
        lemma_product_respects(e * hk, 1, v + w, v + w);
    }
    assert(1 * (v + w) == v + w);
}

/// The weights of the first `k` points reconstruct the value at zero of
/// every polynomial with at most `k` coefficients.
proof fn lemma_interpolation_of_prefix(ids: Seq<u64>, coeffs: Seq<nat>, k: int)
    requires
        1 <= k <= ids.len(),
        coeffs.len() <= k,
        differences_invertible(ids),
    ensures
        weighted_value(ids, coeffs, k, k) == eval(coeffs, 0),
    decreases k,
{
    lemma_weighted_value_reduced(ids, coeffs, k, k);
    lemma_eval_reduced(coeffs, 0);
    if k == 1 {
        let x0 = ids[0] as nat;
        assert(partial_weight(ids, 0, 0) == 1);
        assert(partial_weight(ids, 0, 1) == 1);
        assert(weighted_value(ids, coeffs, 1, 0) == 0);
        lemma_eval_reduced(coeffs, x0);
        assert(eval(coeffs, x0) == eval(coeffs, 0)) by {
            if coeffs.len() == 1 {
                assert(eval(coeffs.drop_first(), x0) == 0);
                assert(eval(coeffs.drop_first(), 0) == 0);
                assert(x0 * 0 == 0);
            }
        }
        assert(1 * eval(coeffs, x0) == eval(coeffs, x0));
    } else {
        let p = k - 1;
        let xk = ids[p] as int;
        let g = quotient(coeffs, ids[p] as nat);
        let gh = quotient(vanishing(ids, p), ids[p] as nat);
        lemma_quotient_len(coeffs, ids[p] as nat);
        lemma_vanishing_len(ids, p);
        lemma_quotient_len(vanishing(ids, p), ids[p] as nat);
        lemma_interpolation_of_prefix(ids, g, p);
        lemma_interpolation_of_prefix(ids, gh, p);
        lemma_weights_sum_to_one(ids, p);
        lemma_split_sum(ids, coeffs, p, p);
        lemma_division(coeffs, ids[p] as nat, 0);
        let fk = eval(coeffs, ids[p] as nat) as int;
        let f0 = eval(coeffs, 0) as int;
        let g0 = eval(g, 0) as int;
        let v = weighted_value(ids, seq![1nat], k, p) as int;
        let w = partial_weight(ids, p, k) as int;
        let sf = weighted_value(ids, coeffs, k, p) as int;
        let tf = weighted_value(ids, coeffs, k, k) as int;
        assert(tf == residue(sf + w * fk));
        lemma_residue_reduced(sf + w * fk);
        assert(residue(sf) == residue(fk * v - xk * g0));
        assert(residue(v + w) == 1);
        assert(residue(f0) == residue(fk + (0 - xk) * g0));
        assert(residue(sf + w * fk) == residue((fk * v - xk * g0) + w * fk)) by {
            lemma_sum_respects(sf, fk * v - xk * g0, w * fk, w * fk);
        }
        assert((fk * v - xk * g0) + w * fk == fk * (v + w) + (0 - xk) * g0) by (nonlinear_arith);
        assert(residue(fk * (v + w)) == residue(fk * 1)) by {
            lemma_small_mod(1, modulus());
            lemma_product_respects(fk, fk, v + w, 1);
        }
        assert(residue(fk * (v + w) + (0 - xk) * g0) == residue(fk * 1 + (0 - xk) * g0)) by {
            lemma_sum_respects(fk * (v + w), fk * 1, (0 - xk) * g0, (0 - xk) * g0);
        }
        assert(fk * 1 == fk);
    }
}

/// The sum of the polynomial's values at the points `ids`, each times the
/// Lagrange weight of its point.
pub open spec fn interpolated_at_zero(ids: Seq<u64>, coeffs: Seq<nat>) -> nat {
    weighted_value(ids, coeffs, ids.len() as int, ids.len() as int)
}

/// The Lagrange weights of the points `ids` reconstruct the value at zero
/// of every polynomial with no more coefficients than there are points:
/// the constant coefficient, which is the secret that the polynomial shares.
pub proof fn lemma_weights_interpolate(ids: Seq<u64>, coeffs: Seq<nat>)
    requires
        0 < coeffs.len() <= ids.len(),
        differences_invertible(ids),
    ensures
        interpolated_at_zero(ids, coeffs) == coeffs[0] % modulus(),
{
    lemma_interpolation_of_prefix(ids, coeffs, ids.len() as int);
    assert(0 * eval(coeffs.drop_first(), 0) == 0);
}

/// Any two quorums reconstruct the same value: whichever points the shares
/// of one polynomial are taken at, as long as they are at least as many as
/// the polynomial has coefficients, their weighted sum is the same.
pub proof fn lemma_quorums_agree(first: Seq<u64>, second: Seq<u64>, coeffs: Seq<nat>)
    requires
        0 < coeffs.len() <= first.len(),
        coeffs.len() <= second.len(),
        differences_invertible(first),
        differences_invertible(second),
    ensures
        interpolated_at_zero(first, coeffs) == interpolated_at_zero(second, coeffs),
{
    lemma_weights_interpolate(first, coeffs);
    lemma_weights_interpolate(second, coeffs);
}

} // verus!
