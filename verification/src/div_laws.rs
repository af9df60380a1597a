//! Exact division: the coefficients of a product, and the law that dividing
//! a product by one of its factors gives back the other factor and a zero
//! remainder.
use vstd::prelude::*;
use crate::outcome::Outcome;
use crate::gf::GaloisField;
use crate::gfpoly::{lemma_xor_bound, lemma_xor};
use crate::poly::{deg_of, lemma_deg_of, lemma_deg_upto, mono_seq};
use crate::field_laws::{lemma_tables, law_mult_commutes, law_mult_closed, law_mult_distributes, law_mult_zero,
    lemma_table_mult_exp};
use crate::poly_laws::{coef, elements, is_field, lemma_coef_beyond_deg};

verus! {

/// Coefficient `k` of the product `x * y`, summed (XOR) over the first `n`
/// coefficients of `x`.
pub open spec fn pc(f: &GaloisField, x: Seq<usize>, y: Seq<usize>, k: int, n: nat) -> usize
    decreases n,
{
    if n == 0 {
        0
    } else {
        pc(f, x, y, k, (n - 1) as nat) ^ f.table_mult(coef(x, n - 1), coef(y, k - (n - 1)))
    }
}

/// Product coefficients of field elements are field elements.
pub proof fn lemma_pc_bound(f: &GaloisField, pow: usize, prim: usize, x: Seq<usize>, y: Seq<usize>, k: int, n: nat)
    requires
        is_field(f, pow, prim),
        elements(x, f.size()),
        elements(y, f.size()),
    ensures
        pc(f, x, y, k, n) < f.size(),
    decreases n,
{
    lemma_tables(f, pow, prim);
    if n > 0 {
        lemma_pc_bound(f, pow, prim, x, y, k, (n - 1) as nat);
        law_mult_closed(f, coef(x, n - 1), coef(y, k - (n - 1)));
        lemma_xor_bound(pc(f, x, y, k, (n - 1) as nat), f.table_mult(coef(x, n - 1), coef(y, k - (n - 1))), f.size() as usize);
    }
}

/// Product coefficients add in the first factor.
pub proof fn lemma_pc_xor(f: &GaloisField, pow: usize, prim: usize, z: Seq<usize>, x: Seq<usize>, w: Seq<usize>,
    y: Seq<usize>, k: int, n: nat)
    requires
        is_field(f, pow, prim),
        elements(x, f.size()),
        elements(w, f.size()),
        elements(y, f.size()),
        forall|i: int| 0 <= i < n ==> coef(z, i) == coef(x, i) ^ coef(w, i),
    ensures
        pc(f, z, y, k, n) == pc(f, x, y, k, n) ^ pc(f, w, y, k, n),
    decreases n,
{
    lemma_tables(f, pow, prim);
    if n == 0 {
        lemma_xor(0, 0, 0, 0);
    } else {
        lemma_pc_xor(f, pow, prim, z, x, w, y, k, (n - 1) as nat);
        let cx = coef(x, n - 1);
        let cw = coef(w, n - 1);
        let cy = coef(y, k - (n - 1));
        assert(cx < f.size() && cw < f.size() && cy < f.size());
        law_mult_distributes(f, pow, prim, cy, cx, cw);
        law_mult_commutes(f, cy, cx ^ cw);
        law_mult_commutes(f, cy, cx);
        law_mult_commutes(f, cy, cw);
        lemma_xor_bound(cx, cw, f.size() as usize);
        law_mult_closed(f, cx ^ cw, cy);
        law_mult_closed(f, cy, cx ^ cw);
        law_mult_closed(f, cy, cx);
        law_mult_closed(f, cy, cw);
        law_mult_closed(f, cx, cy);
        law_mult_closed(f, cw, cy);
        lemma_xor(pc(f, x, y, k, (n - 1) as nat), pc(f, w, y, k, (n - 1) as nat),
            f.table_mult(cx, cy), f.table_mult(cw, cy));
    }
}

/// Coefficients of the first factor that are zero from `m` to `n` add nothing.
pub proof fn lemma_pc_trailing(f: &GaloisField, x: Seq<usize>, y: Seq<usize>, k: int, m: nat, n: nat)
    requires
        m <= n,
        forall|i: int| m <= i < n ==> coef(x, i) == 0,
    ensures
        pc(f, x, y, k, n) == pc(f, x, y, k, m),
    decreases n - m,
{
    if n > m {
        lemma_pc_trailing(f, x, y, k, m, (n - 1) as nat);
        assert(f.table_mult(0, coef(y, k - (n - 1))) == 0);
        lemma_xor(pc(f, x, y, k, (n - 1) as nat), 0, 0, 0);
    }
}

/// With a first factor that is `c X^s`, a product coefficient is `c y[k - s]`.
pub proof fn lemma_pc_single_left(f: &GaloisField, x: Seq<usize>, y: Seq<usize>, s: int, c: usize, k: int, n: nat)
    requires
        0 <= s < n,
        coef(x, s) == c,
        forall|i: int| 0 <= i < n && i != s ==> coef(x, i) == 0,
    ensures
        pc(f, x, y, k, n) == f.table_mult(c, coef(y, k - s)),
    decreases n,
{
    if n - 1 == s {
        lemma_pc_trailing(f, x, y, k, 0, s as nat);
        lemma_xor(f.table_mult(c, coef(y, k - s)), 0, 0, 0);
    } else {
        lemma_pc_single_left(f, x, y, s, c, k, (n - 1) as nat);
        assert(f.table_mult(0, coef(y, k - (n - 1))) == 0);
        lemma_xor(f.table_mult(c, coef(y, k - s)), 0, 0, 0);
    }
}

/// With a second factor that is `c X^s`, a product coefficient is
/// `x[k - s] c` when `k - s` is among the first `n` coefficients of `x`.
pub proof fn lemma_pc_single_right(f: &GaloisField, x: Seq<usize>, y: Seq<usize>, s: int, c: usize, k: int, n: nat)
    requires
        0 <= s,
        coef(y, s) == c,
        forall|j: int| j != s ==> coef(y, j) == 0,
    ensures
        pc(f, x, y, k, n) == if 0 <= k - s < n { f.table_mult(coef(x, k - s), c) } else { 0 },
    decreases n,
{
    if n > 0 {
        lemma_pc_single_right(f, x, y, s, c, k, (n - 1) as nat);
        let i = n - 1;
        if i == k - s {
            assert(k - i == s);
            lemma_xor(f.table_mult(coef(x, k - s), c), 0, 0, 0);
        } else {
            assert(coef(y, k - i) == 0);
            lemma_table_mult_zero(f, coef(x, i));
            let prev = pc(f, x, y, k, (n - 1) as nat);
            lemma_xor(prev, 0, 0, 0);
        }
    }
}

/// The table product with zero is zero.
pub proof fn lemma_table_mult_zero(f: &GaloisField, v: usize)
    ensures
        f.table_mult(v, 0) == 0,
        f.table_mult(0, v) == 0,
{
}

/// Product coefficients depend only on the first `n` coefficients of `x`.
pub proof fn lemma_pc_same_prefix(f: &GaloisField, x: Seq<usize>, x2: Seq<usize>, y: Seq<usize>, k: int, n: nat)
    requires
        forall|i: int| 0 <= i < n ==> coef(x, i) == coef(x2, i),
    ensures
        pc(f, x, y, k, n) == pc(f, x2, y, k, n),
    decreases n,
{
    if n > 0 {
        lemma_pc_same_prefix(f, x, x2, y, k, (n - 1) as nat);
    }
}

/// Above the sum of the degrees of the factors a product coefficient is
/// zero, and at that sum it is the product of the leading coefficients.
pub proof fn lemma_pc_top(f: &GaloisField, x: Seq<usize>, y: Seq<usize>, dx: int, dy: int, k: int, n: nat)
    requires
        dx >= 0,
        dy >= 0,
        k >= dx + dy,
        forall|i: int| i > dx ==> coef(x, i) == 0,
        forall|j: int| j > dy ==> coef(y, j) == 0,
    ensures
        pc(f, x, y, k, n) == if k == dx + dy && dx < n { f.table_mult(coef(x, dx), coef(y, dy)) } else { 0 },
    decreases n,
{
    if n > 0 {
        lemma_pc_top(f, x, y, dx, dy, k, (n - 1) as nat);
        let i = n - 1;
        let prev = pc(f, x, y, k, (n - 1) as nat);
        if i > dx {
            lemma_table_mult_zero(f, coef(y, k - i));
            lemma_xor(prev, 0, 0, 0);
        } else if k - i > dy {
            lemma_table_mult_zero(f, coef(x, i));
            lemma_xor(prev, 0, 0, 0);
        } else {
            assert(i == dx && k == dx + dy);
            lemma_xor(f.table_mult(coef(x, dx), coef(y, dy)), 0, 0, 0);
        }
    }
}

/// The rows that `mult_poly` sums give the product coefficients.
pub proof fn lemma_conv_rows_pc(f: &GaloisField, a: Seq<usize>, b: Seq<usize>, rows: nat, k: nat)
    requires
        rows <= a.len(),
        b.len() > 0,
    ensures
        f.conv_rows(a, b, deg_of(b), rows, k) == pc(f, a, b, k as int, rows),
    decreases rows,
{
    if rows > 0 {
        lemma_conv_rows_pc(f, a, b, (rows - 1) as nat, k);
        let i = (rows - 1) as nat;
        lemma_deg_of(b);
        if i <= k && k - i <= deg_of(b) {
        } else if i > k {
            lemma_table_mult_zero(f, a[i as int]);
        } else {
            lemma_coef_beyond_deg(b, k - i);
            lemma_table_mult_zero(f, a[i as int]);
        }
    }
}

/// Every coefficient of `conv(a, b)` is the product coefficient.
pub proof fn lemma_conv_coef(f: &GaloisField, a: Seq<usize>, b: Seq<usize>, k: int)
    requires
        a.len() > 0,
        b.len() > 0,
        k >= 0,
    ensures
        coef(f.conv(a, b), k) == pc(f, a, b, k, a.len()),
{
    lemma_deg_of(a);
    lemma_deg_of(b);
    let da = deg_of(a);
    let db = deg_of(b);
    assert forall|i: int| i > da implies coef(a, i) == 0 by {
        lemma_coef_beyond_deg(a, i);
    }
    assert forall|j: int| j > db implies coef(b, j) == 0 by {
        lemma_coef_beyond_deg(b, j);
    }
    if k < da + db + 1 {
        lemma_conv_rows_pc(f, a, b, da + 1, k as nat);
        lemma_pc_trailing(f, a, b, k, da + 1, a.len());
    } else {
        lemma_pc_top(f, a, b, da as int, db as int, k, a.len());
    }
}

/// The sum of two polynomials over a field's tables adds their coefficients.
pub proof fn lemma_sum_poly_coef_wf(f: &GaloisField, a: Seq<usize>, b: Seq<usize>)
    requires
        f.wf(),
        elements(a, f.size()),
        elements(b, f.size()),
        a.len() > 0,
        b.len() > 0,
    ensures
        f.sum_poly_out(a, b) matches Outcome::Val(r) && r.len() > 0 && elements(r, f.size())
            && forall|k: int| k >= 0 ==> #[trigger] coef(r, k) == coef(a, k) ^ coef(b, k),
{
    lemma_deg_of(a);
    lemma_deg_of(b);
    let da = deg_of(a);
    let db = deg_of(b);
    let min = if da > db { db + 1 } else { da + 1 };
    let max = if da > db { da + 1 } else { db + 1 };
    let longest = if da > db { a } else { b };
    assert(!f.some_out_of_range(a, b, min));
    let r = Seq::new(max, |i: int| if i < min { a[i] ^ b[i] } else { longest[i] });
    assert(f.sum_poly_out(a, b) == Outcome::Val(r));
    assert forall|i: int| 0 <= i < r.len() implies #[trigger] r[i] < f.size() by {
        if i < min {
            lemma_xor_bound(a[i], b[i], f.size() as usize);
        }
    }
    assert forall|k: int| k >= 0 implies #[trigger] coef(r, k) == coef(a, k) ^ coef(b, k) by {
        let ca = coef(a, k);
        let cb = coef(b, k);
        if k < min {
        } else if k < max {
            if da > db {
                lemma_coef_beyond_deg(b, k);
                lemma_xor(ca, 0, 0, 0);
            } else {
                lemma_coef_beyond_deg(a, k);
                lemma_xor(cb, 0, 0, 0);
            }
        } else {
            lemma_coef_beyond_deg(a, k);
            lemma_coef_beyond_deg(b, k);
            lemma_xor(0, 0, 0, 0);
        }
    }
}

/// The sum of two polynomials adds their coefficients.
pub proof fn lemma_sum_poly_coef(f: &GaloisField, pow: usize, prim: usize, a: Seq<usize>, b: Seq<usize>)
    requires
        is_field(f, pow, prim),
        elements(a, f.size()),
        elements(b, f.size()),
        a.len() > 0,
        b.len() > 0,
    ensures
        f.sum_poly_out(a, b) matches Outcome::Val(r) && r.len() > 0 && elements(r, f.size())
            && forall|k: int| k >= 0 ==> #[trigger] coef(r, k) == coef(a, k) ^ coef(b, k),
{
    lemma_tables(f, pow, prim);
    lemma_sum_poly_coef_wf(f, a, b);
}

/// Long division keeps `remainder + quotient * divisor = dividend`
/// coefficient by coefficient.
pub proof fn lemma_div_loop_coef(f: &GaloisField, pow: usize, prim: usize, rem: Seq<usize>, q: Seq<usize>,
    d: Seq<usize>, p: Seq<usize>)
    requires
        is_field(f, pow, prim),
        elements(rem, f.size()),
        elements(q, f.size()),
        elements(d, f.size()),
        rem.len() > 0,
        d.len() > 0,
        deg_of(d) >= 1,
        deg_of(rem) >= deg_of(d) ==> deg_of(rem) - deg_of(d) < q.len(),
        forall|k: int| 0 <= k <= deg_of(rem) - deg_of(d) && k < q.len() ==> #[trigger] q[k] == 0,
        forall|k: int| k >= 0 ==> #[trigger] coef(rem, k) ^ pc(f, q, d, k, q.len()) == coef(p, k),
    ensures
        f.div_loop(rem, q, d) matches Outcome::Val((q2, r2)) && elements(q2, f.size()) && elements(r2, f.size())
            && q2.len() == q.len() && r2.len() > 0 && deg_of(r2) < deg_of(d)
            && forall|k: int| k >= 0 ==> #[trigger] coef(r2, k) ^ pc(f, q2, d, k, q2.len()) == coef(p, k),
    decreases deg_of(rem),
{
    lemma_tables(f, pow, prim);
    lemma_deg_of(rem);
    lemma_deg_of(d);
    let rd = deg_of(rem);
    let dd = deg_of(d);
    if rd >= dd {
        let s = (rd - dd) as nat;
        let lr = rem[rd as int];
        let ld = d[dd as int];
        let c = f.table_div(lr, ld);
        crate::field_laws::law_div_mult(f, pow, prim, lr, ld);
        law_mult_closed(f, lr, ld);
        assert(f.div_out(lr, ld) == Outcome::Val(c));
        let m = mono_seq(c, s);
        assert forall|i: int| 0 <= i < m.len() implies #[trigger] m[i] < f.size() by {}
        crate::poly_laws::law_mult_poly_eval(f, pow, prim, d, m, 0);
        let prod = f.conv(d, m);
        assert(f.mult_poly_out(d, m) == Outcome::Val(prod));
        crate::poly_laws::lemma_lead_product(f, pow, prim, d, c, s, dd + 1);
        law_mult_commutes(f, ld, c);
        lemma_deg_of(m);
        assert(deg_of(m) == s) by {
            lemma_deg_upto(m, m.len());
            if deg_of(m) < s {
                assert(m[s as int] == 0);
            }
        }
        assert(prod.len() == rd + 1);
        assert(prod[rd as int] == lr);
        lemma_deg_of(prod);
        assert(deg_of(prod) == rd);
        lemma_sum_poly_coef(f, pow, prim, rem, prod);
        let nr = f.sum_poly_out(rem, prod)->Val_0;
        assert(nr.len() == rd + 1);
        assert(coef(nr, rd as int) == lr ^ lr);
        lemma_xor(lr, 0, 0, 0);
        lemma_deg_upto(nr, rd);
        assert(deg_of(nr) < rd);
        let q2 = q.update(s as int, c);
        assert(f.div_loop(rem, q, d) == f.div_loop(nr, q2, d));
        assert forall|i: int| 0 <= i < q2.len() implies #[trigger] q2[i] < f.size() by {}
        let n = q.len();
        // the quotient gains c X^s, the remainder loses c X^s * d
        assert forall|i: int| 0 <= i < n implies coef(q2, i) == coef(q, i) ^ coef(m, i) by {
            let qi = q[i];
            if i == s {
                lemma_xor(c, 0, 0, 0);
            } else {
                lemma_xor(qi, 0, 0, 0);
            }
        }
        assert forall|i: int| 0 <= i < n && i != s implies coef(m, i) == 0 by {}
        assert forall|j: int| j != s implies coef(m, j) == 0 by {}
        assert forall|k: int| k >= 0 implies #[trigger] coef(nr, k) ^ pc(f, q2, d, k, q2.len()) == coef(p, k) by {
            lemma_pc_xor(f, pow, prim, q2, q, m, d, k, n);
            lemma_pc_single_left(f, m, d, s as int, c, k, n);
            lemma_conv_coef(f, d, m, k);
            lemma_pc_single_right(f, d, m, s as int, c, k, d.len());
            let cd = coef(d, k - s);
            if !(0 <= k - s < d.len()) {
                assert(cd == 0);
                lemma_table_mult_zero(f, c);
            }
            law_mult_commutes(f, cd, c);
            let t = f.table_mult(cd, c);
            assert(coef(prod, k) == t);
            assert(pc(f, m, d, k, n) == t);
            lemma_xor(coef(rem, k), t, pc(f, q, d, k, n), 0);
        }
        lemma_div_loop_coef(f, pow, prim, nr, q2, d, p);
    }
}

/// Law: dividing the product of two nonzero polynomials by one of them
/// gives back the other, up to its degree, and a zero remainder.
pub proof fn law_div_exact(f: &GaloisField, pow: usize, prim: usize, a: Seq<usize>, b: Seq<usize>)
    requires
        is_field(f, pow, prim),
        elements(a, f.size()),
        elements(b, f.size()),
        a.len() > 0,
        b.len() > 0,
        a[deg_of(a) as int] != 0,
        b[deg_of(b) as int] != 0,
    ensures
        f.mult_poly_out(a, b) matches Outcome::Val(p) && (f.div_poly_out(p, b) matches Outcome::Val((q, r))
            && q == a.take(deg_of(a) + 1int)
            && forall|i: int| 0 <= i < r.len() ==> r[i] == 0),
{
    lemma_tables(f, pow, prim);
    lemma_deg_of(a);
    lemma_deg_of(b);
    let da = deg_of(a);
    let db = deg_of(b);
    let n = da + 1;
    crate::poly_laws::law_mult_poly_eval(f, pow, prim, a, b, 0);
    let p = f.conv(a, b);
    assert(f.mult_poly_out(a, b) == Outcome::Val(p));
    assert forall|i: int| i > da implies coef(a, i) == 0 by {
        lemma_coef_beyond_deg(a, i);
    }
    assert forall|j: int| j > db implies coef(b, j) == 0 by {
        lemma_coef_beyond_deg(b, j);
    }
    // the product has degree da + db
    lemma_conv_coef(f, a, b, (da + db) as int);
    lemma_pc_top(f, a, b, da as int, db as int, (da + db) as int, a.len());
    lemma_table_mult_exp(f, pow, prim, a[da as int], b[db as int]);
    assert(p.len() == da + db + 1);
    assert(p[(da + db) as int] != 0);
    assert(deg_of(p) == da + db);
    // every coefficient of the product is a product coefficient over the first n terms of a
    assert forall|k: int| k >= 0 implies #[trigger] coef(p, k) == pc(f, a, b, k, n) by {
        lemma_conv_coef(f, a, b, k);
        lemma_pc_trailing(f, a, b, k, n, a.len());
    }
    if db == 0 {
        let b0 = b[0];
        crate::poly_laws::lemma_div_scan_ok(f, p, b0, 0, n);
        let q = Seq::new(n, |i: int| f.table_div(p[i], b0));
        assert(f.div_poly_out(p, b) == Outcome::Val((q, mono_seq(0, 0))));
        assert forall|j: int| j != 0 implies coef(b, j) == 0 by {
            if j > 0 {
                lemma_coef_beyond_deg(b, j);
            }
        }
        assert forall|i: int| 0 <= i < n implies q[i] == a[i] by {
            lemma_pc_single_right(f, a, b, 0, b0, i, n);
            assert(p[i] == coef(p, i));
            crate::field_laws::law_div_mult(f, pow, prim, a[i], b0);
            law_mult_closed(f, a[i], b0);
        }
        assert(q =~= a.take(n as int));
    } else {
        let q0 = Seq::new(n, |i: int| 0usize);
        assert(f.div_poly_out(p, b) == f.div_loop(p, q0, b));
        assert forall|i: int| 0 <= i < q0.len() implies #[trigger] q0[i] < f.size() by {}
        assert forall|k: int| k >= 0 implies #[trigger] coef(p, k) ^ pc(f, q0, b, k, q0.len()) == coef(p, k) by {
            lemma_pc_trailing(f, q0, b, k, 0, n);
            lemma_xor(coef(p, k), 0, 0, 0);
        }
        crate::poly_laws::law_mult_poly_eval(f, pow, prim, a, b, 0);
        lemma_div_loop_coef(f, pow, prim, p, q0, b, p);
        let (q, r) = f.div_loop(p, q0, b)->Val_0;
        let e = Seq::new(n, |i: int| q[i] ^ coef(a, i));
        assert forall|i: int| 0 <= i < e.len() implies #[trigger] e[i] < f.size() by {
            lemma_xor_bound(q[i], coef(a, i), f.size() as usize);
        }
        // the remainder is (q - a) * b, coefficient by coefficient
        assert forall|k: int| k >= 0 implies #[trigger] coef(r, k) == pc(f, e, b, k, n) by {
            lemma_pc_xor(f, pow, prim, e, q, a, b, k, n);
            let rk = coef(r, k);
            let qk = pc(f, q, b, k, n);
            let ak = pc(f, a, b, k, n);
            assert(rk ^ qk == ak);
            lemma_xor(rk, qk, 0, 0);
            lemma_xor(ak, qk, 0, 0);
        }
        // so q - a is zero: otherwise the remainder would reach the divisor's degree
        lemma_deg_of(e);
        lemma_deg_of(r);
        let de = deg_of(e);
        if exists|i: int| 0 <= i < n && e[i] != 0 {
            let i = choose|i: int| 0 <= i < n && e[i] != 0;
            assert(e[de as int] != 0);
            assert forall|t: int| t > de implies coef(e, t) == 0 by {
                lemma_coef_beyond_deg(e, t);
            }
            lemma_pc_top(f, e, b, de as int, db as int, (de + db) as int, n);
            lemma_table_mult_exp(f, pow, prim, e[de as int], b[db as int]);
            assert(coef(r, (de + db) as int) != 0);
            assert(false);
        }
        assert forall|i: int| 0 <= i < n implies q[i] == a[i] by {
            assert(e[i] == 0);
            lemma_xor(q[i], a[i], 0, 0);
            lemma_xor(a[i], 0, 0, 0);
        }
        assert(q =~= a.take(n as int));
        assert forall|i: int| 0 <= i < r.len() implies r[i] == 0 by {
            assert(coef(r, i) == pc(f, e, b, i, n));
            lemma_pc_trailing(f, e, b, i, 0, n);
        }
    }
}

/// Law: polynomial addition, coefficient by coefficient (so up to trailing
/// zeros), in any field that `GaloisField::new` builds: adding the same
/// polynomial twice gives back the other one, the zero polynomial is the
/// identity, and the sum commutes.
pub proof fn law_sum_poly_coefs(f: &GaloisField, a: Seq<usize>, b: Seq<usize>)
    requires
        f.wf(),
        elements(a, f.size()),
        elements(b, f.size()),
        a.len() > 0,
        b.len() > 0,
    ensures
        f.sum_poly_out(a, b) matches Outcome::Val(s) && (f.sum_poly_out(s, a) matches Outcome::Val(t)
            && forall|k: int| k >= 0 ==> #[trigger] coef(t, k) == coef(b, k)),
        f.sum_poly_out(a, mono_seq(0, 0)) matches Outcome::Val(z)
            && forall|k: int| k >= 0 ==> #[trigger] coef(z, k) == coef(a, k),
        f.sum_poly_out(a, b) matches Outcome::Val(s1) && (f.sum_poly_out(b, a) matches Outcome::Val(s2)
            && forall|k: int| k >= 0 ==> #[trigger] coef(s1, k) == coef(s2, k)),
{
    lemma_sum_poly_coef_wf(f, a, b);
    lemma_sum_poly_coef_wf(f, b, a);
    let s = f.sum_poly_out(a, b)->Val_0;
    lemma_sum_poly_coef_wf(f, s, a);
    let t = f.sum_poly_out(s, a)->Val_0;
    let s2 = f.sum_poly_out(b, a)->Val_0;
    let zero = mono_seq(0, 0);
    assert forall|i: int| 0 <= i < zero.len() implies #[trigger] zero[i] < f.size() by {}
    lemma_sum_poly_coef_wf(f, a, zero);
    let z = f.sum_poly_out(a, zero)->Val_0;
    assert forall|k: int| k >= 0 implies #[trigger] coef(t, k) == coef(b, k) by {
        assert(coef(s, k) == coef(a, k) ^ coef(b, k));
        lemma_xor(coef(a, k), coef(b, k), 0, 0);
    }
    assert forall|k: int| k >= 0 implies #[trigger] coef(z, k) == coef(a, k) by {
        assert(coef(zero, k) == 0);
        lemma_xor(coef(a, k), 0, 0, 0);
    }
    assert forall|k: int| k >= 0 implies #[trigger] coef(s, k) == coef(s2, k) by {
        lemma_xor(coef(a, k), coef(b, k), 0, 0);
    }
}

/// The number of zeros of `s` among the field elements below `b`.
pub open spec fn nzeros(f: &GaloisField, s: Seq<usize>, b: nat) -> nat
    decreases b,
{
    if b == 0 {
        0
    } else {
        nzeros(f, s, (b - 1) as nat) + if f.peval(s, (b - 1) as usize, s.len()) == 0 { 1nat } else { 0nat }
    }
}

/// The zeros that `zeros_below` lists are `nzeros` many.
pub proof fn lemma_zeros_below_len(f: &GaloisField, s: Seq<usize>, b: nat)
    ensures
        crate::poly_laws::zeros_below(f, s, b).len() == nzeros(f, s, b),
    decreases b,
{
    if b > 0 {
        lemma_zeros_below_len(f, s, (b - 1) as nat);
    }
}

/// Every zero of `s` below `b` is `r` or a zero of `t`, so `s` has at most
/// one zero more than `t` there.
proof fn lemma_nzeros_split(f: &GaloisField, s: Seq<usize>, t: Seq<usize>, r: usize, b: nat)
    requires
        b <= usize::MAX,
        forall|x: usize| x < b && #[trigger] f.peval(s, x, s.len()) == 0 ==> x == r || f.peval(t, x, t.len()) == 0,
    ensures
        nzeros(f, s, b) <= nzeros(f, t, b) + if r < b { 1nat } else { 0nat },
    decreases b,
{
    if b > 0 {
        lemma_nzeros_split(f, s, t, r, (b - 1) as nat);
        let x = (b - 1) as usize;
        assert(x == b - 1);
        if f.peval(s, x, s.len()) == 0 {
            assert(x == r || f.peval(t, x, t.len()) == 0);
        }
        assert(nzeros(f, s, b) == nzeros(f, s, (b - 1) as nat) + if f.peval(s, x, s.len()) == 0 { 1nat } else { 0nat });
        assert(nzeros(f, t, b) == nzeros(f, t, (b - 1) as nat) + if f.peval(t, x, t.len()) == 0 { 1nat } else { 0nat });
    }
}

/// A polynomial that is zero at no element below `b` has no zeros there.
proof fn lemma_nzeros_none(f: &GaloisField, s: Seq<usize>, b: nat)
    requires
        forall|x: usize| x < b ==> #[trigger] f.peval(s, x, s.len()) != 0,
    ensures
        nzeros(f, s, b) == 0,
    decreases b,
{
    if b > 0 {
        lemma_nzeros_none(f, s, (b - 1) as nat);
    }
}

/// Dividing out a zero `r` of a nonzero polynomial `s`: the quotient is
/// nonzero, of smaller degree, and vanishes at every other zero of `s`.
pub proof fn lemma_factor(f: &GaloisField, pow: usize, prim: usize, s: Seq<usize>, r: usize) -> (q: Seq<usize>)
    requires
        is_field(f, pow, prim),
        elements(s, f.size()),
        s.len() > 0,
        exists|i: int| 0 <= i < s.len() && s[i] != 0,
        r < f.size(),
        f.peval(s, r, s.len()) == 0,
    ensures
        elements(q, f.size()),
        q.len() > 0,
        exists|i: int| 0 <= i < q.len() && q[i] != 0,
        deg_of(q) < deg_of(s),
        forall|x: usize| x < f.size() && #[trigger] f.peval(s, x, s.len()) == 0 ==> x == r || f.peval(q, x, q.len()) == 0,
{
    lemma_tables(f, pow, prim);
    lemma_deg_of(s);
    let n = f.size();
    let ds = deg_of(s);
    // a nonzero constant has no zeros
    if ds == 0 {
        let i = choose|i: int| 0 <= i < s.len() && s[i] != 0;
        assert(s[0] != 0);
        crate::poly_laws::lemma_peval_deg(f, pow, prim, s, r, s.len());
        assert(f.peval(s, r, 0) == 0);
        assert(coef(s, 0) == s[0]);
        assert(f.fpow(r, 0) == 1);
        assert(f.peval(s, r, 1) == f.peval(s, r, 0) ^ f.table_mult(coef(s, 0), f.fpow(r, 0)));
        crate::field_laws::law_mult_one(f, pow, prim, s[0]);
        assert(f.table_mult(s[0], 1) == s[0]);
        lemma_xor(s[0], 0, 0, 0);
        assert(f.peval(s, r, 1) == s[0]);
        assert(false);
    }
    // divide by X + r
    let d = seq![r, 1usize];
    assert forall|i: int| 0 <= i < d.len() implies #[trigger] d[i] < f.size() by {}
    assert(crate::poly::deg_upto(d, 0) == 0);
    assert(crate::poly::deg_upto(d, 1) == 0);
    assert(deg_of(d) == 1);
    crate::poly_laws::law_div_poly(f, pow, prim, s, d, r);
    let (q, rem) = f.div_poly_out(s, d)->Val_0;
    let q0 = Seq::new(ds, |i: int| 0usize);
    assert(f.div_poly_out(s, d) == f.div_loop(s, q0, d));
    assert forall|i: int| 0 <= i < q0.len() implies #[trigger] q0[i] < f.size() by {}
    assert forall|k: int| k >= 0 implies #[trigger] coef(s, k) ^ pc(f, q0, d, k, q0.len()) == coef(s, k) by {
        lemma_pc_trailing(f, q0, d, k, 0, ds);
        lemma_xor(coef(s, k), 0, 0, 0);
    }
    lemma_div_loop_coef(f, pow, prim, s, q0, d, s);
    lemma_deg_of(rem);
    lemma_deg_of(q);
    assert(deg_of(rem) == 0);
    // the remainder is the constant rem[0], and it is s(r) = 0
    crate::decode_laws::lemma_eval_lin(f, pow, prim, r, r);
    crate::poly_laws::law_eval(f, pow, prim, d, r);
    lemma_xor(r, 0, 0, 0);
    assert(f.peval(d, r, d.len()) == 0);
    let qr = f.peval(q, r, q.len());
    crate::poly_laws::lemma_peval_bound(f, pow, prim, q, r, q.len());
    lemma_table_mult_zero(f, qr);
    assert forall|x: usize| x < n implies #[trigger] f.peval(rem, x, rem.len()) == rem[0] by {
        crate::poly_laws::lemma_peval_deg(f, pow, prim, rem, x, rem.len());
        assert(f.peval(rem, x, 0) == 0);
        assert(coef(rem, 0) == rem[0]);
        assert(f.fpow(x, 0) == 1);
        crate::field_laws::law_mult_one(f, pow, prim, rem[0]);
        lemma_xor(rem[0], 0, 0, 0);
    }
    lemma_xor(f.peval(rem, r, rem.len()), 0, 0, 0);
    assert(rem[0] == 0);
    // the quotient is nonzero
    if forall|i: int| 0 <= i < q.len() ==> q[i] == 0 {
        assert forall|k: int| k >= 0 implies coef(s, k) == 0 by {
            lemma_pc_trailing(f, q, d, k, 0, q.len());
            lemma_xor(coef(rem, k), 0, 0, 0);
            if k > 0 {
                crate::poly_laws::lemma_coef_beyond_deg(rem, k);
            }
        }
        let i = choose|i: int| 0 <= i < s.len() && s[i] != 0;
        assert(coef(s, i) == s[i]);
        assert(false);
    }
    // every zero of s is r or a zero of q
    assert forall|x: usize| x < n && #[trigger] f.peval(s, x, s.len()) == 0 implies x == r || f.peval(q, x, q.len()) == 0 by {
        {
            crate::poly_laws::law_div_poly(f, pow, prim, s, d, x);
            crate::decode_laws::lemma_eval_lin(f, pow, prim, r, x);
            crate::poly_laws::law_eval(f, pow, prim, d, x);
            let qx = f.peval(q, x, q.len());
            let dx = f.peval(d, x, d.len());
            crate::poly_laws::lemma_peval_bound(f, pow, prim, q, x, q.len());
            lemma_xor(f.table_mult(qx, dx), 0, 0, 0);
            if qx != 0 && x != r {
                lemma_xor_bound(r, x, n as usize);
                lemma_xor(r, x, 0, 0);
                lemma_xor(r, 0, 0, 0);
                assert(dx != 0);
                lemma_table_mult_exp(f, pow, prim, qx, dx);
            }
        }
    }
    q
}

/// Law: a polynomial with a nonzero coefficient has at most as many zeros in
/// the field as its degree.
pub proof fn law_roots_bound(f: &GaloisField, pow: usize, prim: usize, s: Seq<usize>)
    requires
        is_field(f, pow, prim),
        elements(s, f.size()),
        s.len() > 0,
        exists|i: int| 0 <= i < s.len() && s[i] != 0,
    ensures
        nzeros(f, s, f.size()) <= deg_of(s),
        crate::poly_laws::zeros_below(f, s, f.size()).len() <= deg_of(s),
        f.roots_out(s) matches Outcome::Val(z) && z.len() <= deg_of(s),
    decreases deg_of(s),
{
    crate::poly_laws::law_roots(f, pow, prim, s);
    lemma_tables(f, pow, prim);
    lemma_deg_of(s);
    lemma_zeros_below_len(f, s, f.size());
    let n = f.size();
    if forall|x: usize| x < n ==> #[trigger] f.peval(s, x, s.len()) != 0 {
        lemma_nzeros_none(f, s, n);
    } else {
        let r = choose|x: usize| x < n && f.peval(s, x, s.len()) == 0;
        let q = lemma_factor(f, pow, prim, s, r);
        law_roots_bound(f, pow, prim, q);
        lemma_nzeros_split(f, s, q, r, n);
    }
}

/// The zeros below `b` are a prefix of the zeros below any `c >= b`.
pub proof fn lemma_zeros_prefix(f: &GaloisField, s: Seq<usize>, b: nat, c: nat)
    requires
        b <= c,
    ensures
        crate::poly_laws::zeros_below(f, s, b).len() <= crate::poly_laws::zeros_below(f, s, c).len(),
        crate::poly_laws::zeros_below(f, s, c).take(crate::poly_laws::zeros_below(f, s, b).len() as int)
            == crate::poly_laws::zeros_below(f, s, b),
    decreases c,
{
    let zb = crate::poly_laws::zeros_below(f, s, b);
    if b < c {
        lemma_zeros_prefix(f, s, b, (c - 1) as nat);
        let prev = crate::poly_laws::zeros_below(f, s, (c - 1) as nat);
        let zc = crate::poly_laws::zeros_below(f, s, c);
        assert(zc == prev || zc == prev.push((c - 1) as usize));
        assert(zc.take(zb.len() as int) =~= prev.take(zb.len() as int));
    } else {
        assert(zb.take(zb.len() as int) =~= zb);
    }
}

/// Every zero of `s` below `b` is listed among the zeros below `b`.
pub proof fn lemma_zero_listed(f: &GaloisField, s: Seq<usize>, b: nat, x: usize)
    requires
        x < b,
        b <= usize::MAX,
        f.peval(s, x, s.len()) == 0,
    ensures
        crate::poly_laws::zeros_below(f, s, b).contains(x),
    decreases b,
{
    let z = crate::poly_laws::zeros_below(f, s, b);
    let prev = crate::poly_laws::zeros_below(f, s, (b - 1) as nat);
    if x < b - 1 {
        lemma_zero_listed(f, s, (b - 1) as nat, x);
        let i = choose|i: int| 0 <= i < prev.len() && prev[i] == x;
        if f.peval(s, (b - 1) as usize, s.len()) == 0 {
            assert(z[i] == x);
        } else {
            assert(z == prev);
        }
    } else {
        assert(x == (b - 1) as usize);
        assert(z == prev.push(x));
        assert(z[prev.len() as int] == x);
    }
}

/// Law: `roots` of a polynomial with a nonzero coefficient lists every zero
/// in the field: its early stop at `deg` zeros never leaves one out.
pub proof fn law_roots_complete(f: &GaloisField, pow: usize, prim: usize, s: Seq<usize>)
    requires
        is_field(f, pow, prim),
        elements(s, f.size()),
        s.len() > 0,
        exists|i: int| 0 <= i < s.len() && s[i] != 0,
    ensures
        f.roots_out(s) == Outcome::Val(crate::poly_laws::zeros_below(f, s, f.size())),
        forall|x: usize| x < f.size() && f.peval(s, x, s.len()) == 0
            ==> #[trigger] crate::poly_laws::zeros_below(f, s, f.size()).contains(x),
{
    lemma_tables(f, pow, prim);
    crate::poly_laws::law_roots(f, pow, prim, s);
    law_roots_bound(f, pow, prim, s);
    let n = f.size();
    let zs = crate::poly_laws::zeros_below(f, s, n);
    let b = choose|b: nat| b <= n && f.roots_out(s) == Outcome::Val(crate::poly_laws::zeros_below(f, s, b))
        && (b == n || crate::poly_laws::zeros_below(f, s, b).len() == deg_of(s));
    let zb = crate::poly_laws::zeros_below(f, s, b);
    if b < n {
        lemma_zeros_prefix(f, s, b, n);
        assert(zb.len() == zs.len());
        assert(zs.take(zb.len() as int) =~= zs);
    }
    assert forall|x: usize| x < n && f.peval(s, x, s.len()) == 0 implies #[trigger] zs.contains(x) by {
        lemma_zero_listed(f, s, n as nat, x);
    }
}

/// The elements that `zeros_below` lists are zeros of `s`.
pub proof fn lemma_listed_are_zeros(f: &GaloisField, s: Seq<usize>, b: nat)
    ensures
        forall|i: int| 0 <= i < crate::poly_laws::zeros_below(f, s, b).len()
            ==> f.peval(s, #[trigger] crate::poly_laws::zeros_below(f, s, b)[i], s.len()) == 0,
    decreases b,
{
    if b > 0 {
        lemma_listed_are_zeros(f, s, (b - 1) as nat);
        let prev = crate::poly_laws::zeros_below(f, s, (b - 1) as nat);
        let z = crate::poly_laws::zeros_below(f, s, b);
        let x = (b - 1) as usize;
        assert forall|i: int| 0 <= i < z.len() implies f.peval(s, #[trigger] z[i], s.len()) == 0 by {
            if f.peval(s, x, s.len()) == 0 {
                assert(z == prev.push(x));
                if i < prev.len() {
                    assert(z[i] == prev[i]);
                }
            } else {
                assert(z == prev);
            }
        }
    }
}

} // verus!
