//! Laws of polynomial arithmetic over a field built from a primitive
//! polynomial, stated through evaluation: the sum and product of
//! polynomials evaluate to the sum and product of their values, and long
//! division leaves a remainder with `quotient * divisor + remainder = dividend`.
use vstd::prelude::*;
use crate::outcome::Outcome;
use crate::gf::GaloisField;
use crate::gfpoly::{lemma_xor_bound, lemma_xor};
use crate::poly::{deg_of, lemma_deg_of, mono_seq};
use crate::field_laws::{primitive, lemma_tables, law_mult_one, law_mult_commutes, law_mult_closed,
    law_mult_distributes, law_mult_assoc, law_sum_inverse, law_mult_zero};

verus! {

/// Coefficient `i` of `s`, zero beyond its end.
pub open spec fn coef(s: Seq<usize>, i: int) -> usize {
    if 0 <= i < s.len() { s[i] } else { 0 }
}

/// Every entry of `s` is a field element.
pub open spec fn elements(s: Seq<usize>, size: nat) -> bool {
    forall|i: int| 0 <= i < s.len() ==> #[trigger] s[i] < size
}

/// The field built from `pow` and `prim`, a primitive polynomial.
pub open spec fn is_field(f: &GaloisField, pow: usize, prim: usize) -> bool {
    f.built_from(pow, prim) && primitive(pow, prim)
}

impl GaloisField {
    /// `x^i` in the field.
    pub open spec fn fpow(&self, x: usize, i: nat) -> usize
        decreases i,
    {
        if i == 0 { 1 } else { self.table_mult(self.fpow(x, (i - 1) as nat), x) }
    }

    /// The sum of the first `n` terms `s[i] * x^i`.
    pub open spec fn peval(&self, s: Seq<usize>, x: usize, n: nat) -> usize
        decreases n,
    {
        if n == 0 {
            0
        } else {
            self.peval(s, x, (n - 1) as nat) ^ self.table_mult(coef(s, n - 1), self.fpow(x, (n - 1) as nat))
        }
    }
}

/// Powers of a field element are field elements.
pub proof fn lemma_fpow_bound(f: &GaloisField, pow: usize, prim: usize, x: usize, i: nat)
    requires
        is_field(f, pow, prim),
        x < f.size(),
    ensures
        f.fpow(x, i) < f.size(),
    decreases i,
{
    lemma_tables(f, pow, prim);
    if i > 0 {
        lemma_fpow_bound(f, pow, prim, x, (i - 1) as nat);
        law_mult_closed(f, f.fpow(x, (i - 1) as nat), x);
    }
}

/// The value of a polynomial over the field is a field element.
pub proof fn lemma_peval_bound(f: &GaloisField, pow: usize, prim: usize, s: Seq<usize>, x: usize, n: nat)
    requires
        is_field(f, pow, prim),
        elements(s, f.size()),
        x < f.size(),
    ensures
        f.peval(s, x, n) < f.size(),
    decreases n,
{
    lemma_tables(f, pow, prim);
    if n > 0 {
        lemma_peval_bound(f, pow, prim, s, x, (n - 1) as nat);
        lemma_fpow_bound(f, pow, prim, x, (n - 1) as nat);
        let c = coef(s, n - 1);
        assert(c < f.size());
        law_mult_closed(f, c, f.fpow(x, (n - 1) as nat));
        lemma_xor_bound(f.peval(s, x, (n - 1) as nat), f.table_mult(c, f.fpow(x, (n - 1) as nat)), f.size() as usize);
    }
}

/// `eval_poly_at` on field elements is the polynomial's value.
pub proof fn lemma_eval_state_ok(f: &GaloisField, pow: usize, prim: usize, s: Seq<usize>, x: usize, i: nat)
    requires
        is_field(f, pow, prim),
        elements(s, f.size()),
        x < f.size(),
        1 <= i <= s.len(),
    ensures
        f.eval_state(s, x, i) == Outcome::Val((f.peval(s, x, i), f.fpow(x, i))),
    decreases i,
{
    lemma_tables(f, pow, prim);
    if i == 1 {
        law_mult_one(f, pow, prim, s[0]);
        law_mult_one(f, pow, prim, x);
        law_mult_commutes(f, 1, x);
        assert(f.fpow(x, 0) == 1);
        let s0 = s[0];
        lemma_xor(s0, 0, 0, 0);
    } else {
        lemma_eval_state_ok(f, pow, prim, s, x, (i - 1) as nat);
        let acc = f.peval(s, x, (i - 1) as nat);
        let xc = f.fpow(x, (i - 1) as nat);
        lemma_peval_bound(f, pow, prim, s, x, (i - 1) as nat);
        lemma_fpow_bound(f, pow, prim, x, (i - 1) as nat);
        law_mult_closed(f, s[i - 1], xc);
        law_mult_closed(f, xc, x);
        assert(coef(s, i - 1) == s[i - 1]);
    }
}

/// Law: for field elements, `eval_poly_at` returns the value of the
/// polynomial, `sum of s[i] * x^i`.
pub proof fn law_eval(f: &GaloisField, pow: usize, prim: usize, s: Seq<usize>, x: usize)
    requires
        is_field(f, pow, prim),
        elements(s, f.size()),
        x < f.size(),
        s.len() > 0,
    ensures
        f.eval_out(s, x) == Outcome::Val(f.peval(s, x, s.len())),
        f.peval(s, x, s.len()) < f.size(),
{
    lemma_eval_state_ok(f, pow, prim, s, x, s.len());
    lemma_peval_bound(f, pow, prim, s, x, s.len());
}

/// Coefficients that are zero from `m` to `n` add nothing.
pub proof fn lemma_peval_trailing(f: &GaloisField, pow: usize, prim: usize, s: Seq<usize>, x: usize, m: nat, n: nat)
    requires
        is_field(f, pow, prim),
        elements(s, f.size()),
        x < f.size(),
        m <= n,
        forall|i: int| m <= i < n ==> coef(s, i) == 0,
    ensures
        f.peval(s, x, n) == f.peval(s, x, m),
    decreases n - m,
{
    if n > m {
        lemma_peval_trailing(f, pow, prim, s, x, m, (n - 1) as nat);
        let p = f.peval(s, x, (n - 1) as nat);
        assert(coef(s, n - 1) == 0);
        lemma_xor(p, 0, 0, 0);
    }
}

/// The value of a polynomial depends only on its coefficients up to its degree.
pub proof fn lemma_peval_deg(f: &GaloisField, pow: usize, prim: usize, s: Seq<usize>, x: usize, n: nat)
    requires
        is_field(f, pow, prim),
        elements(s, f.size()),
        x < f.size(),
        n >= deg_of(s) + 1,
    ensures
        f.peval(s, x, n) == f.peval(s, x, deg_of(s) + 1),
{
    lemma_deg_of(s);
    lemma_peval_trailing(f, pow, prim, s, x, deg_of(s) + 1, n);
}

/// Evaluation adds: coefficientwise sums evaluate to sums of values.
pub proof fn lemma_peval_xor(f: &GaloisField, pow: usize, prim: usize, r: Seq<usize>, a: Seq<usize>, b: Seq<usize>, x: usize, n: nat)
    requires
        is_field(f, pow, prim),
        elements(a, f.size()),
        elements(b, f.size()),
        elements(r, f.size()),
        x < f.size(),
        forall|i: int| 0 <= i < n ==> coef(r, i) == coef(a, i) ^ coef(b, i),
    ensures
        f.peval(r, x, n) == f.peval(a, x, n) ^ f.peval(b, x, n),
    decreases n,
{
    if n == 0 {
        lemma_xor(0, 0, 0, 0);
    } else {
        lemma_peval_xor(f, pow, prim, r, a, b, x, (n - 1) as nat);
        let xp = f.fpow(x, (n - 1) as nat);
        lemma_fpow_bound(f, pow, prim, x, (n - 1) as nat);
        let ca = coef(a, n - 1);
        let cb = coef(b, n - 1);
        assert(ca < f.size() && cb < f.size());
        law_mult_commutes(f, xp, ca ^ cb);
        law_mult_commutes(f, xp, ca);
        law_mult_commutes(f, xp, cb);
        law_mult_distributes(f, pow, prim, xp, ca, cb);
        lemma_tables(f, pow, prim);
        law_mult_closed(f, ca, xp);
        law_mult_closed(f, cb, xp);
        lemma_xor_bound(ca, cb, f.size() as usize);
        law_mult_closed(f, ca ^ cb, xp);
        law_mult_closed(f, xp, ca ^ cb);
        law_mult_closed(f, xp, ca);
        law_mult_closed(f, xp, cb);
        let pa = f.peval(a, x, (n - 1) as nat);
        let pb = f.peval(b, x, (n - 1) as nat);
        let ta = f.table_mult(ca, xp);
        let tb = f.table_mult(cb, xp);
        lemma_xor(pa, pb, ta, tb);
    }
}

/// `coef` of `s` beyond its degree is zero.
pub proof fn lemma_coef_beyond_deg(s: Seq<usize>, i: int)
    requires
        i > deg_of(s),
    ensures
        coef(s, i) == 0,
{
    lemma_deg_of(s);
}

/// Law: the sum of two polynomials evaluates to the sum of their values.
pub proof fn law_sum_poly_eval(f: &GaloisField, pow: usize, prim: usize, a: Seq<usize>, b: Seq<usize>, x: usize)
    requires
        is_field(f, pow, prim),
        elements(a, f.size()),
        elements(b, f.size()),
        a.len() > 0,
        b.len() > 0,
        x < f.size(),
    ensures
        f.sum_poly_out(a, b) matches Outcome::Val(r) && r.len() > 0 && elements(r, f.size())
            && f.eval_out(r, x) == Outcome::Val(f.peval(a, x, a.len()) ^ f.peval(b, x, b.len())),
{
    lemma_tables(f, pow, prim);
    lemma_deg_of(a);
    lemma_deg_of(b);
    let da = deg_of(a);
    let db = deg_of(b);
    let min = if da > db { db + 1 } else { da + 1 };
    let max = if da > db { da + 1 } else { db + 1 };
    let longest = if da > db { a } else { b };
    assert(!f.some_out_of_range(a, b, min));
    let r = Seq::new(max, |i: int| if i < min { a[i] ^ b[i] } else { longest[i] });
    assert(f.sum_poly_out(a, b) == Outcome::Val(r));
    let n = f.size() as usize;
    assert forall|i: int| 0 <= i < r.len() implies #[trigger] r[i] < f.size() by {
        if i < min {
            lemma_xor_bound(a[i], b[i], n);
        }
    }
    let big: nat = a.len() + b.len() + max;
    assert forall|i: int| 0 <= i < big implies coef(r, i) == coef(a, i) ^ coef(b, i) by {
        let ca = coef(a, i);
        let cb = coef(b, i);
        if i < min {
        } else if i < max {
            if da > db {
                lemma_coef_beyond_deg(b, i);
                lemma_xor(ca, 0, 0, 0);
            } else {
                lemma_coef_beyond_deg(a, i);
                lemma_xor(cb, 0, 0, 0);
            }
        } else {
            lemma_coef_beyond_deg(a, i);
            lemma_coef_beyond_deg(b, i);
            lemma_xor(0, 0, 0, 0);
        }
    }
    lemma_peval_xor(f, pow, prim, r, a, b, x, big);
    lemma_peval_trailing(f, pow, prim, r, x, r.len(), big);
    lemma_peval_trailing(f, pow, prim, a, x, a.len(), big);
    lemma_peval_trailing(f, pow, prim, b, x, b.len(), big);
    law_eval(f, pow, prim, r, x);
}

/// `x^(i + j) = x^i * x^j`.
pub proof fn lemma_fpow_add(f: &GaloisField, pow: usize, prim: usize, x: usize, i: nat, j: nat)
    requires
        is_field(f, pow, prim),
        x < f.size(),
    ensures
        f.fpow(x, i + j) == f.table_mult(f.fpow(x, i), f.fpow(x, j)),
    decreases j,
{
    lemma_tables(f, pow, prim);
    lemma_fpow_bound(f, pow, prim, x, i);
    if j == 0 {
        law_mult_one(f, pow, prim, f.fpow(x, i));
    } else {
        lemma_fpow_add(f, pow, prim, x, i, (j - 1) as nat);
        lemma_fpow_bound(f, pow, prim, x, (j - 1) as nat);
        law_mult_assoc(f, pow, prim, f.fpow(x, i), f.fpow(x, (j - 1) as nat), x);
        assert(i + j - 1 == i + (j - 1));
    }
}

/// `s` with every coefficient multiplied by `c`.
pub open spec fn scaled(f: &GaloisField, s: Seq<usize>, c: usize) -> Seq<usize> {
    Seq::new(s.len(), |j: int| f.table_mult(c, s[j]))
}

/// Multiplying a polynomial's value by `c` is evaluating the polynomial
/// with its coefficients multiplied by `c`.
pub proof fn lemma_scale_peval(f: &GaloisField, pow: usize, prim: usize, c: usize, s: Seq<usize>, x: usize, m: nat)
    requires
        is_field(f, pow, prim),
        elements(s, f.size()),
        c < f.size(),
        x < f.size(),
    ensures
        f.table_mult(c, f.peval(s, x, m)) == f.peval(scaled(f, s, c), x, m),
        elements(scaled(f, s, c), f.size()),
    decreases m,
{
    lemma_tables(f, pow, prim);
    let sc = scaled(f, s, c);
    assert forall|j: int| 0 <= j < sc.len() implies #[trigger] sc[j] < f.size() by {
        law_mult_closed(f, c, s[j]);
    }
    if m == 0 {
    } else {
        lemma_scale_peval(f, pow, prim, c, s, x, (m - 1) as nat);
        let p = f.peval(s, x, (m - 1) as nat);
        let cs = coef(s, m - 1);
        let xp = f.fpow(x, (m - 1) as nat);
        lemma_peval_bound(f, pow, prim, s, x, (m - 1) as nat);
        lemma_fpow_bound(f, pow, prim, x, (m - 1) as nat);
        law_mult_closed(f, cs, xp);
        law_mult_distributes(f, pow, prim, c, p, f.table_mult(cs, xp));
        law_mult_assoc(f, pow, prim, c, cs, xp);
        assert(coef(sc, m - 1) == f.table_mult(c, cs));
    }
}

/// `(a b)(x y) = (a x)(b y)`.
pub proof fn lemma_mult_swap4(f: &GaloisField, pow: usize, prim: usize, a: usize, b: usize, x: usize, y: usize)
    requires
        is_field(f, pow, prim),
        a < f.size(),
        b < f.size(),
        x < f.size(),
        y < f.size(),
    ensures
        f.table_mult(f.table_mult(a, b), f.table_mult(x, y)) == f.table_mult(f.table_mult(a, x), f.table_mult(b, y)),
{
    lemma_tables(f, pow, prim);
    law_mult_closed(f, a, b);
    law_mult_closed(f, x, y);
    law_mult_closed(f, b, x);
    law_mult_closed(f, x, b);
    law_mult_closed(f, b, y);
    law_mult_closed(f, a, x);
    let bx = f.table_mult(b, x);
    law_mult_closed(f, bx, y);
    law_mult_closed(f, f.table_mult(x, b), y);
    law_mult_closed(f, x, f.table_mult(b, y));
    law_mult_assoc(f, pow, prim, a, b, f.table_mult(x, y));
    law_mult_assoc(f, pow, prim, b, x, y);
    law_mult_commutes(f, b, x);
    law_mult_assoc(f, pow, prim, x, b, y);
    law_mult_assoc(f, pow, prim, a, x, f.table_mult(b, y));
}

/// The row of the product contributed by `a[r]`: `a[r] x^r * b`.
pub open spec fn term_row(f: &GaloisField, a: Seq<usize>, b: Seq<usize>, sd: nat, r: nat, len: nat) -> Seq<usize> {
    Seq::new(len, |k: int| f.conv_term(a, b, sd, r, k as nat))
}

/// The rows of the product below `r`, summed.
pub open spec fn rows_sum(f: &GaloisField, a: Seq<usize>, b: Seq<usize>, sd: nat, r: nat, len: nat) -> Seq<usize> {
    Seq::new(len, |k: int| f.conv_rows(a, b, sd, r, k as nat))
}

/// The summed rows of a product are field elements.
pub proof fn lemma_rows_elements(f: &GaloisField, pow: usize, prim: usize, a: Seq<usize>, b: Seq<usize>, sd: nat, r: nat, len: nat)
    requires
        is_field(f, pow, prim),
        elements(a, f.size()),
        elements(b, f.size()),
        r <= a.len(),
        sd < b.len(),
    ensures
        elements(rows_sum(f, a, b, sd, r, len), f.size()),
        r < a.len() ==> elements(term_row(f, a, b, sd, r, len), f.size()),
{
    lemma_tables(f, pow, prim);
    assert forall|i: int, c: int| 0 <= i < r && 0 <= c <= sd implies (#[trigger] f.mult_out(a[i], b[c])) is Val by {
        law_mult_closed(f, a[i], b[c]);
    }
    assert forall|k: int| 0 <= k < len implies #[trigger] rows_sum(f, a, b, sd, r, len)[k] < f.size() by {
        f.lemma_conv_rows_bound(a, b, sd, r, k as nat);
    }
    if r < a.len() {
        assert forall|k: int| 0 <= k < len implies #[trigger] term_row(f, a, b, sd, r, len)[k] < f.size() by {
            if r <= k && k - r <= sd {
                law_mult_closed(f, a[r as int], b[k - r]);
            }
        }
    }
}

/// The row of `a[r]` evaluates to `a[r] x^r` times the value of `b`.
pub proof fn lemma_term_row(f: &GaloisField, pow: usize, prim: usize, a: Seq<usize>, b: Seq<usize>, sd: nat, r: nat, len: nat, x: usize, n: nat)
    requires
        is_field(f, pow, prim),
        elements(a, f.size()),
        elements(b, f.size()),
        r < a.len(),
        sd < b.len(),
        x < f.size(),
        n <= len,
        n <= r + sd + 1,
    ensures
        f.peval(term_row(f, a, b, sd, r, len), x, n)
            == if n <= r { 0usize } else {
                f.table_mult(f.table_mult(a[r as int], f.fpow(x, r)), f.peval(b, x, (n - r) as nat))
            },
    decreases n,
{
    lemma_tables(f, pow, prim);
    let t = term_row(f, a, b, sd, r, len);
    lemma_rows_elements(f, pow, prim, a, b, sd, r, len);
    let ar = a[r as int];
    lemma_fpow_bound(f, pow, prim, x, r);
    let xr = f.fpow(x, r);
    law_mult_closed(f, ar, xr);
    let cr = f.table_mult(ar, xr);
    if n == 0 {
    } else {
        lemma_term_row(f, pow, prim, a, b, sd, r, len, x, (n - 1) as nat);
        let k = (n - 1) as nat;
        let xk = f.fpow(x, k);
        lemma_fpow_bound(f, pow, prim, x, k);
        if n <= r {
            assert(coef(t, k as int) == 0);
            law_mult_commutes(f, 0, xk);
            lemma_xor(0, 0, 0, 0);
        } else {
            let j = (k - r) as nat;
            let bj = b[j as int];
            lemma_fpow_bound(f, pow, prim, x, j);
            let xj = f.fpow(x, j);
            assert(coef(t, k as int) == f.table_mult(ar, bj));
            lemma_fpow_add(f, pow, prim, x, r, j);
            assert(r + j == k);
            lemma_mult_swap4(f, pow, prim, ar, bj, xr, xj);
            law_mult_closed(f, bj, xj);
            let pb = f.peval(b, x, j);
            lemma_peval_bound(f, pow, prim, b, x, j);
            law_mult_distributes(f, pow, prim, cr, pb, f.table_mult(bj, xj));
            assert(coef(b, j as int) == bj);
            if n - 1 <= r {
                assert(j == 0);
                assert(pb == 0);
                law_mult_closed(f, cr, 0);
                let v = f.table_mult(bj, xj);
                let w = f.table_mult(cr, v);
                lemma_xor(w, 0, 0, 0);
                lemma_xor(v, 0, 0, 0);
            }
        }
    }
}

/// The rows below `r` evaluate to `a` (up to `r`) times `b`.
pub proof fn lemma_rows_sum(f: &GaloisField, pow: usize, prim: usize, a: Seq<usize>, b: Seq<usize>, sd: nat, r: nat, len: nat, x: usize)
    requires
        is_field(f, pow, prim),
        elements(a, f.size()),
        elements(b, f.size()),
        r <= a.len(),
        sd < b.len(),
        x < f.size(),
        len >= r + sd,
    ensures
        f.peval(rows_sum(f, a, b, sd, r, len), x, len)
            == f.table_mult(f.peval(a, x, r), f.peval(b, x, sd + 1)),
    decreases r,
{
    lemma_tables(f, pow, prim);
    let bv = f.peval(b, x, sd + 1);
    lemma_peval_bound(f, pow, prim, b, x, sd + 1);
    lemma_rows_elements(f, pow, prim, a, b, sd, r, len);
    if r == 0 {
        let z = rows_sum(f, a, b, sd, 0, len);
        lemma_peval_trailing(f, pow, prim, z, x, 0, len);
        law_mult_commutes(f, 0, bv);
    } else {
        let r1 = (r - 1) as nat;
        lemma_rows_sum(f, pow, prim, a, b, sd, r1, len, x);
        lemma_rows_elements(f, pow, prim, a, b, sd, r1, len);
        let prev = rows_sum(f, a, b, sd, r1, len);
        let t = term_row(f, a, b, sd, r1, len);
        let cur = rows_sum(f, a, b, sd, r, len);
        assert forall|k: int| 0 <= k < len implies coef(cur, k) == coef(prev, k) ^ coef(t, k) by {
        }
        lemma_peval_xor(f, pow, prim, cur, prev, t, x, len);
        lemma_term_row(f, pow, prim, a, b, sd, r1, len, x, r1 + sd + 1);
        assert forall|k: int| r1 + sd + 1 <= k < len implies coef(t, k) == 0 by {}
        lemma_peval_trailing(f, pow, prim, t, x, r1 + sd + 1, len);
        let ar = a[r1 as int];
        lemma_fpow_bound(f, pow, prim, x, r1);
        let xr = f.fpow(x, r1);
        law_mult_closed(f, ar, xr);
        let cr = f.table_mult(ar, xr);
        let pa = f.peval(a, x, r1);
        lemma_peval_bound(f, pow, prim, a, x, r1);
        assert(coef(a, r1 as int) == ar);
        law_mult_distributes(f, pow, prim, bv, pa, cr);
        law_mult_commutes(f, pa, bv);
        law_mult_commutes(f, cr, bv);
        lemma_xor_bound(pa, cr, f.size() as usize);
        law_mult_commutes(f, pa ^ cr, bv);
        assert(r1 + sd + 1 - r1 == sd + 1);
    }
}

/// `mult_poly` accepts every pair of coefficients of polynomials over the field.
pub proof fn lemma_mult_scan_ok(f: &GaloisField, pow: usize, prim: usize, a: Seq<usize>, b: Seq<usize>, fd: nat, sd: nat, i: nat, j: nat)
    requires
        is_field(f, pow, prim),
        elements(a, f.size()),
        elements(b, f.size()),
        fd < a.len(),
        sd < b.len(),
    ensures
        f.mult_scan(a, b, fd, sd, i, j) == Outcome::Val(()),
    decreases fd + 1 - i, sd + 1 - j,
{
    lemma_tables(f, pow, prim);
    if i <= fd {
        if j > sd {
            lemma_mult_scan_ok(f, pow, prim, a, b, fd, sd, i + 1, 0);
        } else {
            law_mult_closed(f, a[i as int], b[j as int]);
            lemma_mult_scan_ok(f, pow, prim, a, b, fd, sd, i, j + 1);
        }
    }
}

/// Law: the product of two polynomials evaluates to the product of their values.
pub proof fn law_mult_poly_eval(f: &GaloisField, pow: usize, prim: usize, a: Seq<usize>, b: Seq<usize>, x: usize)
    requires
        is_field(f, pow, prim),
        elements(a, f.size()),
        elements(b, f.size()),
        a.len() > 0,
        b.len() > 0,
        x < f.size(),
    ensures
        f.mult_poly_out(a, b) matches Outcome::Val(r) && r.len() > 0 && elements(r, f.size())
            && f.eval_out(r, x) == Outcome::Val(f.table_mult(f.peval(a, x, a.len()), f.peval(b, x, b.len()))),
{
    lemma_tables(f, pow, prim);
    lemma_deg_of(a);
    lemma_deg_of(b);
    let fd = deg_of(a);
    let sd = deg_of(b);
    lemma_mult_scan_ok(f, pow, prim, a, b, fd, sd, 0, 0);
    let len = fd + sd + 1;
    let r = f.conv(a, b);
    assert(r == rows_sum(f, a, b, sd, fd + 1, len));
    lemma_rows_elements(f, pow, prim, a, b, sd, fd + 1, len);
    lemma_rows_sum(f, pow, prim, a, b, sd, fd + 1, len, x);
    lemma_peval_deg(f, pow, prim, a, x, a.len());
    lemma_peval_deg(f, pow, prim, b, x, b.len());
    law_eval(f, pow, prim, r, x);
}

/// `c X^s` evaluates to `c x^s`.
pub proof fn lemma_peval_mono(f: &GaloisField, pow: usize, prim: usize, c: usize, s: nat, x: usize)
    requires
        is_field(f, pow, prim),
        c < f.size(),
        x < f.size(),
    ensures
        elements(mono_seq(c, s), f.size()),
        f.peval(mono_seq(c, s), x, s + 1) == f.table_mult(c, f.fpow(x, s)),
{
    lemma_tables(f, pow, prim);
    let m = mono_seq(c, s);
    assert forall|i: int| 0 <= i < m.len() implies #[trigger] m[i] < f.size() by {}
    assert forall|i: int| 0 <= i < s implies coef(m, i) == 0 by {}
    lemma_peval_trailing(f, pow, prim, m, x, 0, s);
    lemma_fpow_bound(f, pow, prim, x, s);
    law_mult_closed(f, c, f.fpow(x, s));
    let v = f.table_mult(c, f.fpow(x, s));
    lemma_xor(v, 0, 0, 0);
}

/// In the product of `d` with `c X^s`, the coefficient of `X^(deg d + s)` is
/// `d[deg d] * c`.
pub proof fn lemma_lead_product(f: &GaloisField, pow: usize, prim: usize, d: Seq<usize>, c: usize, s: nat, rows: nat)
    requires
        is_field(f, pow, prim),
        elements(d, f.size()),
        c < f.size(),
        rows <= deg_of(d) + 1,
        deg_of(d) < d.len(),
    ensures
        f.conv_rows(d, mono_seq(c, s), s, rows, deg_of(d) + s)
            == if rows == deg_of(d) + 1 { f.table_mult(d[deg_of(d) as int], c) } else { 0usize },
    decreases rows,
{
    lemma_tables(f, pow, prim);
    if rows > 0 {
        lemma_lead_product(f, pow, prim, d, c, s, (rows - 1) as nat);
        let k = deg_of(d) + s;
        if rows == deg_of(d) + 1 {
            let v = f.table_mult(d[deg_of(d) as int], c);
            assert(mono_seq(c, s)[s as int] == c);
            lemma_xor(v, 0, 0, 0);
        } else {
            lemma_xor(0, 0, 0, 0);
        }
    }
}

/// Long division keeps `quotient * divisor + remainder = dividend` at `x`,
/// lowers the remainder's degree below the divisor's, and always finishes.
#[verifier::spinoff_prover]
#[verifier::rlimit(40)]
pub proof fn lemma_div_loop(f: &GaloisField, pow: usize, prim: usize, rem: Seq<usize>, q: Seq<usize>, d: Seq<usize>, x: usize, pv: usize)
    requires
        is_field(f, pow, prim),
        elements(rem, f.size()),
        elements(q, f.size()),
        elements(d, f.size()),
        rem.len() > 0,
        d.len() > 0,
        deg_of(d) >= 1,
        x < f.size(),
        deg_of(rem) >= deg_of(d) ==> deg_of(rem) - deg_of(d) < q.len(),
        forall|k: int| 0 <= k <= deg_of(rem) - deg_of(d) && k < q.len() ==> #[trigger] q[k] == 0,
        f.table_mult(f.peval(q, x, q.len()), f.peval(d, x, d.len())) ^ f.peval(rem, x, rem.len()) == pv,
    ensures
        f.div_loop(rem, q, d) matches Outcome::Val((q2, r2)) && elements(q2, f.size()) && elements(r2, f.size())
            && q2.len() == q.len() && r2.len() > 0 && deg_of(r2) < deg_of(d)
            && f.table_mult(f.peval(q2, x, q2.len()), f.peval(d, x, d.len())) ^ f.peval(r2, x, r2.len()) == pv,
    decreases deg_of(rem),
{
    lemma_tables(f, pow, prim);
    lemma_deg_of(rem);
    lemma_deg_of(d);
    let rd = deg_of(rem);
    let dd = deg_of(d);
    if rd >= dd {
        let s = (rd - dd) as nat;
        let lr = rem[rd as int];
        let ld = d[dd as int];
        assert(lr != 0 && ld != 0);
        let c = f.table_div(lr, ld);
        crate::field_laws::law_div_mult(f, pow, prim, lr, ld);
        assert(f.table_mult(c, ld) == lr);
        assert(c < f.size()) by {
            law_mult_closed(f, lr, ld);
        }
        assert(c != 0);
        assert(f.div_out(lr, ld) == Outcome::Val(c));
        let m = mono_seq(c, s);
        lemma_peval_mono(f, pow, prim, c, s, x);
        lemma_deg_of(m);
        assert(deg_of(m) == s) by {
            crate::poly::lemma_deg_upto(m, m.len());
            if deg_of(m) < s {
                assert(m[s as int] == 0);
            }
        }
        law_mult_poly_eval(f, pow, prim, d, m, x);
        lemma_mult_scan_ok(f, pow, prim, d, m, dd, s, 0, 0);
        let prod = f.conv(d, m);
        assert(f.mult_poly_out(d, m) == Outcome::Val(prod));
        law_eval(f, pow, prim, prod, x);
        let pd = f.peval(d, x, d.len());
        let pm = f.peval(m, x, m.len());
        let pr = f.peval(rem, x, rem.len());
        let pq = f.peval(q, x, q.len());
        let pp = f.peval(prod, x, prod.len());
        assert(pp == f.table_mult(pd, pm));
        // the leading coefficient of the product is that of the remainder
        lemma_lead_product(f, pow, prim, d, c, s, dd + 1);
        law_mult_commutes(f, ld, c);
        assert(prod.len() == rd + 1);
        assert(prod[rd as int] == lr);
        lemma_deg_of(prod);
        assert(deg_of(prod) == rd);
        // the sum cancels it
        law_sum_poly_eval(f, pow, prim, rem, prod, x);
        assert(!f.some_out_of_range(rem, prod, rd + 1));
        let nr = f.sum_poly_out(rem, prod)->Val_0;
        assert(f.sum_poly_out(rem, prod) == Outcome::Val(nr));
        assert(nr.len() == rd + 1);
        assert(nr[rd as int] == lr ^ lr);
        assert(nr[rd as int] == 0) by {
            lemma_xor(lr, 0, 0, 0);
        }
        law_eval(f, pow, prim, nr, x);
        crate::poly::lemma_deg_upto(nr, rd);
        assert(deg_of(nr) < rd);
        let q2 = q.update(s as int, c);
        assert(f.div_loop(rem, q, d) == f.div_loop(nr, q2, d));
        // the quotient gains c X^s
        assert forall|i: int| 0 <= i < q2.len() implies #[trigger] q2[i] < f.size() by {}
        assert forall|k: int| 0 <= k < q.len() implies coef(q2, k) == coef(q, k) ^ coef(m, k) by {
            let qk = q[k];
            if k == s {
                lemma_xor(c, 0, 0, 0);
            } else {
                lemma_xor(qk, 0, 0, 0);
            }
        }
        lemma_peval_xor(f, pow, prim, q2, q, m, x, q.len());
        assert forall|k: int| s + 1 <= k < q.len() implies coef(m, k) == 0 by {}
        lemma_peval_trailing(f, pow, prim, m, x, s + 1, q.len());
        let pq2 = f.peval(q2, x, q2.len());
        assert(pq2 == pq ^ pm);
        let pnr = f.peval(nr, x, nr.len());
        assert(pnr == pr ^ pp);
        lemma_peval_bound(f, pow, prim, q, x, q.len());
        lemma_peval_bound(f, pow, prim, d, x, d.len());
        lemma_peval_bound(f, pow, prim, m, x, m.len());
        law_mult_distributes(f, pow, prim, pd, pq, pm);
        law_mult_commutes(f, pq, pd);
        law_mult_commutes(f, pm, pd);
        lemma_xor_bound(pq, pm, f.size() as usize);
        law_mult_commutes(f, pq ^ pm, pd);
        let a1 = f.table_mult(pq, pd);
        let b1 = f.table_mult(pm, pd);
        lemma_xor(a1, b1, pr, 0);
        lemma_div_loop(f, pow, prim, nr, q2, d, x, pv);
    }
}


/// Two polynomials that agree on the first `n` coefficients agree on the
/// first `n` terms of their values.
pub proof fn lemma_peval_same(f: &GaloisField, s: Seq<usize>, t: Seq<usize>, x: usize, n: nat)
    requires
        forall|i: int| 0 <= i < n ==> coef(s, i) == coef(t, i),
    ensures
        f.peval(s, x, n) == f.peval(t, x, n),
    decreases n,
{
    if n > 0 {
        lemma_peval_same(f, s, t, x, (n - 1) as nat);
    }
}

/// Dividing field elements by a nonzero field element never fails.
pub proof fn lemma_div_scan_ok(f: &GaloisField, p: Seq<usize>, y: usize, i: nat, len: nat)
    requires
        f.wf(),
        elements(p, f.size()),
        len <= p.len(),
        1 <= y < f.size(),
    ensures
        f.div_scan(p, y, i, len) == Outcome::Val(()),
    decreases len - i,
{
    if i < len {
        lemma_div_scan_ok(f, p, y, i + 1, len);
    }
}

/// A quotient of a field element by a nonzero field element is a field
/// element, and multiplying it back gives the dividend.
pub proof fn lemma_div_back(f: &GaloisField, pow: usize, prim: usize, a: usize, y: usize)
    requires
        is_field(f, pow, prim),
        a < f.size(),
        1 <= y < f.size(),
    ensures
        f.table_div(a, y) < f.size(),
        f.table_mult(f.table_div(a, y), y) == a,
        f.table_mult(y, f.table_div(a, y)) == a,
{
    lemma_tables(f, pow, prim);
    crate::field_laws::law_div_mult(f, pow, prim, a, y);
    law_mult_commutes(f, f.table_div(a, y), y);
}

/// Law: dividing by a nonzero polynomial of degree at most the dividend's
/// succeeds, with `quotient * divisor + remainder = dividend` at every point
/// of the field and a remainder of lower degree than the divisor (zero for a
/// constant divisor); dividing by the zero polynomial is refused as a
/// division by zero.
pub proof fn law_div_poly(f: &GaloisField, pow: usize, prim: usize, p: Seq<usize>, d: Seq<usize>, x: usize)
    requires
        is_field(f, pow, prim),
        elements(p, f.size()),
        elements(d, f.size()),
        p.len() > 0,
        d.len() > 0,
        deg_of(d) <= deg_of(p),
        x < f.size(),
    ensures
        d[deg_of(d) as int] == 0 ==> f.div_poly_out(p, d) == Outcome::<(Seq<usize>, Seq<usize>)>::Rejected("Division by zero"),
        d[deg_of(d) as int] != 0 ==> (f.div_poly_out(p, d) matches Outcome::Val((q, r))
            && elements(q, f.size()) && elements(r, f.size()) && r.len() > 0
            && (deg_of(d) == 0 ==> r == mono_seq(0, 0))
            && (deg_of(d) > 0 ==> deg_of(r) < deg_of(d))
            && f.table_mult(f.peval(q, x, q.len()), f.peval(d, x, d.len())) ^ f.peval(r, x, r.len())
                == f.peval(p, x, p.len())),
{
    lemma_tables(f, pow, prim);
    lemma_deg_of(p);
    lemma_deg_of(d);
    let dp = deg_of(p);
    let dd = deg_of(d);
    let pp = f.peval(p, x, p.len());
    lemma_peval_bound(f, pow, prim, p, x, p.len());
    lemma_peval_deg(f, pow, prim, p, x, p.len());
    lemma_peval_deg(f, pow, prim, d, x, d.len());
    if dd == 0 {
        let d0 = d[0];
        if d0 == 0 {
            assert(f.div_out(p[0], 0) == Outcome::<usize>::Rejected("Division by zero"));
            f.lemma_div_scan_stops(p, 0, 0, dp + 1);
        } else {
            lemma_div_scan_ok(f, p, d0, 0, dp + 1);
            let q = Seq::new(dp + 1, |i: int| f.table_div(p[i], d0));
            let r = mono_seq(0, 0);
            assert(f.div_poly_out(p, d) == Outcome::Val((q, r)));
            assert forall|i: int| 0 <= i < q.len() implies #[trigger] q[i] < f.size() by {
                lemma_div_back(f, pow, prim, p[i], d0);
            }
            assert forall|i: int| 0 <= i < r.len() implies #[trigger] r[i] < f.size() by {}
            // the divisor's value is d0
            law_mult_one(f, pow, prim, d0);
            assert(f.fpow(x, 0) == 1);
            lemma_xor(d0, 0, 0, 0);
            assert(f.peval(d, x, 0) == 0);
            assert(coef(d, 0) == d0);
            assert(f.table_mult(d0, 1) == d0);
            assert(f.peval(d, x, 1) == d0);
            // the remainder's value is 0
            assert(f.peval(r, x, 1) == 0) by {
                assert(f.peval(r, x, 0) == 0);
                assert(coef(r, 0) == 0);
                assert(f.table_mult(0, 1) == 0);
                lemma_xor(0, 0, 0, 0);
            }
            let pq = f.peval(q, x, q.len());
            lemma_peval_bound(f, pow, prim, q, x, q.len());
            law_mult_commutes(f, pq, d0);
            lemma_scale_peval(f, pow, prim, d0, q, x, q.len());
            let sc = scaled(f, q, d0);
            assert forall|i: int| 0 <= i < dp + 1 implies coef(sc, i) == coef(p, i) by {
                lemma_div_back(f, pow, prim, p[i], d0);
            }
            lemma_peval_same(f, sc, p, x, dp + 1);
            let v = f.table_mult(pq, d0);
            lemma_xor(v, 0, 0, 0);
        }
    } else {
        let q0 = Seq::new((dp - dd + 1) as nat, |i: int| 0usize);
        assert(f.div_poly_out(p, d) == f.div_loop(p, q0, d));
        assert forall|i: int| 0 <= i < q0.len() implies #[trigger] q0[i] < f.size() by {}
        assert forall|i: int| 0 <= i < q0.len() implies coef(q0, i) == 0 by {}
        lemma_peval_trailing(f, pow, prim, q0, x, 0, q0.len());
        let pd = f.peval(d, x, d.len());
        lemma_peval_bound(f, pow, prim, d, x, d.len());
        law_mult_zero(f, pd);
        law_mult_commutes(f, pd, 0);
        assert(f.table_mult(0, pd) == 0);
        lemma_xor(pp, 0, 0, 0);
        lemma_div_loop(f, pow, prim, p, q0, d, x, pp);
    }
}

/// Law: multiplying by the zero polynomial gives a polynomial that evaluates
/// to zero, multiplying by the constant 1 and adding the zero polynomial
/// keep the value.
pub proof fn law_poly_zero_one(f: &GaloisField, pow: usize, prim: usize, a: Seq<usize>, x: usize)
    requires
        is_field(f, pow, prim),
        elements(a, f.size()),
        a.len() > 0,
        x < f.size(),
    ensures
        f.mult_poly_out(a, mono_seq(0, 0)) matches Outcome::Val(z) && f.eval_out(z, x) == Outcome::Val(0usize),
        f.mult_poly_out(a, mono_seq(1, 0)) matches Outcome::Val(o) && f.eval_out(o, x) == f.eval_out(a, x),
        f.sum_poly_out(a, mono_seq(0, 0)) matches Outcome::Val(s) && f.eval_out(s, x) == f.eval_out(a, x),
{
    lemma_tables(f, pow, prim);
    let zero = mono_seq(0, 0);
    let one = mono_seq(1, 0);
    assert forall|i: int| 0 <= i < zero.len() implies #[trigger] zero[i] < f.size() by {}
    assert forall|i: int| 0 <= i < one.len() implies #[trigger] one[i] < f.size() by {}
    let pa = f.peval(a, x, a.len());
    law_eval(f, pow, prim, a, x);
    assert(f.fpow(x, 0) == 1);
    assert(coef(zero, 0) == 0 && coef(one, 0) == 1);
    assert(f.peval(zero, x, 0) == 0 && f.peval(one, x, 0) == 0);
    assert(f.peval(zero, x, 1) == 0usize ^ f.table_mult(coef(zero, 0), f.fpow(x, 0)));
    assert(f.peval(one, x, 1) == 0usize ^ f.table_mult(coef(one, 0), f.fpow(x, 0)));
    law_mult_one(f, pow, prim, 1);
    lemma_xor(0, 0, 0, 0);
    lemma_xor(1, 0, 0, 0);
    law_mult_poly_eval(f, pow, prim, a, zero, x);
    law_mult_zero(f, pa);
    law_mult_poly_eval(f, pow, prim, a, one, x);
    law_mult_one(f, pow, prim, pa);
    law_sum_poly_eval(f, pow, prim, a, zero, x);
    lemma_xor(pa, 0, 0, 0);
}

/// Law: adding the same polynomial twice gives back the value of the first.
pub proof fn law_sum_poly_cancel(f: &GaloisField, pow: usize, prim: usize, a: Seq<usize>, b: Seq<usize>, x: usize)
    requires
        is_field(f, pow, prim),
        elements(a, f.size()),
        elements(b, f.size()),
        a.len() > 0,
        b.len() > 0,
        x < f.size(),
    ensures
        f.sum_poly_out(a, b) matches Outcome::Val(s) && f.sum_poly_out(s, a) matches Outcome::Val(t)
            && f.eval_out(t, x) == f.eval_out(b, x),
{
    law_sum_poly_eval(f, pow, prim, a, b, x);
    let s = f.sum_poly_out(a, b)->Val_0;
    law_sum_poly_eval(f, pow, prim, s, a, x);
    law_eval(f, pow, prim, s, x);
    law_eval(f, pow, prim, b, x);
    let pa = f.peval(a, x, a.len());
    let pb = f.peval(b, x, b.len());
    lemma_xor(pa, pb, 0, 0);
}

/// Law: polynomial multiplication distributes over polynomial addition.
pub proof fn law_mult_poly_distributes(f: &GaloisField, pow: usize, prim: usize, a: Seq<usize>, b: Seq<usize>, c: Seq<usize>, x: usize)
    requires
        is_field(f, pow, prim),
        elements(a, f.size()),
        elements(b, f.size()),
        elements(c, f.size()),
        a.len() > 0,
        b.len() > 0,
        c.len() > 0,
        x < f.size(),
    ensures
        f.sum_poly_out(b, c) matches Outcome::Val(s) && f.mult_poly_out(a, s) matches Outcome::Val(l)
            && f.mult_poly_out(a, b) matches Outcome::Val(u) && f.mult_poly_out(a, c) matches Outcome::Val(v)
            && f.sum_poly_out(u, v) matches Outcome::Val(r)
            && f.eval_out(l, x) == f.eval_out(r, x),
{
    lemma_tables(f, pow, prim);
    law_sum_poly_eval(f, pow, prim, b, c, x);
    let s = f.sum_poly_out(b, c)->Val_0;
    law_mult_poly_eval(f, pow, prim, a, s, x);
    law_mult_poly_eval(f, pow, prim, a, b, x);
    law_mult_poly_eval(f, pow, prim, a, c, x);
    let u = f.mult_poly_out(a, b)->Val_0;
    let v = f.mult_poly_out(a, c)->Val_0;
    law_sum_poly_eval(f, pow, prim, u, v, x);
    law_eval(f, pow, prim, s, x);
    law_eval(f, pow, prim, u, x);
    law_eval(f, pow, prim, v, x);
    let pa = f.peval(a, x, a.len());
    let pb = f.peval(b, x, b.len());
    let pc = f.peval(c, x, c.len());
    lemma_peval_bound(f, pow, prim, a, x, a.len());
    lemma_peval_bound(f, pow, prim, b, x, b.len());
    lemma_peval_bound(f, pow, prim, c, x, c.len());
    law_mult_distributes(f, pow, prim, pa, pb, pc);
}

/// Law: dividing by the constant polynomial 1 gives the dividend up to its
/// degree and a zero remainder.
pub proof fn law_div_by_one(f: &GaloisField, pow: usize, prim: usize, p: Seq<usize>)
    requires
        is_field(f, pow, prim),
        elements(p, f.size()),
        p.len() > 0,
    ensures
        f.div_poly_out(p, mono_seq(1, 0)) == Outcome::Val((p.take(deg_of(p) + 1int), mono_seq(0, 0))),
{
    lemma_tables(f, pow, prim);
    lemma_deg_of(p);
    let one = mono_seq(1, 0);
    lemma_deg_of(one);
    assert(deg_of(one) == 0);
    lemma_div_scan_ok(f, p, 1, 0, deg_of(p) + 1);
    let q = Seq::new(deg_of(p) + 1, |i: int| f.table_div(p[i], 1));
    assert forall|i: int| 0 <= i < q.len() implies q[i] == p[i] by {
        lemma_div_back(f, pow, prim, p[i], 1);
        law_mult_one(f, pow, prim, f.table_div(p[i], 1));
    }
    assert(q =~= p.take(deg_of(p) + 1int));
}

/// The zeros of `s` among the field elements below `b`, in increasing order.
pub open spec fn zeros_below(f: &GaloisField, s: Seq<usize>, b: nat) -> Seq<usize>
    decreases b,
{
    if b == 0 {
        Seq::empty()
    } else {
        let prev = zeros_below(f, s, (b - 1) as nat);
        if f.peval(s, (b - 1) as usize, s.len()) == 0 { prev.push((b - 1) as usize) } else { prev }
    }
}

/// The scan for zeros from `i` on ends at some `b`: all elements or enough zeros.
proof fn lemma_roots_from_zeros(f: &GaloisField, pow: usize, prim: usize, s: Seq<usize>, d: nat, i: nat)
    requires
        is_field(f, pow, prim),
        elements(s, f.size()),
        s.len() > 0,
        i <= f.size(),
    ensures
        exists|b: nat| i <= b <= f.size()
            && f.roots_from(s, d, i, zeros_below(f, s, i)) == Outcome::Val(zeros_below(f, s, b))
            && (b == f.size() || zeros_below(f, s, b).len() == d),
    decreases f.size() - i,
{
    lemma_tables(f, pow, prim);
    if i >= f.size() {
        assert(f.roots_from(s, d, i, zeros_below(f, s, i)) == Outcome::Val(zeros_below(f, s, i)));
    } else {
        law_eval(f, pow, prim, s, i as usize);
        let acc2 = zeros_below(f, s, i + 1);
        assert(((i + 1) - 1) as usize == i as usize);
        if acc2.len() == d {
            assert(f.roots_from(s, d, i, zeros_below(f, s, i)) == Outcome::Val(acc2));
        } else {
            lemma_roots_from_zeros(f, pow, prim, s, d, i + 1);
            let b = choose|b: nat| i + 1 <= b <= f.size()
                && f.roots_from(s, d, i + 1, zeros_below(f, s, i + 1)) == Outcome::Val(zeros_below(f, s, b))
                && (b == f.size() || zeros_below(f, s, b).len() == d);
            assert(f.roots_from(s, d, i, zeros_below(f, s, i)) == Outcome::Val(zeros_below(f, s, b)));
        }
    }
}

/// Law: `roots` returns the zeros of the polynomial in increasing order,
/// scanning the field from 0 and stopping once it has found as many as the
/// degree: it returns every zero below some bound `b`, and `b` is the field
/// size unless the count reached the degree.
pub proof fn law_roots(f: &GaloisField, pow: usize, prim: usize, s: Seq<usize>)
    requires
        is_field(f, pow, prim),
        elements(s, f.size()),
        s.len() > 0,
    ensures
        exists|b: nat| b <= f.size() && f.roots_out(s) == Outcome::Val(zeros_below(f, s, b))
            && (b == f.size() || zeros_below(f, s, b).len() == deg_of(s)),
{
    lemma_roots_from_zeros(f, pow, prim, s, deg_of(s), 0);
    assert(zeros_below(f, s, 0) == Seq::<usize>::empty());
}

} // verus!
