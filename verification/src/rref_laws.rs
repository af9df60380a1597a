//! What Gauss-Jordan elimination computes: on a square system with only the
//! trivial homogeneous solution it finds a pivot on the diagonal at every
//! step, ends with the identity on the left, and keeps the solution, which
//! it leaves in the last column.
use vstd::prelude::*;
use crate::outcome::Outcome;
use crate::gf::GaloisField;
use crate::gfpoly::{lemma_xor, lemma_xor_bound};
use crate::field_laws::{lemma_tables, law_mult_closed};
use crate::poly_laws::{coef, elements, is_field};
use crate::rref::swap_rows;

verus! {

/// `sum_{c < n} row[c] * y[c]`.
pub open spec fn dot(f: &GaloisField, row: Seq<usize>, y: Seq<usize>, n: nat) -> usize
    decreases n,
{
    if n == 0 { 0 } else { dot(f, row, y, (n - 1) as nat) ^ f.table_mult(coef(row, n - 1), coef(y, n - 1)) }
}

/// `m` is a system of `n` equations in `n` unknowns over field elements:
/// each row holds `n` coefficients and the right-hand side.
pub open spec fn square_system(f: &GaloisField, m: Seq<Seq<usize>>, n: nat) -> bool {
    &&& m.len() == n
    &&& forall|r: int| 0 <= r < n ==> #[trigger] m[r].len() == n + 1 && elements(m[r], f.size())
}

/// `y` solves every equation of `m`.
pub open spec fn solves(f: &GaloisField, m: Seq<Seq<usize>>, y: Seq<usize>, n: nat) -> bool {
    forall|r: int| 0 <= r < m.len() ==> #[trigger] dot(f, m[r], y, n) == m[r][n as int]
}

/// The homogeneous system of `m` has only the zero solution.
pub open spec fn only_zero_kernel(f: &GaloisField, m: Seq<Seq<usize>>, n: nat) -> bool {
    forall|z: Seq<usize>| #![trigger elements(z, f.size()), z.len()]
        z.len() == n && elements(z, f.size()) && (forall|r: int| 0 <= r < m.len() ==> #[trigger] dot(f, m[r], z, n) == 0)
        ==> forall|c: int| 0 <= c < n ==> #[trigger] z[c] == 0
}

/// The first `i` columns of `m` are those of the identity.
pub open spec fn identity_upto(m: Seq<Seq<usize>>, i: nat, n: nat) -> bool {
    forall|r: int, c: int| 0 <= r < n && 0 <= c < i ==> #[trigger] m[r][c] == if r == c { 1usize } else { 0usize }
}

/// Table arithmetic facts.
proof fn lemma_tm2(f: &GaloisField, pow: usize, prim: usize, a: usize, b: usize, c: usize)
    requires
        is_field(f, pow, prim),
        a < f.size(),
        b < f.size(),
        c < f.size(),
    ensures
        f.table_mult(a, b) < f.size(),
        f.table_mult(a, b) == f.table_mult(b, a),
        f.table_mult(a, b ^ c) == f.table_mult(a, b) ^ f.table_mult(a, c),
        f.table_mult(a, f.table_mult(b, c)) == f.table_mult(b, f.table_mult(a, c)),
        f.table_mult(a, f.table_mult(b, c)) == f.table_mult(f.table_mult(a, b), c),
        f.table_mult(a, 0) == 0,
        f.table_mult(1, a) == a,
{
    lemma_tables(f, pow, prim);
    law_mult_closed(f, a, b);
    law_mult_closed(f, b, a);
    crate::field_laws::law_mult_commutes(f, a, b);
    lemma_xor_bound(b, c, f.size() as usize);
    crate::field_laws::law_mult_distributes(f, pow, prim, a, b, c);
    law_mult_closed(f, a, b ^ c);
    law_mult_closed(f, a, c);
    law_mult_closed(f, b, c);
    crate::field_laws::law_mult_assoc(f, pow, prim, a, b, c);
    crate::field_laws::law_mult_assoc(f, pow, prim, b, a, c);
    crate::field_laws::law_mult_zero(f, a);
    law_mult_closed(f, a, 0);
    crate::field_laws::law_mult_one(f, pow, prim, a);
    law_mult_closed(f, a, 1);
    law_mult_closed(f, 1, a);
    crate::field_laws::law_mult_commutes(f, a, 1);
}

/// Dot products of field elements are field elements.
proof fn lemma_dot_bound(f: &GaloisField, pow: usize, prim: usize, row: Seq<usize>, y: Seq<usize>, n: nat)
    requires
        is_field(f, pow, prim),
        elements(row, f.size()),
        elements(y, f.size()),
    ensures
        dot(f, row, y, n) < f.size(),
    decreases n,
{
    lemma_tables(f, pow, prim);
    if n > 0 {
        lemma_dot_bound(f, pow, prim, row, y, (n - 1) as nat);
        lemma_tm2(f, pow, prim, coef(row, n - 1), coef(y, n - 1), 0);
        lemma_xor_bound(dot(f, row, y, (n - 1) as nat), f.table_mult(coef(row, n - 1), coef(y, n - 1)), f.size() as usize);
    }
}

/// The dot product of `a + t b` is that of `a` plus `t` times that of `b`.
#[verifier::spinoff_prover]
proof fn lemma_dot_comb(f: &GaloisField, pow: usize, prim: usize, a: Seq<usize>, b: Seq<usize>, r: Seq<usize>, t: usize,
    y: Seq<usize>, n: nat)
    requires
        is_field(f, pow, prim),
        elements(a, f.size()),
        elements(b, f.size()),
        elements(y, f.size()),
        t < f.size(),
        forall|c: int| 0 <= c < n ==> #[trigger] coef(r, c) == coef(a, c) ^ f.table_mult(t, coef(b, c)),
    ensures
        dot(f, r, y, n) == dot(f, a, y, n) ^ f.table_mult(t, dot(f, b, y, n)),
    decreases n,
{
    lemma_tables(f, pow, prim);
    if n == 0 {
        lemma_tm2(f, pow, prim, t, 0, 0);
        lemma_xor(0, 0, 0, 0);
    } else {
        let n1 = (n - 1) as nat;
        lemma_dot_comb(f, pow, prim, a, b, r, t, y, n1);
        let ac = coef(a, n1 as int);
        let bc = coef(b, n1 as int);
        let yc = coef(y, n1 as int);
        crate::lfsr_laws::lemma_combo_term(f, pow, prim, ac, bc, t, yc);
        lemma_tm2(f, pow, prim, bc, yc, 0);
        lemma_dot_bound(f, pow, prim, b, y, n1);
        lemma_tm2(f, pow, prim, t, dot(f, b, y, n1), f.table_mult(bc, yc));
        lemma_tm2(f, pow, prim, ac, yc, 0);
        lemma_xor(dot(f, a, y, n1), f.table_mult(t, dot(f, b, y, n1)), f.table_mult(ac, yc),
            f.table_mult(t, f.table_mult(bc, yc)));
    }
}

/// Scaling every coefficient by `p` scales the dot product by `p`.
proof fn lemma_dot_scale(f: &GaloisField, pow: usize, prim: usize, a: Seq<usize>, r: Seq<usize>, p: usize,
    y: Seq<usize>, n: nat)
    requires
        is_field(f, pow, prim),
        elements(r, f.size()),
        elements(y, f.size()),
        p < f.size(),
        forall|c: int| 0 <= c < n ==> #[trigger] coef(a, c) == f.table_mult(p, coef(r, c)),
    ensures
        dot(f, a, y, n) == f.table_mult(p, dot(f, r, y, n)),
    decreases n,
{
    lemma_tables(f, pow, prim);
    if n == 0 {
        lemma_tm2(f, pow, prim, p, 0, 0);
    } else {
        let n1 = (n - 1) as nat;
        lemma_dot_scale(f, pow, prim, a, r, p, y, n1);
        let rc = coef(r, n1 as int);
        let yc = coef(y, n1 as int);
        lemma_tm2(f, pow, prim, p, rc, yc);
        lemma_tm2(f, pow, prim, rc, yc, 0);
        lemma_dot_bound(f, pow, prim, r, y, n1);
        lemma_tm2(f, pow, prim, p, dot(f, r, y, n1), f.table_mult(rc, yc));
    }
}

/// Multiplying by a nonzero element can be undone.
proof fn lemma_cancel(f: &GaloisField, pow: usize, prim: usize, p: usize, u: usize, v: usize)
    requires
        is_field(f, pow, prim),
        1 <= p < f.size(),
        u < f.size(),
        v < f.size(),
        f.table_mult(p, u) == f.table_mult(p, v),
    ensures
        u == v,
{
    crate::field_laws::law_div_mult(f, pow, prim, u, p);
    crate::field_laws::law_div_mult(f, pow, prim, v, p);
    lemma_tm2(f, pow, prim, p, u, 0);
    lemma_tm2(f, pow, prim, p, v, 0);
}

/// Quotients by a nonzero element are field elements.
proof fn lemma_div_bound(f: &GaloisField, pow: usize, prim: usize, x: usize, t: usize)
    requires
        is_field(f, pow, prim),
        x < f.size(),
        1 <= t < f.size(),
    ensures
        f.table_div(x, t) < f.size(),
        f.div_out(x, t) == Outcome::Val(f.table_div(x, t)),
        f.table_mult(t, f.table_div(x, t)) == x,
{
    lemma_tables(f, pow, prim);
    crate::field_laws::law_div_mult(f, pow, prim, x, t);
    if x != 0 {
        let idx = ((f.size() - 1) + f.gf_log@[x as int] - f.gf_log@[t as int]) % (f.size() - 1);
        assert(0 <= idx < f.size() - 1);
        crate::gf::lemma_exp_bound(idx as nat, prim, pow);
    }
    law_mult_closed(f, f.table_div(x, t), t);
    crate::field_laws::law_mult_commutes(f, f.table_div(x, t), t);
    law_mult_closed(f, t, f.table_div(x, t));
}

/// What `scale_row` gives: the entries from `k` on divided by `t`.
proof fn lemma_scale_row(f: &GaloisField, pow: usize, prim: usize, row: Seq<usize>, t: usize, k: nat)
    requires
        is_field(f, pow, prim),
        elements(row, f.size()),
        1 <= t < f.size(),
        k <= row.len(),
    ensures
        f.scale_row(row, t, k) == Outcome::Val(Seq::new(row.len(),
            |c: int| if c < k { row[c] } else { f.table_div(row[c], t) })),
    decreases row.len() - k,
{
    if k < row.len() {
        lemma_div_bound(f, pow, prim, row[k as int], t);
        let v = f.table_div(row[k as int], t);
        let row2 = row.update(k as int, v);
        assert forall|i: int| 0 <= i < row2.len() implies #[trigger] row2[i] < f.size() by {}
        lemma_scale_row(f, pow, prim, row2, t, k + 1);
        assert(Seq::new(row2.len(), |c: int| if c < k + 1 { row2[c] } else { f.table_div(row2[c], t) })
            =~= Seq::new(row.len(), |c: int| if c < k { row[c] } else { f.table_div(row[c], t) }));
    } else {
        assert(row =~= Seq::new(row.len(), |c: int| if c < k { row[c] } else { f.table_div(row[c], t) }));
    }
}

/// `row + t p` from column `k` on.
pub open spec fn elim_result(f: &GaloisField, row: Seq<usize>, p: Seq<usize>, t: usize, k: nat) -> Seq<usize> {
    Seq::new(row.len(), |c: int| if c < k { row[c] } else { row[c] ^ f.table_mult(t, p[c]) })
}

/// What `elim_row` gives.
proof fn lemma_elim_row(f: &GaloisField, pow: usize, prim: usize, row: Seq<usize>, p: Seq<usize>, t: usize, k: nat)
    requires
        is_field(f, pow, prim),
        elements(row, f.size()),
        elements(p, f.size()),
        row.len() <= p.len(),
        t < f.size(),
        k <= row.len(),
    ensures
        f.elim_row(row, p, t, k) == Outcome::Val(elim_result(f, row, p, t, k)),
    decreases row.len() - k,
{
    lemma_tables(f, pow, prim);
    if k < row.len() {
        law_mult_closed(f, t, p[k as int]);
        let m = f.table_mult(t, p[k as int]);
        crate::field_laws::law_sum_xor(f, row[k as int], m);
        lemma_xor_bound(row[k as int], m, f.size() as usize);
        let row2 = row.update(k as int, row[k as int] ^ m);
        assert forall|i: int| 0 <= i < row2.len() implies #[trigger] row2[i] < f.size() by {}
        lemma_elim_row(f, pow, prim, row2, p, t, k + 1);
        assert(elim_result(f, row2, p, t, k + 1) =~= elim_result(f, row, p, t, k));
    } else {
        assert(row =~= elim_result(f, row, p, t, k));
    }
}

/// What `elim_rows` gives: every row from `j` on but the pivot row `i`
/// eliminated with the pivot row.
proof fn lemma_elim_rows(f: &GaloisField, pow: usize, prim: usize, m: Seq<Seq<usize>>, i: nat, lc: nat, j: nat, n: nat)
    requires
        is_field(f, pow, prim),
        square_system(f, m, n),
        i < n,
        lc <= n,
        j <= n,
    ensures
        f.elim_rows(m, i, lc, j) == Outcome::Val(Seq::new(n, |r: int| if r < j || r == i { m[r] }
            else { elim_result(f, m[r], m[i as int], m[r][lc as int], lc) })),
    decreases n - j,
{
    lemma_tables(f, pow, prim);
    if j < n {
        if j == i {
            lemma_elim_rows(f, pow, prim, m, i, lc, j + 1, n);
            assert(Seq::new(n, |r: int| if r < j + 1 || r == i { m[r] } else { elim_result(f, m[r], m[i as int], m[r][lc as int], lc) })
                =~= Seq::new(n, |r: int| if r < j || r == i { m[r] } else { elim_result(f, m[r], m[i as int], m[r][lc as int], lc) }));
        } else {
            assert(m[j as int].len() == n + 1 && elements(m[j as int], f.size()));
            assert(m[i as int].len() == n + 1 && elements(m[i as int], f.size()));
            lemma_elim_row(f, pow, prim, m[j as int], m[i as int], m[j as int][lc as int], lc);
            let rj = elim_result(f, m[j as int], m[i as int], m[j as int][lc as int], lc);
            let m2 = m.update(j as int, rj);
            assert forall|r: int| 0 <= r < n implies #[trigger] m2[r].len() == n + 1 && elements(m2[r], f.size()) by {
                if r == j {
                    assert forall|c: int| 0 <= c < rj.len() implies #[trigger] rj[c] < f.size() by {
                        if c >= lc {
                            law_mult_closed(f, m[j as int][lc as int], m[i as int][c]);
                            lemma_xor_bound(m[j as int][c], f.table_mult(m[j as int][lc as int], m[i as int][c]), f.size() as usize);
                        }
                    }
                }
            }
            lemma_tables(f, pow, prim);
            lemma_elim_rows(f, pow, prim, m2, i, lc, j + 1, n);
            assert(m2[i as int] == m[i as int]);
            assert(Seq::new(n, |r: int| if r < j + 1 || r == i { m2[r] } else { elim_result(f, m2[r], m2[i as int], m2[r][lc as int], lc) })
                =~= Seq::new(n, |r: int| if r < j || r == i { m[r] } else { elim_result(f, m[r], m[i as int], m[r][lc as int], lc) }));
        }
    } else {
        assert(m =~= Seq::new(n, |r: int| if r < j || r == i { m[r] } else { elim_result(f, m[r], m[i as int], m[r][lc as int], lc) }));
    }
}

/// What `swap_scan` gives: the first row from `j` on with a nonzero entry in
/// column `i` swapped into row `i`, or the matrix unchanged when there is none.
proof fn lemma_swap_scan(f: &GaloisField, m: Seq<Seq<usize>>, i: nat, j: nat, n: nat)
    requires
        m.len() == n,
        forall|r: int| 0 <= r < n ==> #[trigger] m[r].len() == n + 1,
        i < n,
        j <= n,
    ensures
        f.swap_scan(m, i, j) matches Outcome::Val(m2) && (
            (m2 == m && forall|r: int| j <= r < n ==> #[trigger] m[r][i as int] == 0)
            || exists|r: int| j <= r < n && m[r][i as int] != 0 && m2 == #[trigger] swap_rows(m, i as int, r)),
    decreases n - j,
{
    if j < n && m[j as int][i as int] == 0 {
        lemma_swap_scan(f, m, i, j + 1, n);
    } else if j < n {
        assert(f.swap_scan(m, i, j) == Outcome::Val(swap_rows(m, i as int, j as int)));
    }
}

/// The invariant of the elimination at step `i`: a square system solved by
/// `y`, with only the trivial homogeneous solution, and the identity in
/// its first `i` columns.
pub open spec fn gj_ok(f: &GaloisField, m: Seq<Seq<usize>>, y: Seq<usize>, i: nat, n: nat) -> bool {
    &&& square_system(f, m, n)
    &&& solves(f, m, y, n)
    &&& only_zero_kernel(f, m, n)
    &&& identity_upto(m, i, n)
}

/// Exchanging two rows at or below `i` keeps the invariant.
proof fn lemma_swap_ok(f: &GaloisField, m: Seq<Seq<usize>>, y: Seq<usize>, i: nat, r0: nat, n: nat)
    requires
        gj_ok(f, m, y, i, n),
        i <= r0 < n,
    ensures
        gj_ok(f, swap_rows(m, i as int, r0 as int), y, i, n),
{
    let m2 = swap_rows(m, i as int, r0 as int);
    assert forall|r: int| 0 <= r < n implies #[trigger] m2[r].len() == n + 1 && elements(m2[r], f.size()) by {
        assert(m2[r] == m[r] || m2[r] == m[i as int] || m2[r] == m[r0 as int]);
    }
    assert forall|r: int| 0 <= r < m2.len() implies #[trigger] dot(f, m2[r], y, n) == m2[r][n as int] by {
        assert(m2[r] == m[r] || m2[r] == m[i as int] || m2[r] == m[r0 as int]);
    }
    assert forall|r: int, c: int| 0 <= r < n && 0 <= c < i implies #[trigger] m2[r][c] == if r == c { 1usize } else { 0usize } by {
        if r == i {
            assert(m2[r] == m[r0 as int]);
        } else if r == r0 {
            assert(m2[r] == m[i as int]);
        } else {
            assert(m2[r] == m[r]);
        }
    }
    assert forall|z: Seq<usize>| #![trigger elements(z, f.size()), z.len()]
        z.len() == n && elements(z, f.size()) && (forall|r: int| 0 <= r < m2.len() ==> #[trigger] dot(f, m2[r], z, n) == 0)
        implies forall|c: int| 0 <= c < n ==> #[trigger] z[c] == 0 by {
        assert forall|r: int| 0 <= r < m.len() implies #[trigger] dot(f, m[r], z, n) == 0 by {
            if r == i {
                assert(m2[r0 as int] == m[r]);
            } else if r == r0 {
                assert(m2[i as int] == m[r]);
            } else {
                assert(m2[r] == m[r]);
            }
        }
    }
}

/// The vector `z` with `z[c] = m[c][i]` for `c < i`, `z[i] = 1` and zeros
/// after: a homogeneous solution when column `i` has no pivot.
pub open spec fn kernel_vector(m: Seq<Seq<usize>>, i: nat, n: nat) -> Seq<usize> {
    Seq::new(n, |c: int| if c < i { m[c][i as int] } else if c == i { 1usize } else { 0usize })
}

/// Partial dot products of a row with `kernel_vector`.
proof fn lemma_kernel_dot(f: &GaloisField, pow: usize, prim: usize, m: Seq<Seq<usize>>, i: nat, n: nat, r: int, k: nat)
    requires
        is_field(f, pow, prim),
        square_system(f, m, n),
        identity_upto(m, i, n),
        i < n,
        0 <= r < n,
        k <= n,
        forall|rr: int| i <= rr < n ==> #[trigger] m[rr][i as int] == 0,
    ensures
        dot(f, m[r], kernel_vector(m, i, n), k) == if r < i {
            (if k > r { m[r][i as int] } else { 0usize }) ^ (if k > i { m[r][i as int] } else { 0usize })
        } else { 0usize },
    decreases k,
{
    lemma_tables(f, pow, prim);
    let z = kernel_vector(m, i, n);
    let v = m[r][i as int];
    assert(m[r].len() == n + 1 && elements(m[r], f.size()));
    assert(v < f.size());
    if k == 0 {
        lemma_xor(0, 0, 0, 0);
    } else {
        let c = k - 1;
        lemma_kernel_dot(f, pow, prim, m, i, n, r, (k - 1) as nat);
        let a = coef(m[r], c);
        let b = coef(z, c);
        assert(a == m[r][c]);
        assert(b == z[c]);
        if c < i {
            assert(m[c].len() == n + 1 && elements(m[c], f.size()));
            assert(m[c][i as int] < f.size());
            lemma_tm2(f, pow, prim, b, 0, 0);
            lemma_tm2(f, pow, prim, 0, b, 0);
            if r == c {
                assert(a == 1);
                assert(b == v);
            } else {
                assert(a == 0);
            }
        } else if c == i {
            assert(b == 1);
            lemma_tm2(f, pow, prim, a, 0, 0);
            lemma_tm2(f, pow, prim, 1, a, 0);
            assert(a == v);
        } else {
            assert(b == 0);
            lemma_tm2(f, pow, prim, a, 0, 0);
        }
        lemma_xor(v, 0, 0, 0);
        lemma_xor(0, v, 0, 0);
        lemma_xor(v, v, 0, 0);
    }
}

/// With only the trivial homogeneous solution, some row at or below `i`
/// has a nonzero entry in column `i`.
proof fn lemma_pivot_exists(f: &GaloisField, pow: usize, prim: usize, m: Seq<Seq<usize>>, y: Seq<usize>, i: nat, n: nat)
    requires
        is_field(f, pow, prim),
        gj_ok(f, m, y, i, n),
        i < n,
    ensures
        exists|r: int| i <= r < n && m[r][i as int] != 0,
{
    if forall|rr: int| i <= rr < n ==> #[trigger] m[rr][i as int] == 0 {
        let z = kernel_vector(m, i, n);
        assert forall|c: int| 0 <= c < z.len() implies #[trigger] z[c] < f.size() by {
            lemma_tables(f, pow, prim);
            if c < i {
                assert(m[c].len() == n + 1 && elements(m[c], f.size()));
            }
        }
        assert forall|r: int| 0 <= r < m.len() implies #[trigger] dot(f, m[r], z, n) == 0 by {
            lemma_kernel_dot(f, pow, prim, m, i, n, r, n);
            lemma_xor(m[r][i as int], 0, 0, 0);
        }
        assert(elements(z, f.size()) && z.len() == n);
        assert(z[i as int] == 1);
    }
}

/// The pivot search at step `i` stays in column `i` and finds a nonzero pivot.
proof fn lemma_pivot(f: &GaloisField, pow: usize, prim: usize, m: Seq<Seq<usize>>, y: Seq<usize>, i: nat, n: nat)
    requires
        is_field(f, pow, prim),
        gj_ok(f, m, y, i, n),
        i < n,
    ensures
        f.pivot(m, i, i) matches Outcome::Val((m2, lc2, done)) && lc2 == i && !done && gj_ok(f, m2, y, i, n)
            && m2[i as int][i as int] != 0,
{
    assert(m[i as int].len() == n + 1);
    if m[i as int][i as int] == 0 {
        lemma_swap_scan(f, m, i, i + 1, n);
        lemma_pivot_exists(f, pow, prim, m, y, i, n);
        let m2 = f.swap_scan(m, i, i + 1)->Val_0;
        if m2 == m && forall|r: int| i + 1 <= r < n ==> #[trigger] m[r][i as int] == 0 {
            let r = choose|r: int| i <= r < n && m[r][i as int] != 0;
            assert(false);
        } else {
            let r = choose|r: int| i + 1 <= r < n && m[r][i as int] != 0 && m2 == #[trigger] swap_rows(m, i as int, r);
            lemma_swap_ok(f, m, y, i, r as nat, n);
            assert(m2[i as int] == m[r]);
        }
    }
}

/// Scaling the pivot row and clearing column `i` in the other rows keeps
/// the invariant and extends the identity by column `i`.
#[verifier::spinoff_prover]
proof fn lemma_reduce(f: &GaloisField, pow: usize, prim: usize, m2: Seq<Seq<usize>>, y: Seq<usize>, i: nat, n: nat)
    requires
        is_field(f, pow, prim),
        gj_ok(f, m2, y, i, n),
        elements(y, f.size()),
        i < n,
        m2[i as int][i as int] != 0,
    ensures
        f.reduce_at(m2, i, i) matches Outcome::Val(m4) && gj_ok(f, m4, y, i + 1, n),
{
    lemma_tables(f, pow, prim);
    let ri = m2[i as int];
    assert(ri.len() == n + 1 && elements(ri, f.size()));
    let p = ri[i as int];
    lemma_scale_row(f, pow, prim, ri, p, i);
    let row = Seq::new(ri.len(), |c: int| if c < i { ri[c] } else { f.table_div(ri[c], p) });
    assert forall|c: int| 0 <= c < row.len() implies #[trigger] row[c] < f.size() by {
        if c >= i {
            lemma_div_bound(f, pow, prim, ri[c], p);
        }
    }
    // p * row = ri, coefficient by coefficient
    assert forall|c: int| 0 <= c < n + 1 implies #[trigger] coef(ri, c) == f.table_mult(p, coef(row, c)) by {
        if c < i {
            assert(ri[c] == 0);
            lemma_tm2(f, pow, prim, p, 0, 0);
        } else {
            lemma_div_bound(f, pow, prim, ri[c], p);
        }
    }
    let m3 = m2.update(i as int, row);
    assert(square_system(f, m3, n));
    lemma_elim_rows(f, pow, prim, m3, i, i, 0, n);
    let m4 = Seq::new(n, |r: int| if r < 0 || r == i { m3[r] } else { elim_result(f, m3[r], m3[i as int], m3[r][i as int], i) });
    assert(f.reduce_at(m2, i, i) == Outcome::Val(m4));
    // the pivot row
    lemma_dot_scale(f, pow, prim, ri, row, p, y, n);
    lemma_dot_bound(f, pow, prim, row, y, n);
    assert(dot(f, ri, y, n) == ri[n as int]);
    assert(coef(ri, n as int) == f.table_mult(p, coef(row, n as int)));
    lemma_cancel(f, pow, prim, p, dot(f, row, y, n), row[n as int]);
    assert(coef(ri, i as int) == f.table_mult(p, coef(row, i as int)));
    assert(coef(ri, i as int) == p);
    assert(f.table_mult(p, coef(row, i as int)) == p);
    lemma_tm2(f, pow, prim, p, 1, 0);
    lemma_cancel(f, pow, prim, p, row[i as int], 1);
    // every other row: ri_j + t row
    assert forall|r: int| 0 <= r < n && r != i implies
        #[trigger] m4[r].len() == n + 1 && elements(m4[r], f.size())
        && (forall|c: int| 0 <= c < n + 1 ==> #[trigger] coef(m4[r], c) == coef(m2[r], c) ^ f.table_mult(m2[r][i as int], coef(row, c)))
        && dot(f, m4[r], y, n) == m4[r][n as int]
        && m4[r][i as int] == 0 by {
        let a = m2[r];
        assert(a.len() == n + 1 && elements(a, f.size()));
        let t = a[i as int];
        assert(m3[r] == a);
        assert forall|c: int| 0 <= c < n + 1 implies #[trigger] coef(m4[r], c) == coef(a, c) ^ f.table_mult(t, coef(row, c)) by {
            lemma_tm2(f, pow, prim, t, coef(row, c), 0);
            if c < i {
                assert(row[c] == 0) by {
                    assert(ri[c] == 0);
                }
                lemma_xor(a[c], 0, 0, 0);
            }
        }
        assert forall|c: int| 0 <= c < m4[r].len() implies #[trigger] m4[r][c] < f.size() by {
            lemma_tm2(f, pow, prim, t, coef(row, c), 0);
            lemma_xor_bound(a[c], f.table_mult(t, coef(row, c)), f.size() as usize);
            assert(coef(m4[r], c) == m4[r][c]);
        }
        lemma_dot_comb(f, pow, prim, a, row, m4[r], t, y, n);
        assert(dot(f, a, y, n) == a[n as int]);
        assert(coef(m4[r], n as int) == coef(a, n as int) ^ f.table_mult(t, coef(row, n as int)));
        assert(coef(m4[r], i as int) == coef(a, i as int) ^ f.table_mult(t, coef(row, i as int)));
        lemma_tm2(f, pow, prim, 1, t, 0);
        lemma_tm2(f, pow, prim, t, 1, 0);
        lemma_xor(t, 0, 0, 0);
    }
    assert(m4[i as int] == row);
    assert(square_system(f, m4, n)) by {
        assert forall|r: int| 0 <= r < n implies #[trigger] m4[r].len() == n + 1 && elements(m4[r], f.size()) by {
            if r != i {
            }
        }
    }
    assert(solves(f, m4, y, n)) by {
        assert forall|r: int| 0 <= r < m4.len() implies #[trigger] dot(f, m4[r], y, n) == m4[r][n as int] by {
            if r != i {
            }
        }
    }
    assert(identity_upto(m4, i + 1, n)) by {
        assert forall|r: int, c: int| 0 <= r < n && 0 <= c < i + 1 implies #[trigger] m4[r][c] == if r == c { 1usize } else { 0usize } by {
            if r == i {
                if c < i {
                    assert(row[c] == ri[c]);
                }
            } else if c < i {
                assert(coef(m4[r], c) == coef(m2[r], c) ^ f.table_mult(m2[r][i as int], coef(row, c)));
                assert(row[c] == ri[c]);
                assert(ri[c] == 0);
                assert(m2[r].len() == n + 1 && elements(m2[r], f.size()));
                lemma_tm2(f, pow, prim, m2[r][i as int], 0, 0);
                lemma_xor(m2[r][c], 0, 0, 0);
            }
        }
    }
    assert(only_zero_kernel(f, m4, n)) by {
        assert forall|z: Seq<usize>| #![trigger elements(z, f.size()), z.len()]
            z.len() == n && elements(z, f.size()) && (forall|r: int| 0 <= r < m4.len() ==> #[trigger] dot(f, m4[r], z, n) == 0)
            implies forall|c: int| 0 <= c < n ==> #[trigger] z[c] == 0 by {
            assert(dot(f, m4[i as int], z, n) == 0);
            lemma_dot_scale(f, pow, prim, ri, row, p, z, n);
            lemma_tm2(f, pow, prim, p, 0, 0);
            assert forall|r: int| 0 <= r < m2.len() implies #[trigger] dot(f, m2[r], z, n) == 0 by {
                if r != i {
                    let a = m2[r];
                    assert(a.len() == n + 1 && elements(a, f.size()));
                    lemma_dot_comb(f, pow, prim, a, row, m4[r], a[i as int], z, n);
                    assert(dot(f, m4[r], z, n) == 0);
                    lemma_tm2(f, pow, prim, a[i as int], 0, 0);
                    lemma_dot_bound(f, pow, prim, a, z, n);
                    lemma_xor(dot(f, a, z, n), 0, 0, 0);
                }
            }
        }
    }
}

/// Elimination from step `i` on keeps the invariant to the end.
proof fn lemma_rref_from(f: &GaloisField, pow: usize, prim: usize, m: Seq<Seq<usize>>, y: Seq<usize>, i: nat, n: nat)
    requires
        is_field(f, pow, prim),
        gj_ok(f, m, y, i, n),
        elements(y, f.size()),
        i < n,
    ensures
        f.rref_from(m, n, i, i) matches Outcome::Val(r) && gj_ok(f, r, y, n, n),
    decreases n - i,
{
    lemma_pivot(f, pow, prim, m, y, i, n);
    let (m2, lc2, done) = f.pivot(m, i, i)->Val_0;
    lemma_reduce(f, pow, prim, m2, y, i, n);
    let m4 = f.reduce_at(m2, i, i)->Val_0;
    if i + 1 < n {
        lemma_rref_from(f, pow, prim, m4, y, i + 1, n);
    }
}

/// A row of the identity picks one entry of `y`.
proof fn lemma_dot_unit(f: &GaloisField, pow: usize, prim: usize, row: Seq<usize>, y: Seq<usize>, r: int, k: nat)
    requires
        is_field(f, pow, prim),
        elements(y, f.size()),
        0 <= r < y.len(),
        k <= row.len(),
        forall|c: int| 0 <= c < k ==> #[trigger] row[c] == if c == r { 1usize } else { 0usize },
    ensures
        dot(f, row, y, k) == if k > r { y[r] } else { 0usize },
    decreases k,
{
    lemma_tables(f, pow, prim);
    if k > 0 {
        lemma_dot_unit(f, pow, prim, row, y, r, (k - 1) as nat);
        let c = k - 1;
        let yc = coef(y, c);
        lemma_tm2(f, pow, prim, yc, 0, 0);
        lemma_tm2(f, pow, prim, 0, yc, 0);
        lemma_xor(y[r], 0, 0, 0);
        lemma_xor(0, y[r], 0, 0);
        lemma_xor(0, 0, 0, 0);
    }
}

/// Law: Gauss-Jordan elimination solves a square system whose homogeneous
/// system has only the zero solution: `rref` ends with the identity on the
/// left and the solution `y` in the last column.
pub proof fn law_rref_solves(f: &GaloisField, pow: usize, prim: usize, m: Seq<Seq<usize>>, y: Seq<usize>)
    requires
        is_field(f, pow, prim),
        square_system(f, m, m.len()),
        m.len() >= 1,
        y.len() == m.len(),
        elements(y, f.size()),
        solves(f, m, y, m.len()),
        only_zero_kernel(f, m, m.len()),
    ensures
        f.rref_out(m) matches Outcome::Val(r) && square_system(f, r, m.len()) && identity_upto(r, m.len(), m.len())
            && forall|k: int| 0 <= k < m.len() ==> #[trigger] r[k][m.len() as int] == y[k],
{
    let n = m.len();
    lemma_rref_from(f, pow, prim, m, y, 0, n);
    let r = f.rref_out(m)->Val_0;
    assert forall|k: int| 0 <= k < n implies #[trigger] r[k][n as int] == y[k] by {
        assert(r[k].len() == n + 1);
        assert forall|c: int| 0 <= c < n implies #[trigger] r[k][c] == if c == k { 1usize } else { 0usize } by {
            assert(r[k][c] == if k == c { 1usize } else { 0usize });
        }
        lemma_dot_unit(f, pow, prim, r[k], y, k, n);
    }
}

/// `prod (xs[j] + X)` over `j < t` with `j != k`.
pub open spec fn prod_except(f: &GaloisField, xs: Seq<usize>, k: int, t: nat) -> Seq<usize>
    decreases t,
{
    if t == 0 {
        seq![1usize]
    } else {
        let r = prod_except(f, xs, k, (t - 1) as nat);
        if t - 1 == k { r } else { f.conv(r, seq![xs[t - 1], 1usize]) }
    }
}

/// `prod_except` has degree below `t`, vanishes at the other points and
/// not at `xs[k]` when the points are distinct field elements.
proof fn lemma_prod_except(f: &GaloisField, pow: usize, prim: usize, xs: Seq<usize>, k: int, t: nat)
    requires
        is_field(f, pow, prim),
        elements(xs, f.size()),
        t <= xs.len(),
        0 <= k < xs.len(),
        forall|a: int, b: int| 0 <= a < b < xs.len() ==> #[trigger] xs[a] != #[trigger] xs[b],
    ensures
        prod_except(f, xs, k, t).len() > 0,
        elements(prod_except(f, xs, k, t), f.size()),
        forall|j: int| j > (if k < t { t - 1 } else { t as int }) ==> #[trigger] coef(prod_except(f, xs, k, t), j) == 0,
        forall|j: int| 0 <= j < t && j != k ==>
            #[trigger] f.peval(prod_except(f, xs, k, t), xs[j], prod_except(f, xs, k, t).len()) == 0,
        f.peval(prod_except(f, xs, k, t), xs[k], prod_except(f, xs, k, t).len()) != 0,
    decreases t,
{
    lemma_tables(f, pow, prim);
    if t == 0 {
        let one = seq![1usize];
        assert forall|i: int| 0 <= i < one.len() implies #[trigger] one[i] < f.size() by {}
        assert(f.fpow(xs[k], 0) == 1);
        lemma_tm2(f, pow, prim, 1, 0, 0);
        assert(f.peval(one, xs[k], 0) == 0);
        assert(coef(one, 0) == 1);
        assert(f.peval(one, xs[k], 1) == 0 ^ f.table_mult(1, 1));
        lemma_xor(1, 0, 0, 0);
    } else {
        let t1 = (t - 1) as nat;
        lemma_prod_except(f, pow, prim, xs, k, t1);
        let r = prod_except(f, xs, k, t1);
        if t1 != k {
            let a = xs[t1 as int];
            let lin = seq![a, 1usize];
            assert forall|i: int| 0 <= i < lin.len() implies #[trigger] lin[i] < f.size() by {}
            crate::poly_laws::law_mult_poly_eval(f, pow, prim, r, lin, 0);
            let c = f.conv(r, lin);
            assert(f.mult_poly_out(r, lin) == Outcome::Val(c));
            crate::poly::lemma_deg_of(r);
            crate::poly::lemma_deg_of(lin);
            let cr: int = if k < t1 { t1 - 1 } else { t1 as int };
            assert forall|j: int| j > cr + 1 implies #[trigger] coef(c, j) == 0 by {
                crate::div_laws::lemma_conv_coef(f, r, lin, j);
                assert forall|i: int| i > cr implies coef(r, i) == 0 by {}
                assert forall|jj: int| jj > 1 implies coef(lin, jj) == 0 by {}
                crate::div_laws::lemma_pc_top(f, r, lin, cr, 1, j, r.len());
            }
            assert forall|x: usize| x < f.size() implies #[trigger] f.peval(c, x, c.len())
                == f.table_mult(f.peval(r, x, r.len()), a ^ x) by {
                crate::poly_laws::law_mult_poly_eval(f, pow, prim, r, lin, x);
                crate::poly_laws::law_eval(f, pow, prim, c, x);
                crate::decode_laws::lemma_eval_lin(f, pow, prim, a, x);
                crate::poly_laws::law_eval(f, pow, prim, lin, x);
            }
            assert forall|j: int| 0 <= j < t && j != k implies #[trigger] f.peval(c, xs[j], c.len()) == 0 by {
                let x = xs[j];
                crate::poly_laws::lemma_peval_bound(f, pow, prim, r, x, r.len());
                lemma_xor_bound(a, x, f.size() as usize);
                if j < t1 {
                    lemma_tm2(f, pow, prim, a ^ x, 0, 0);
                    lemma_tm2(f, pow, prim, 0, a ^ x, 0);
                } else {
                    lemma_xor(a, 0, 0, 0);
                    lemma_tm2(f, pow, prim, f.peval(r, x, r.len()), 0, 0);
                }
            }
            let x = xs[k];
            crate::poly_laws::lemma_peval_bound(f, pow, prim, r, x, r.len());
            lemma_xor_bound(a, x, f.size() as usize);
            assert(a != x);
            assert((a ^ x) != 0) by (bit_vector) requires a != x;
            crate::lfsr_laws::lemma_no_zero_divisors(f, pow, prim, f.peval(r, x, r.len()), a ^ x);
        }
    }
}

/// `a * (x^(m+1) * z)`: the terms of `sum_m a[m] * (row m of the power system) . z`.
pub open spec fn vander_terms(f: &GaloisField, a: Seq<usize>, xs: Seq<usize>, z: Seq<usize>) -> spec_fn(int, int) -> usize {
    |m: int, j: int| f.table_mult(coef(a, m), f.table_mult(f.fpow(coef(xs, j), (m + 1) as nat), coef(z, j)))
}

/// A row of the terms is `a[m]` times a row of the power system against `z`.
proof fn lemma_vander_row(f: &GaloisField, pow: usize, prim: usize, a: Seq<usize>, xs: Seq<usize>, synd: Seq<usize>,
    z: Seq<usize>, m: int, b: nat)
    requires
        is_field(f, pow, prim),
        elements(a, f.size()),
        elements(xs, f.size()),
        elements(z, f.size()),
        elements(synd, f.size()),
        0 <= m < synd.len(),
        b <= xs.len(),
    ensures
        crate::lfsr_laws::row_sum(vander_terms(f, a, xs, z), m, b)
            == f.table_mult(coef(a, m), dot(f, Seq::new(xs.len() + 1, |j: int| if j < xs.len() { f.fpow(xs[j], (m + 1) as nat) } else { synd[m] }), z, b)),
    decreases b,
{
    let row = Seq::new(xs.len() + 1, |j: int| if j < xs.len() { f.fpow(xs[j], (m + 1) as nat) } else { synd[m] });
    let am = coef(a, m);
    if b == 0 {
        lemma_tm2(f, pow, prim, am, 0, 0);
    } else {
        let b1 = (b - 1) as nat;
        lemma_vander_row(f, pow, prim, a, xs, synd, z, m, b1);
        let x = xs[b1 as int];
        crate::poly_laws::lemma_fpow_bound(f, pow, prim, x, (m + 1) as nat);
        let xp = f.fpow(x, (m + 1) as nat);
        assert(coef(row, b1 as int) == xp);
        assert(coef(xs, b1 as int) == x);
        lemma_tm2(f, pow, prim, xp, coef(z, b1 as int), 0);
        assert forall|i: int| 0 <= i < row.len() implies #[trigger] row[i] < f.size() by {
            if i < xs.len() {
                crate::poly_laws::lemma_fpow_bound(f, pow, prim, xs[i], (m + 1) as nat);
            }
        }
        lemma_dot_bound(f, pow, prim, row, z, b1);
        lemma_tm2(f, pow, prim, am, dot(f, row, z, b1), f.table_mult(xp, coef(z, b1 as int)));
    }
}

/// A column of the terms is `z[j] * (x_j * a(x_j))`.
proof fn lemma_vander_col(f: &GaloisField, pow: usize, prim: usize, a: Seq<usize>, xs: Seq<usize>, z: Seq<usize>,
    j: int, mm: nat)
    requires
        is_field(f, pow, prim),
        elements(a, f.size()),
        elements(xs, f.size()),
        elements(z, f.size()),
        0 <= j,
    ensures
        crate::lfsr_laws::row_sum(crate::lfsr_laws::transpose(vander_terms(f, a, xs, z)), j, mm)
            == f.table_mult(coef(z, j), f.table_mult(coef(xs, j), f.peval(a, coef(xs, j), mm))),
    decreases mm,
{
    lemma_tables(f, pow, prim);
    let x = coef(xs, j);
    let zj = coef(z, j);
    if mm == 0 {
        lemma_tm2(f, pow, prim, x, 0, 0);
        lemma_tm2(f, pow, prim, zj, 0, 0);
    } else {
        let m = (mm - 1) as nat;
        lemma_vander_col(f, pow, prim, a, xs, z, j, m);
        let am = coef(a, m as int);
        let xm = f.fpow(x, m);
        crate::poly_laws::lemma_fpow_bound(f, pow, prim, x, m);
        assert(f.fpow(x, m + 1) == f.table_mult(xm, x));
        let axm = f.table_mult(am, xm);
        lemma_tm2(f, pow, prim, am, xm, 0);
        lemma_tm2(f, pow, prim, xm, x, 0);
        lemma_tm2(f, pow, prim, f.table_mult(xm, x), zj, 0);
        // a (x^m x z) = z (x (a x^m))
        lemma_tm2(f, pow, prim, xm, x, zj);
        lemma_tm2(f, pow, prim, x, zj, 0);
        lemma_tm2(f, pow, prim, am, xm, f.table_mult(x, zj));
        lemma_tm2(f, pow, prim, axm, x, zj);
        lemma_tm2(f, pow, prim, zj, x, axm);
        lemma_tm2(f, pow, prim, x, axm, 0);
        lemma_tm2(f, pow, prim, axm, zj, x);
        let pv = f.peval(a, x, m);
        crate::poly_laws::lemma_peval_bound(f, pow, prim, a, x, m);
        lemma_tm2(f, pow, prim, x, pv, axm);
        lemma_tm2(f, pow, prim, x, pv, 0);
        lemma_tm2(f, pow, prim, zj, f.table_mult(x, pv), f.table_mult(x, axm));
        assert(crate::lfsr_laws::transpose(vander_terms(f, a, xs, z))(j, m as int)
            == f.table_mult(am, f.table_mult(f.fpow(x, (m + 1) as nat), zj)));
    }
}

/// Law: the power system at distinct nonzero points `xs` has only the
/// trivial homogeneous solution: if `sum_j z_j xs_j^(i+1) = 0` for every
/// `i < xs.len()`, then `z = 0`.
pub proof fn law_power_system_kernel(f: &GaloisField, pow: usize, prim: usize, xs: Seq<usize>, synd: Seq<usize>)
    requires
        is_field(f, pow, prim),
        elements(xs, f.size()),
        elements(synd, f.size()),
        xs.len() >= 1,
        synd.len() >= xs.len(),
        forall|j: int| 0 <= j < xs.len() ==> #[trigger] xs[j] != 0,
        forall|a: int, b: int| 0 <= a < b < xs.len() ==> #[trigger] xs[a] != #[trigger] xs[b],
    ensures
        square_system(f, crate::decode_laws::power_system(f, xs, synd, xs.len()), xs.len()),
        only_zero_kernel(f, crate::decode_laws::power_system(f, xs, synd, xs.len()), xs.len()),
{
    lemma_tables(f, pow, prim);
    let v = xs.len();
    let m = crate::decode_laws::power_system(f, xs, synd, v);
    assert forall|r: int| 0 <= r < v implies #[trigger] m[r].len() == v + 1 && elements(m[r], f.size()) by {
        assert forall|c: int| 0 <= c < m[r].len() implies #[trigger] m[r][c] < f.size() by {
            if c < v {
                crate::poly_laws::lemma_fpow_bound(f, pow, prim, xs[c], (r + 1) as nat);
            }
        }
    }
    assert forall|z: Seq<usize>| #![trigger elements(z, f.size()), z.len()]
        z.len() == v && elements(z, f.size()) && (forall|r: int| 0 <= r < m.len() ==> #[trigger] dot(f, m[r], z, v) == 0)
        implies forall|c: int| 0 <= c < v ==> #[trigger] z[c] == 0 by {
        assert forall|k: int| 0 <= k < v implies #[trigger] z[k] == 0 by {
            lemma_prod_except(f, pow, prim, xs, k, v);
            let q = prod_except(f, xs, k, v);
            let w = vander_terms(f, q, xs, z);
            assert forall|r: int| 0 <= r < v implies #[trigger] crate::lfsr_laws::row_sum(w, r, v) == 0 by {
                lemma_vander_row(f, pow, prim, q, xs, synd, z, r, v);
                assert(m[r] == Seq::new(xs.len() + 1, |j: int| if j < xs.len() { f.fpow(xs[j], (r + 1) as nat) } else { synd[r] }));
                assert(dot(f, m[r], z, v) == 0);
                lemma_tm2(f, pow, prim, coef(q, r), 0, 0);
            }
            crate::lfsr_laws::lemma_rows_zero(w, v, v);
            crate::lfsr_laws::lemma_double_sum_swap(w, v, v);
            let tw = crate::lfsr_laws::transpose(w);
            assert forall|j: int| 0 <= j < v && j != k implies #[trigger] crate::lfsr_laws::row_sum(tw, j, v) == 0 by {
                lemma_vander_col(f, pow, prim, q, xs, z, j, v);
                let x = xs[j];
                if q.len() <= v {
                    crate::poly_laws::lemma_peval_trailing(f, pow, prim, q, x, q.len(), v);
                } else {
                    crate::poly_laws::lemma_peval_trailing(f, pow, prim, q, x, v, q.len());
                }
                lemma_tm2(f, pow, prim, x, 0, 0);
                lemma_tm2(f, pow, prim, coef(z, j), 0, 0);
            }
            crate::lfsr_laws::lemma_rows_single(tw, v, v, k);
            lemma_vander_col(f, pow, prim, q, xs, z, k, v);
            let x = xs[k];
            if q.len() <= v {
                crate::poly_laws::lemma_peval_trailing(f, pow, prim, q, x, q.len(), v);
            } else {
                crate::poly_laws::lemma_peval_trailing(f, pow, prim, q, x, v, q.len());
            }
            let qx = f.peval(q, x, v);
            crate::poly_laws::lemma_peval_bound(f, pow, prim, q, x, v);
            crate::lfsr_laws::lemma_no_zero_divisors(f, pow, prim, x, qx);
            lemma_tm2(f, pow, prim, x, qx, 0);
            if z[k] != 0 {
                crate::lfsr_laws::lemma_no_zero_divisors(f, pow, prim, z[k], f.table_mult(x, qx));
            }
        }
    }
}

} // verus!
