//! Linear recurrences over the field and what the Berlekamp iteration
//! computes. A connection polynomial `c` (with `c[0] = 1`) of length `l`
//! generates a sequence `s` up to `n` when every `s[i]` with `l <= i < n` is
//! the combination of the `l` before it. The laws: the length bound of
//! recurrences, that the iteration returns a shortest recurrence for the
//! syndromes, that the error locator of an error pattern is one, and that
//! for at most `(n - k) / 2` errors the iteration's locator has length the
//! number of errors and vanishes, reversed, at every error locator.
use vstd::prelude::*;
use crate::gf::GaloisField;
use crate::gfpoly::{lemma_xor, lemma_xor_bound};
use crate::field_laws::{lemma_tables, law_mult_commutes, law_mult_closed, law_mult_distributes, law_mult_zero,
    law_mult_one, law_mult_assoc};
use crate::poly_laws::{coef, elements, is_field};
use crate::gf::exp_at;
use crate::rs::ReedSolomon;
use crate::outcome::Outcome;

verus! {

/// `sum_{j < m} c[j] * s[i - j]`, entries outside a sequence counting as 0.
pub open spec fn lfsr_sum(f: &GaloisField, c: Seq<usize>, s: Seq<usize>, i: int, m: nat) -> usize
    decreases m,
{
    if m == 0 {
        0
    } else {
        lfsr_sum(f, c, s, i, (m - 1) as nat) ^ f.table_mult(coef(c, m - 1), coef(s, i - (m - 1)))
    }
}

/// `c` of length `l` (constant term 1, nothing above `X^l`) generates `s`
/// from `l` up to `n`.
pub open spec fn generates(f: &GaloisField, c: Seq<usize>, l: nat, s: Seq<usize>, n: nat) -> bool {
    &&& coef(c, 0) == 1
    &&& forall|j: int| j > l ==> #[trigger] coef(c, j) == 0
    &&& forall|i: int| l <= i < n ==> #[trigger] lfsr_sum(f, c, s, i, l + 1) == 0
}

/// Field arithmetic on the tables: closure, commutativity, distributivity
/// over addition, exchange of factors, zero and one.
pub proof fn lemma_tm(f: &GaloisField, pow: usize, prim: usize, a: usize, b: usize, c: usize)
    requires
        is_field(f, pow, prim),
        a < f.size(),
        b < f.size(),
        c < f.size(),
    ensures
        f.table_mult(a, b) < f.size(),
        f.table_mult(a, b) == f.table_mult(b, a),
        f.table_mult(a, b ^ c) == f.table_mult(a, b) ^ f.table_mult(a, c),
        f.table_mult(a, f.table_mult(b, c)) == f.table_mult(b, f.table_mult(a, c)),
        f.table_mult(a, 0) == 0,
        f.table_mult(1, a) == a,
{
    lemma_tables(f, pow, prim);
    law_mult_closed(f, a, b);
    law_mult_closed(f, b, a);
    law_mult_commutes(f, a, b);
    lemma_xor_bound(b, c, f.size() as usize);
    law_mult_distributes(f, pow, prim, a, b, c);
    law_mult_closed(f, a, b ^ c);
    law_mult_closed(f, a, c);
    law_mult_closed(f, b, c);
    law_mult_assoc(f, pow, prim, a, b, c);
    law_mult_assoc(f, pow, prim, b, a, c);
    law_mult_zero(f, a);
    law_mult_closed(f, a, 0);
    law_mult_one(f, pow, prim, a);
    law_mult_closed(f, a, 1);
    law_mult_closed(f, 1, a);
    law_mult_commutes(f, a, 1);
}

/// Sums of field elements are field elements.
proof fn lemma_lfsr_sum_bound(f: &GaloisField, pow: usize, prim: usize, c: Seq<usize>, s: Seq<usize>, i: int, m: nat)
    requires
        is_field(f, pow, prim),
        elements(c, f.size()),
        elements(s, f.size()),
    ensures
        lfsr_sum(f, c, s, i, m) < f.size(),
    decreases m,
{
    lemma_tables(f, pow, prim);
    if m > 0 {
        lemma_lfsr_sum_bound(f, pow, prim, c, s, i, (m - 1) as nat);
        lemma_tm(f, pow, prim, coef(c, m - 1), coef(s, i - (m - 1)), 0);
        lemma_xor_bound(lfsr_sum(f, c, s, i, (m - 1) as nat), f.table_mult(coef(c, m - 1), coef(s, i - (m - 1))),
            f.size() as usize);
    }
}

/// `sum_{j < a} c[j] * (sum_{k < b} t[k] * s[n - j - k])`.
pub open spec fn lfsr_double(f: &GaloisField, c: Seq<usize>, t: Seq<usize>, s: Seq<usize>, n: int, a: nat, b: nat) -> usize
    decreases a,
{
    if a == 0 {
        0
    } else {
        lfsr_double(f, c, t, s, n, (a - 1) as nat, b) ^ f.table_mult(coef(c, a - 1), lfsr_sum(f, t, s, n - (a - 1), b))
    }
}

/// Splitting off the last term of the inner sums.
proof fn lemma_double_split(f: &GaloisField, pow: usize, prim: usize, c: Seq<usize>, t: Seq<usize>, s: Seq<usize>,
    n: int, a: nat, b: nat)
    requires
        is_field(f, pow, prim),
        elements(c, f.size()),
        elements(t, f.size()),
        elements(s, f.size()),
        a >= 1,
    ensures
        lfsr_double(f, t, c, s, n, b, a) == lfsr_double(f, t, c, s, n, b, (a - 1) as nat)
            ^ f.table_mult(coef(c, a - 1), lfsr_sum(f, t, s, n - (a - 1), b)),
    decreases b,
{
    lemma_tables(f, pow, prim);
    let ca = coef(c, a - 1);
    if b == 0 {
        lemma_tm(f, pow, prim, ca, 0, 0);
        lemma_xor(0, 0, 0, 0);
    } else {
        let bb = (b - 1) as nat;
        lemma_double_split(f, pow, prim, c, t, s, n, a, bb);
        let tk = coef(t, b - 1);
        let big = lfsr_sum(f, c, s, n - bb, a);
        let small = lfsr_sum(f, c, s, n - bb, (a - 1) as nat);
        let x = coef(s, n - bb - (a - 1));
        assert(n - (a - 1) - bb == n - bb - (a - 1));
        let cx = f.table_mult(ca, x);
        assert(big == small ^ cx);
        lemma_lfsr_sum_bound(f, pow, prim, c, s, n - bb, (a - 1) as nat);
        lemma_lfsr_sum_bound(f, pow, prim, t, s, n - (a - 1), bb);
        lemma_lfsr_sum_bound(f, pow, prim, c, s, n - bb, a);
        lemma_tm(f, pow, prim, ca, x, 0);
        lemma_tm(f, pow, prim, tk, small, cx);
        lemma_tm(f, pow, prim, tk, ca, x);
        lemma_tm(f, pow, prim, ca, tk, x);
        let tx = f.table_mult(tk, x);
        lemma_tm(f, pow, prim, tx, 0, 0);
        let inner_prev = lfsr_sum(f, t, s, n - (a - 1), bb);
        lemma_tm(f, pow, prim, ca, inner_prev, tx);
        // the two sides differ by a rearrangement of four terms
        let p = lfsr_double(f, t, c, s, n, bb, (a - 1) as nat);
        let q = f.table_mult(ca, inner_prev);
        let u = f.table_mult(tk, small);
        let v = f.table_mult(tk, cx);
        assert(v == f.table_mult(ca, tx));
        lemma_xor(p, q, u, v);
        assert(lfsr_double(f, t, c, s, n, b, a) == (p ^ q) ^ (u ^ v));
        assert(lfsr_double(f, t, c, s, n, b, (a - 1) as nat) == p ^ u);
        assert(f.table_mult(ca, lfsr_sum(f, t, s, n - (a - 1), b)) == q ^ v);
        lemma_lfsr_sum_bound(f, pow, prim, c, s, n - bb, a);
    }
}

/// Double sums of field elements are field elements.
proof fn lemma_double_bound(f: &GaloisField, pow: usize, prim: usize, c: Seq<usize>, t: Seq<usize>, s: Seq<usize>,
    n: int, a: nat, b: nat)
    requires
        is_field(f, pow, prim),
        elements(c, f.size()),
        elements(t, f.size()),
        elements(s, f.size()),
    ensures
        lfsr_double(f, c, t, s, n, a, b) < f.size(),
    decreases a,
{
    lemma_tables(f, pow, prim);
    if a > 0 {
        lemma_double_bound(f, pow, prim, c, t, s, n, (a - 1) as nat, b);
        lemma_lfsr_sum_bound(f, pow, prim, t, s, n - (a - 1), b);
        lemma_tm(f, pow, prim, coef(c, a - 1), lfsr_sum(f, t, s, n - (a - 1), b), 0);
        lemma_xor_bound(lfsr_double(f, c, t, s, n, (a - 1) as nat, b),
            f.table_mult(coef(c, a - 1), lfsr_sum(f, t, s, n - (a - 1), b)), f.size() as usize);
    }
}

/// The double sum can be taken in either order.
proof fn lemma_double_swap(f: &GaloisField, pow: usize, prim: usize, c: Seq<usize>, t: Seq<usize>, s: Seq<usize>,
    n: int, a: nat, b: nat)
    requires
        is_field(f, pow, prim),
        elements(c, f.size()),
        elements(t, f.size()),
        elements(s, f.size()),
    ensures
        lfsr_double(f, c, t, s, n, a, b) == lfsr_double(f, t, c, s, n, b, a),
    decreases a,
{
    if a == 0 {
        lemma_double_zero(f, pow, prim, t, c, s, n, b);
    } else {
        lemma_double_swap(f, pow, prim, c, t, s, n, (a - 1) as nat, b);
        lemma_double_split(f, pow, prim, c, t, s, n, a, b);
    }
}

/// With no inner terms every outer term is zero.
proof fn lemma_double_zero(f: &GaloisField, pow: usize, prim: usize, c: Seq<usize>, t: Seq<usize>, s: Seq<usize>,
    n: int, a: nat)
    requires
        is_field(f, pow, prim),
        elements(c, f.size()),
    ensures
        lfsr_double(f, c, t, s, n, a, 0) == 0,
    decreases a,
{
    if a > 0 {
        lemma_double_zero(f, pow, prim, c, t, s, n, (a - 1) as nat);
        assert(lfsr_sum(f, t, s, n - (a - 1), 0) == 0);
        lemma_tm(f, pow, prim, coef(c, a - 1), 0, 0);
        lemma_xor(0, 0, 0, 0);
    }
}

/// Outer terms whose inner sum is zero add nothing.
proof fn lemma_double_tail_zero(f: &GaloisField, pow: usize, prim: usize, c: Seq<usize>, t: Seq<usize>, s: Seq<usize>,
    n: int, a: nat, b: nat, from: nat)
    requires
        is_field(f, pow, prim),
        elements(c, f.size()),
        elements(t, f.size()),
        elements(s, f.size()),
        from <= a,
        forall|j: int| from <= j < a ==> #[trigger] lfsr_sum(f, t, s, n - j, b) == 0,
    ensures
        lfsr_double(f, c, t, s, n, a, b) == lfsr_double(f, c, t, s, n, from, b),
    decreases a,
{
    if a > from {
        lemma_double_tail_zero(f, pow, prim, c, t, s, n, (a - 1) as nat, b, from);
        assert(lfsr_sum(f, t, s, n - (a - 1), b) == 0);
        lemma_tm(f, pow, prim, coef(c, a - 1), 0, 0);
        lemma_xor(lfsr_double(f, c, t, s, n, (a - 1) as nat, b), 0, 0, 0);
    }
}

/// Law (the length bound of linear recurrences): if `c` of length `l`
/// generates `s` up to `n` but not at `n`, every `t` that generates `s` up to
/// `n + 1` has length at least `n + 1 - l`.
pub proof fn law_length_bound(f: &GaloisField, pow: usize, prim: usize, s: Seq<usize>, c: Seq<usize>, l: nat,
    t: Seq<usize>, l2: nat, n: nat)
    requires
        is_field(f, pow, prim),
        elements(s, f.size()),
        elements(c, f.size()),
        elements(t, f.size()),
        generates(f, c, l, s, n),
        lfsr_sum(f, c, s, n as int, l + 1) != 0,
        generates(f, t, l2, s, n + 1),
    ensures
        l + l2 >= n + 1,
{
    if l + l2 <= n {
        let a = l + 1;
        let b = l2 + 1;
        // summed first over t: every inner sum is a generated term of t
        assert forall|j: int| 0 <= j < a implies #[trigger] lfsr_sum(f, t, s, n - j, b) == 0 by {
            assert(l2 <= n - j < n + 1);
        }
        lemma_double_tail_zero(f, pow, prim, c, t, s, n as int, a, b, 0);
        assert(lfsr_double(f, c, t, s, n as int, 0, b) == 0);
        // summed first over c: only the term of t[0] = 1 is left
        assert forall|k: int| 1 <= k < b implies #[trigger] lfsr_sum(f, c, s, n - k, a) == 0 by {
            assert(l <= n - k < n);
        }
        lemma_double_tail_zero(f, pow, prim, t, c, s, n as int, b, a, 1);
        let d = lfsr_sum(f, c, s, n as int, a);
        lemma_lfsr_sum_bound(f, pow, prim, c, s, n as int, a);
        lemma_tm(f, pow, prim, d, 0, 0);
        lemma_xor(d, 0, 0, 0);
        assert(lfsr_double(f, t, c, s, n as int, 0, a) == 0);
        assert(coef(t, 0) == 1);
        assert(lfsr_double(f, t, c, s, n as int, 1, a)
            == lfsr_double(f, t, c, s, n as int, 0, a) ^ f.table_mult(coef(t, 0), lfsr_sum(f, c, s, n as int - 0, a)));
        assert(lfsr_double(f, t, c, s, n as int, 1, a) == d);
        lemma_double_swap(f, pow, prim, c, t, s, n as int, a, b);
    }
}

/// Law: a recurrence of length `l` that generates `s` up to `n` keeps
/// generating it as far as some recurrence of length `l2` does, once
/// `n >= l + l2`: short recurrences that agree long enough agree for good.
pub proof fn law_generator_extends(f: &GaloisField, pow: usize, prim: usize, s: Seq<usize>, c: Seq<usize>, l: nat,
    t: Seq<usize>, l2: nat, n: nat, m: nat)
    requires
        is_field(f, pow, prim),
        elements(s, f.size()),
        elements(c, f.size()),
        elements(t, f.size()),
        generates(f, c, l, s, n),
        generates(f, t, l2, s, m),
        l + l2 <= n,
        n <= m,
    ensures
        generates(f, c, l, s, m),
    decreases m - n,
{
    if n < m {
        if lfsr_sum(f, c, s, n as int, l + 1) != 0 {
            assert forall|i: int| l2 <= i < n + 1 implies #[trigger] lfsr_sum(f, t, s, i, l2 + 1) == 0 by {}
            law_length_bound(f, pow, prim, s, c, l, t, l2, n);
        }
        assert forall|i: int| l <= i < n + 1 implies #[trigger] lfsr_sum(f, c, s, i, l + 1) == 0 by {
            if i < n {
            } else {
                assert(i == n);
            }
        }
        law_generator_extends(f, pow, prim, s, c, l, t, l2, n + 1, m);
    }
}

/// Terms whose coefficient is zero add nothing.
pub proof fn lemma_lfsr_trailing(f: &GaloisField, pow: usize, prim: usize, c: Seq<usize>, s: Seq<usize>, i: int,
    m: nat, m2: nat)
    requires
        is_field(f, pow, prim),
        elements(c, f.size()),
        elements(s, f.size()),
        m <= m2,
        forall|j: int| m <= j < m2 ==> #[trigger] coef(c, j) == 0,
    ensures
        lfsr_sum(f, c, s, i, m2) == lfsr_sum(f, c, s, i, m),
    decreases m2,
{
    if m2 > m {
        lemma_lfsr_trailing(f, pow, prim, c, s, i, m, (m2 - 1) as nat);
        let x = coef(s, i - (m2 - 1));
        lemma_tm(f, pow, prim, x, 0, 0);
        lemma_tm(f, pow, prim, 0, x, 0);
        lemma_xor(lfsr_sum(f, c, s, i, m), 0, 0, 0);
    }
}

/// `sum_{j < m} b[j - sft] * s[i - j]`: the sum of `b` shifted up by `sft`.
pub open spec fn shifted_sum(f: &GaloisField, b: Seq<usize>, s: Seq<usize>, i: int, sft: nat, m: nat) -> usize
    decreases m,
{
    if m == 0 {
        0
    } else {
        shifted_sum(f, b, s, i, sft, (m - 1) as nat) ^ f.table_mult(coef(b, m - 1 - sft), coef(s, i - (m - 1)))
    }
}

/// A shifted sum is the plain sum at the shifted position.
proof fn lemma_shifted_sum(f: &GaloisField, pow: usize, prim: usize, b: Seq<usize>, s: Seq<usize>, i: int, sft: nat, m: nat)
    requires
        is_field(f, pow, prim),
        elements(b, f.size()),
        elements(s, f.size()),
    ensures
        shifted_sum(f, b, s, i, sft, m) == if m <= sft { 0 } else { lfsr_sum(f, b, s, i - sft, (m - sft) as nat) },
    decreases m,
{
    if m > 0 {
        lemma_shifted_sum(f, pow, prim, b, s, i, sft, (m - 1) as nat);
        let x = coef(s, i - (m - 1));
        let prev = shifted_sum(f, b, s, i, sft, (m - 1) as nat);
        let term = f.table_mult(coef(b, m - 1 - sft), x);
        assert(shifted_sum(f, b, s, i, sft, m) == prev ^ term);
        if m - 1 < sft {
            assert(coef(b, m - 1 - sft) == 0);
            lemma_tm(f, pow, prim, x, 0, 0);
            lemma_tm(f, pow, prim, 0, x, 0);
            lemma_xor(0, 0, 0, 0);
        } else {
            let k = (m - sft) as nat;
            assert(i - sft - (k - 1) == i - (m - 1));
            assert(k - 1 == m - 1 - sft);
            assert(lfsr_sum(f, b, s, i - sft, k)
                == lfsr_sum(f, b, s, i - sft, (k - 1) as nat) ^ f.table_mult(coef(b, k - 1), coef(s, (i - sft) - (k - 1))));
            if m - 1 == sft {
                assert(prev == 0);
                assert(lfsr_sum(f, b, s, i - sft, 0) == 0);
                lemma_tm(f, pow, prim, coef(b, 0), x, 0);
                lemma_xor(term, 0, 0, 0);
            }
        }
    }
}

/// `(a + cc b) x = a x + cc (b x)` on the tables.
pub proof fn lemma_combo_term(f: &GaloisField, pow: usize, prim: usize, ak: usize, bk: usize, cc: usize, x: usize)
    requires
        is_field(f, pow, prim),
        ak < f.size(),
        bk < f.size(),
        cc < f.size(),
        x < f.size(),
    ensures
        f.table_mult(ak ^ f.table_mult(cc, bk), x) == f.table_mult(ak, x) ^ f.table_mult(cc, f.table_mult(bk, x)),
{
    lemma_tables(f, pow, prim);
    let cb = f.table_mult(cc, bk);
    lemma_tm(f, pow, prim, cc, bk, 0);
    lemma_xor_bound(ak, cb, f.size() as usize);
    lemma_tm(f, pow, prim, x, ak, cb);
    lemma_tm(f, pow, prim, ak ^ cb, x, 0);
    lemma_tm(f, pow, prim, ak, x, 0);
    lemma_tm(f, pow, prim, cb, x, 0);
    lemma_tm(f, pow, prim, bk, x, 0);
    lemma_tm(f, pow, prim, x, cc, bk);
    lemma_tm(f, pow, prim, cc, x, 0);
    lemma_tm(f, pow, prim, cc, bk, x);
}

/// The sum of `a + cc X^sft b` is the sum of `a` plus `cc` times the shifted
/// sum of `b`.
#[verifier::spinoff_prover]
proof fn lemma_lfsr_combo(f: &GaloisField, pow: usize, prim: usize, a: Seq<usize>, b: Seq<usize>, r: Seq<usize>,
    cc: usize, sft: nat, s: Seq<usize>, i: int, m: nat)
    requires
        is_field(f, pow, prim),
        elements(a, f.size()),
        elements(b, f.size()),
        elements(r, f.size()),
        elements(s, f.size()),
        cc < f.size(),
        forall|k: int| k >= 0 ==> #[trigger] coef(r, k) == coef(a, k) ^ f.table_mult(cc, coef(b, k - sft)),
    ensures
        lfsr_sum(f, r, s, i, m) == lfsr_sum(f, a, s, i, m) ^ f.table_mult(cc, shifted_sum(f, b, s, i, sft, m)),
    decreases m,
{
    lemma_tables(f, pow, prim);
    if m == 0 {
        lemma_tm(f, pow, prim, cc, 0, 0);
        lemma_xor(0, 0, 0, 0);
    } else {
        let mm = (m - 1) as nat;
        lemma_lfsr_combo(f, pow, prim, a, b, r, cc, sft, s, i, mm);
        let x = coef(s, i - mm);
        let ak = coef(a, mm as int);
        let bk = coef(b, mm - sft);
        lemma_combo_term(f, pow, prim, ak, bk, cc, x);
        let pa = lfsr_sum(f, a, s, i, mm);
        let pb = shifted_sum(f, b, s, i, sft, mm);
        lemma_lfsr_sum_bound(f, pow, prim, a, s, i, mm);
        lemma_shifted_bound(f, pow, prim, b, s, i, sft, mm);
        let bx = f.table_mult(bk, x);
        lemma_tm(f, pow, prim, bk, x, 0);
        lemma_tm(f, pow, prim, cc, pb, bx);
        assert(coef(r, mm as int) == ak ^ f.table_mult(cc, bk));
        lemma_xor(pa, f.table_mult(cc, pb), f.table_mult(ak, x), f.table_mult(cc, bx));
    }
}

/// Shifted sums of field elements are field elements.
proof fn lemma_shifted_bound(f: &GaloisField, pow: usize, prim: usize, b: Seq<usize>, s: Seq<usize>, i: int, sft: nat, m: nat)
    requires
        is_field(f, pow, prim),
        elements(b, f.size()),
        elements(s, f.size()),
    ensures
        shifted_sum(f, b, s, i, sft, m) < f.size(),
{
    lemma_shifted_sum(f, pow, prim, b, s, i, sft, m);
    if m > sft {
        lemma_lfsr_sum_bound(f, pow, prim, b, s, i - sft, (m - sft) as nat);
    }
    lemma_tables(f, pow, prim);
}

/// Adding `m` twice cancels.
proof fn lemma_xor_cancel(a: usize, m: usize, x: usize, p: usize)
    by (bit_vector)
    ensures
        (a ^ m) ^ (x ^ (p ^ m)) == a ^ (x ^ p),
{
}

/// The discrepancy the decoder computes is the recurrence sum over all
/// coefficients of the locator.
pub proof fn lemma_disc(rs: &ReedSolomon, pow: usize, prim: usize, syn: Seq<usize>, sig: Seq<usize>, i: nat, j: nat,
    acc: usize)
    requires
        is_field(&rs.field, pow, prim),
        elements(syn, rs.field.size()),
        elements(sig, rs.field.size()),
        acc < rs.field.size(),
        i + 1 < syn.len(),
        j <= sig.len(),
        rs.disc_from(syn, sig, i, j, acc) is Val,
    ensures
        rs.disc_from(syn, sig, i, j, acc) == Outcome::Val(acc ^ (lfsr_sum(&rs.field, sig, syn, (i + 1) as int, sig.len())
            ^ lfsr_sum(&rs.field, sig, syn, (i + 1) as int, j))),
    decreases sig.len() - j,
{
    let f = &rs.field;
    lemma_tables(f, pow, prim);
    if j >= sig.len() {
        lemma_xor(lfsr_sum(f, sig, syn, (i + 1) as int, j), 0, 0, 0);
        lemma_xor(acc, 0, 0, 0);
    } else {
        let x = syn[i + 1 - j];
        assert(coef(syn, i + 1 - j) == x);
        assert(coef(sig, j as int) == sig[j as int]);
        law_mult_closed(f, sig[j as int], x);
        let m = f.table_mult(sig[j as int], x);
        crate::field_laws::law_sum_xor(f, acc, m);
        lemma_xor_bound(acc, m, f.size() as usize);
        lemma_disc(rs, pow, prim, syn, sig, i, j + 1, acc ^ m);
        let full = lfsr_sum(f, sig, syn, (i + 1) as int, sig.len());
        let part = lfsr_sum(f, sig, syn, (i + 1) as int, j);
        assert(lfsr_sum(f, sig, syn, (i + 1) as int, j + 1) == part ^ m);
        lemma_xor_cancel(acc, m, full, part);
    }
}

/// The largest `j - h[j]` over the steps `j < m` with a nonzero
/// discrepancy, and -1 when there is none.
pub open spec fn max_gap(d: Seq<usize>, h: Seq<usize>, m: nat) -> int
    decreases m,
{
    if m == 0 {
        -1
    } else {
        let p = max_gap(d, h, (m - 1) as nat);
        let j = m - 1;
        if d[j] != 0 && j - h[j] >= p { j - h[j] } else { p }
    }
}

/// What the search for the earlier step keeps: the step with the largest
/// gap so far, or `(0, 0)` when no discrepancy was nonzero.
pub open spec fn rho_ok(d: Seq<usize>, h: Seq<usize>, j: nat, rho: (nat, nat)) -> bool {
    &&& max_gap(d, h, j) >= 0 ==> d[rho.0 as int] != 0 && rho.0 < j && rho.1 == rho.0 - h[rho.0 as int]
        && rho.1 == max_gap(d, h, j)
    &&& max_gap(d, h, j) < 0 ==> rho == (0nat, 0nat)
}

/// A step with a nonzero discrepancy bounds the largest gap from below.
proof fn lemma_max_gap_at_least(d: Seq<usize>, h: Seq<usize>, j: nat, m: nat)
    requires
        j < m,
        d[j as int] != 0,
    ensures
        max_gap(d, h, m) >= j - h[j as int],
    decreases m,
{
    if j < m - 1 {
        lemma_max_gap_at_least(d, h, j, (m - 1) as nat);
    }
}

/// The search for the earlier step finds the largest gap.
proof fn lemma_rho(rs: &ReedSolomon, d: Seq<usize>, h: Seq<usize>, j: nat, i: nat, rho: (nat, nat))
    requires
        j <= i,
        i <= d.len(),
        i <= h.len(),
        forall|m: int| 0 <= m < i ==> #[trigger] h[m] <= m,
        rho_ok(d, h, j, rho),
    ensures
        rs.rho_from(d, h, j, i, rho) matches Outcome::Val(r) && rho_ok(d, h, i, r),
    decreases i - j,
{
    if j < i {
        assert(h[j as int] <= j);
        let p = max_gap(d, h, j);
        if d[j as int] != 0 && j - h[j as int] >= rho.1 {
            lemma_rho(rs, d, h, j + 1, i, (j, (j - h[j as int]) as nat));
        } else {
            lemma_rho(rs, d, h, j + 1, i, rho);
        }
    }
}

/// Extending the sequences leaves the gaps of the earlier steps alone.
proof fn lemma_max_gap_prefix(d: Seq<usize>, h: Seq<usize>, d2: Seq<usize>, h2: Seq<usize>, m: nat)
    requires
        m <= d.len(),
        m <= h.len(),
        m <= d2.len(),
        m <= h2.len(),
        forall|j: int| 0 <= j < m ==> d2[j] == d[j] && h2[j] == h[j],
    ensures
        max_gap(d2, h2, m) == max_gap(d, h, m),
    decreases m,
{
    if m > 0 {
        lemma_max_gap_prefix(d, h, d2, h2, (m - 1) as nat);
    }
}

/// `a + cc X^sft b` as the decoder builds it: the product with a monomial
/// and a sum, coefficient by coefficient; with `a` of length `la` and `b`
/// of length `lb`, it has at most `max(la, sft + lb) + 1` coefficients.
proof fn lemma_poly_combo(f: &GaloisField, pow: usize, prim: usize, a: Seq<usize>, b: Seq<usize>, cc: usize, sft: nat,
    la: nat, lb: nat)
    requires
        is_field(f, pow, prim),
        elements(a, f.size()),
        elements(b, f.size()),
        a.len() > 0,
        b.len() > 0,
        cc < f.size(),
        forall|j: int| j > la ==> #[trigger] coef(a, j) == 0,
        forall|j: int| j > lb ==> #[trigger] coef(b, j) == 0,
    ensures
        f.mult_poly_out(crate::poly::mono_seq(cc, sft), b) matches Outcome::Val(p)
            && f.sum_poly_out(a, p) matches Outcome::Val(r) && r.len() > 0 && elements(r, f.size())
            && r.len() <= l_max(la, sft + lb) + 1
            && forall|k: int| k >= 0 ==> #[trigger] coef(r, k) == coef(a, k) ^ f.table_mult(cc, coef(b, k - sft)),
{
    lemma_tables(f, pow, prim);
    let mono = crate::poly::mono_seq(cc, sft);
    assert forall|i: int| 0 <= i < mono.len() implies #[trigger] mono[i] < f.size() by {}
    crate::poly_laws::law_mult_poly_eval(f, pow, prim, mono, b, 0);
    let p = f.mult_poly_out(mono, b)->Val_0;
    assert(p == f.conv(mono, b));
    assert forall|k: int| k >= 0 implies #[trigger] coef(p, k) == f.table_mult(cc, coef(b, k - sft)) by {
        crate::div_laws::lemma_conv_coef(f, mono, b, k);
        crate::div_laws::lemma_pc_single_left(f, mono, b, sft as int, cc, k, mono.len());
    }
    crate::div_laws::lemma_sum_poly_coef(f, pow, prim, a, p);
    lemma_deg_le(a, la);
    assert forall|j: int| j > sft + lb implies #[trigger] coef(p, j) == 0 by {
        assert(coef(p, j) == f.table_mult(cc, coef(b, j - sft)));
        assert(coef(b, j - sft) == 0);
        lemma_tm(f, pow, prim, cc, 0, 0);
    }
    lemma_deg_le(p, sft + lb);
}

/// The larger of two numbers.
pub open spec fn l_max(a: nat, b: nat) -> nat {
    if a > b { a } else { b }
}

/// A sequence whose coefficients above `l` vanish has degree at most `l`.
proof fn lemma_deg_le(s: Seq<usize>, l: nat)
    requires
        forall|j: int| j > l ==> #[trigger] coef(s, j) == 0,
    ensures
        crate::poly::deg_of(s) <= l,
{
    crate::poly::lemma_deg_of(s);
    let d = crate::poly::deg_of(s);
    if d > l {
        assert(coef(s, d as int) == 0);
    }
}

/// An inverse that the search finds is one.
proof fn lemma_first_inverse_is(f: &GaloisField, x: usize, start: nat)
    ensures
        f.first_inverse(x, start) matches Some(u) ==> f.mult_out(x, u) == Outcome::Val(1usize) && u < f.size(),
    decreases f.size() - start,
{
    if start < f.size() && f.mult_out(x, start as usize) != Outcome::Val(1usize) {
        lemma_first_inverse_is(f, x, start + 1);
    }
}

/// What the Berlekamp iteration keeps about each of its steps `mu`: the
/// locator generates the syndromes up to `mu` with length `h[mu]`, its
/// discrepancy at `mu` is `d[mu]`, and `h[mu]` is one more than the largest
/// gap of the earlier steps.
pub open spec fn step_ok(f: &GaloisField, syn: Seq<usize>, d: Seq<usize>, sigma: Seq<Seq<usize>>, h: Seq<usize>,
    mu: nat) -> bool {
    &&& elements(sigma[mu as int], f.size())
    &&& sigma[mu as int].len() > 0
    &&& sigma[mu as int].len() <= h[mu as int] + 1
    &&& generates(f, sigma[mu as int], h[mu as int] as nat, syn, mu)
    &&& h[mu as int] <= mu
    &&& mu < d.len() ==> d[mu as int] == lfsr_sum(f, sigma[mu as int], syn, mu as int, (h[mu as int] + 1) as nat)
        && d[mu as int] < f.size()
    &&& h[mu as int] == max_gap(d, h, mu) + 1
}

/// The recurrence sum of `a + cc X^sft b` with `l + 1` terms, when `a` has
/// length `la` and `b` length `lb` with `la <= l` and `sft + lb <= l`.
proof fn lemma_combo_sum(f: &GaloisField, pow: usize, prim: usize, a: Seq<usize>, la: nat, b: Seq<usize>, lb: nat,
    r: Seq<usize>, cc: usize, sft: nat, syn: Seq<usize>, k: int, l: nat)
    requires
        is_field(f, pow, prim),
        elements(a, f.size()),
        elements(b, f.size()),
        elements(r, f.size()),
        elements(syn, f.size()),
        cc < f.size(),
        la <= l,
        sft + lb <= l,
        forall|j: int| j > la ==> #[trigger] coef(a, j) == 0,
        forall|j: int| j > lb ==> #[trigger] coef(b, j) == 0,
        forall|j: int| j >= 0 ==> #[trigger] coef(r, j) == coef(a, j) ^ f.table_mult(cc, coef(b, j - sft)),
    ensures
        lfsr_sum(f, r, syn, k, l + 1) == lfsr_sum(f, a, syn, k, la + 1)
            ^ f.table_mult(cc, lfsr_sum(f, b, syn, k - sft, lb + 1)),
{
    lemma_lfsr_combo(f, pow, prim, a, b, r, cc, sft, syn, k, l + 1);
    lemma_lfsr_trailing(f, pow, prim, a, syn, k, la + 1, l + 1);
    lemma_shifted_sum(f, pow, prim, b, syn, k, sft, l + 1);
    lemma_lfsr_trailing(f, pow, prim, b, syn, k - sft, lb + 1, (l + 1 - sft) as nat);
}

/// A step with a nonzero discrepancy that corrects with an earlier step
/// `r0`: the new locator generates the syndromes one step further, with
/// length `max(h[i], i + 1 - h[i])`.
#[verifier::spinoff_prover]
proof fn lemma_next_general(rs: &ReedSolomon, pow: usize, prim: usize, syn: Seq<usize>, d: Seq<usize>,
    sigma: Seq<Seq<usize>>, h: Seq<usize>, i: nat, r0: nat, nxt: Seq<usize>)
    requires
        is_field(&rs.field, pow, prim),
        elements(syn, rs.field.size()),
        i < syn.len(),
        i >= 1,
        d.len() == i + 1,
        sigma.len() == i + 1,
        h.len() == i + 1,
        forall|mu: nat| mu <= i ==> #[trigger] step_ok(&rs.field, syn, d, sigma, h, mu),
        d[i as int] != 0,
        r0 < i,
        d[r0 as int] != 0,
        r0 - h[r0 as int] == h[i as int] - 1,
        rs.bm_correct(d, sigma, i, r0) == Outcome::Val(nxt),
    ensures
        elements(nxt, rs.field.size()),
        nxt.len() > 0,
        nxt.len() <= (if i + 1 - h[i as int] > h[i as int] { i + 1 - h[i as int] } else { h[i as int] as int }) + 1,
        generates(&rs.field, nxt, (if i + 1 - h[i as int] > h[i as int] { i + 1 - h[i as int] } else { h[i as int] as int }) as nat,
            syn, i + 1),
{
    let f = &rs.field;
    lemma_tables(f, pow, prim);
    assert(step_ok(f, syn, d, sigma, h, i));
    assert(step_ok(f, syn, d, sigma, h, r0));
    let si = sigma[i as int];
    let sr = sigma[r0 as int];
    let hi = h[i as int] as nat;
    let hr = h[r0 as int] as nat;
    let di = d[i as int];
    let dr = d[r0 as int];
    let sft = (i - r0) as nat;
    let hn: nat = (if i + 1 - hi > hi { i + 1 - hi } else { hi as int }) as nat;
    assert(sft + hr <= hn);
    // the multiplier d[i] / d[r0]
    assert(dr != f.size());
    let inv = f.first_inverse(dr, 1)->Some_0;
    lemma_first_inverse_is(f, dr, 1);
    law_mult_closed(f, di, inv);
    let c = f.table_mult(di, inv);
    lemma_poly_combo(f, pow, prim, si, sr, c, sft, hi, hr);
    law_mult_closed(f, dr, inv);
    assert(f.table_mult(dr, inv) == 1);
    // c * d[r0] = d[i]
    lemma_tm(f, pow, prim, inv, dr, 0);
    crate::field_laws::law_mult_assoc(f, pow, prim, di, inv, dr);
    crate::field_laws::law_mult_one(f, pow, prim, di);
    law_mult_closed(f, di, 1);
    assert(f.table_mult(c, dr) == di);
    lemma_tm(f, pow, prim, c, 0, 0);
    assert forall|k: int| hn <= k < i + 1 implies #[trigger] lfsr_sum(f, nxt, syn, k, hn + 1) == 0 by {
        lemma_combo_sum(f, pow, prim, si, hi, sr, hr, nxt, c, sft, syn, k, hn);
        if k < i {
            assert(lfsr_sum(f, si, syn, k, hi + 1) == 0);
            assert(hr <= k - sft < r0);
            assert(lfsr_sum(f, sr, syn, k - sft, hr + 1) == 0);
            lemma_xor(0, 0, 0, 0);
        } else {
            assert(k - sft == r0);
            lemma_xor(di, 0, 0, 0);
        }
    }
    assert(coef(sr, 0 - sft) == 0);
    lemma_xor(1, 0, 0, 0);
    assert(coef(nxt, 0) == 1);
    assert forall|j: int| j > hn implies #[trigger] coef(nxt, j) == 0 by {
        assert(coef(si, j) == 0);
        assert(coef(sr, j - sft) == 0);
        lemma_xor(0, 0, 0, 0);
    }
}

/// A step with a nonzero discrepancy and no earlier step to correct with:
/// the new locator has length `i + 1`.
proof fn lemma_next_special(rs: &ReedSolomon, pow: usize, prim: usize, syn: Seq<usize>, d: Seq<usize>,
    sigma: Seq<Seq<usize>>, h: Seq<usize>, i: nat, r0: nat, nxt: Seq<usize>)
    requires
        is_field(&rs.field, pow, prim),
        elements(syn, rs.field.size()),
        d.len() == i + 1,
        sigma.len() == i + 1,
        h.len() == i + 1,
        step_ok(&rs.field, syn, d, sigma, h, i),
        r0 < i + 1,
        d[r0 as int] == 0 || i == 0,
        rs.bm_correct(d, sigma, i, r0) == Outcome::Val(nxt),
    ensures
        elements(nxt, rs.field.size()),
        nxt.len() > 0,
        nxt.len() <= i + 2,
        generates(&rs.field, nxt, i + 1, syn, i + 1),
{
    let f = &rs.field;
    lemma_tables(f, pow, prim);
    let si = sigma[i as int];
    let di = d[i as int];
    let one = crate::poly::mono_seq(1, 0);
    crate::field_laws::law_mult_one(f, pow, prim, di);
    assert forall|j: int| 0 <= j < one.len() implies #[trigger] one[j] < f.size() by {}
    lemma_poly_combo(f, pow, prim, si, one, di, i + 1, h[i as int] as nat, 0);
    lemma_tm(f, pow, prim, di, 0, 0);
    assert(coef(one, 0 - (i + 1)) == 0);
    lemma_xor(1, 0, 0, 0);
    assert(coef(nxt, 0) == 1);
    assert forall|j: int| j > i + 1 implies #[trigger] coef(nxt, j) == 0 by {
        assert(coef(si, j) == 0);
        assert(coef(one, j - (i + 1)) == 0);
        lemma_xor(0, 0, 0, 0);
    }
}

/// One step of the Berlekamp iteration keeps `step_ok` for the new step.
#[verifier::spinoff_prover]
pub proof fn lemma_bm_next(rs: &ReedSolomon, pow: usize, prim: usize, syn: Seq<usize>, d: Seq<usize>,
    sigma: Seq<Seq<usize>>, h: Seq<usize>, i: nat, sigma2: Seq<Seq<usize>>, h2: Seq<usize>)
    requires
        is_field(&rs.field, pow, prim),
        elements(syn, rs.field.size()),
        i < syn.len(),
        syn.len() <= usize::MAX,
        d.len() == i + 1,
        sigma.len() == i + 1,
        h.len() == i + 1,
        forall|mu: nat| mu <= i ==> #[trigger] step_ok(&rs.field, syn, d, sigma, h, mu),
        rs.bm_update(d, sigma, h, i) == Outcome::Val((sigma2, h2)),
    ensures
        sigma2.len() == i + 2,
        h2.len() == i + 2,
        sigma2.take((i + 1) as int) == sigma,
        h2.take((i + 1) as int) == h,
        elements(sigma2[(i + 1) as int], rs.field.size()),
        sigma2[(i + 1) as int].len() > 0,
        sigma2[(i + 1) as int].len() <= h2[(i + 1) as int] + 1,
        generates(&rs.field, sigma2[(i + 1) as int], h2[(i + 1) as int] as nat, syn, i + 1),
        h2[(i + 1) as int] <= i + 1,
        h2[(i + 1) as int] == max_gap(d, h2, i + 1) + 1,
        h2[(i + 1) as int] == if d[i as int] == 0 { h[i as int] as int }
            else if i + 1 - h[i as int] > h[i as int] { i + 1 - h[i as int] } else { h[i as int] as int },
{
    let f = &rs.field;
    assert(step_ok(f, syn, d, sigma, h, i));
    let hi = h[i as int];
    let di = d[i as int];
    assert forall|m: int| 0 <= m < i implies #[trigger] h[m] <= m by {
        assert(step_ok(f, syn, d, sigma, h, m as nat));
    }
    lemma_max_gap_prefix(d, h, d, h2, i);
    if di == 0 {
        assert(sigma2 == sigma.push(sigma[i as int]));
        assert(h2 == h.push(hi));
        assert forall|k: int| hi <= k < i + 1 implies #[trigger] lfsr_sum(f, sigma[i as int], syn, k, (hi as nat) + 1) == 0 by {
            if k == i {
            }
        }
        assert(generates(f, sigma[i as int], hi as nat, syn, i + 1));
        assert(max_gap(d, h2, i + 1) == max_gap(d, h2, i));
        assert(sigma2.take((i + 1) as int) =~= sigma);
        assert(h2.take((i + 1) as int) =~= h);
    } else {
        lemma_rho(rs, d, h, 0, i, (0, 0));
        let (r0, r1) = rs.rho_from(d, h, 0, i, (0, 0))->Val_0;
        let special = d[r0 as int] == 0 || i == 0;
        let temp: nat = if special { i + 1 } else { (i - r1) as nat };
        let hn: usize = if temp > hi { temp as usize } else { hi };
        let nxt = rs.bm_correct(d, sigma, i, r0)->Val_0;
        assert(sigma2 == sigma.push(nxt));
        assert(h2 == h.push(hn));
        assert(h2[i as int] == hi);
        assert(max_gap(d, h2, i) == hi - 1);
        assert(max_gap(d, h2, i + 1) == if i - hi >= hi - 1 { i - hi } else { hi - 1 });
        if special {
            if max_gap(d, h, i) >= 0 {
                assert(d[r0 as int] != 0 && r0 < i);
            }
            assert(hi == 0);
            lemma_next_special(rs, pow, prim, syn, d, sigma, h, i, r0, nxt);
        } else {
            if max_gap(d, h, i) < 0 {
                assert(r0 == 0);
                lemma_max_gap_at_least(d, h, 0, i);
                assert(step_ok(f, syn, d, sigma, h, 0));
            }
            assert(max_gap(d, h, i) >= 0);
            assert(step_ok(f, syn, d, sigma, h, r0));
            lemma_next_general(rs, pow, prim, syn, d, sigma, h, i, r0, nxt);
        }
        assert(sigma2.take((i + 1) as int) =~= sigma);
        assert(h2.take((i + 1) as int) =~= h);
    }
}

/// The next discrepancy the iteration computes is the recurrence sum of the
/// new locator at the next position.
proof fn lemma_next_disc(rs: &ReedSolomon, pow: usize, prim: usize, syn: Seq<usize>, sig: Seq<usize>, l: nat, t: nat)
    requires
        is_field(&rs.field, pow, prim),
        elements(syn, rs.field.size()),
        elements(sig, rs.field.size()),
        sig.len() > 0,
        generates(&rs.field, sig, l, syn, t + 1),
        t + 1 < syn.len(),
        rs.disc_from(syn, sig, t, 1, syn[(t + 1) as int]) is Val,
    ensures
        rs.disc_from(syn, sig, t, 1, syn[(t + 1) as int]) == Outcome::Val(lfsr_sum(&rs.field, sig, syn, (t + 1) as int, l + 1)),
        lfsr_sum(&rs.field, sig, syn, (t + 1) as int, l + 1) < rs.field.size(),
{
    let f = &rs.field;
    lemma_tables(f, pow, prim);
    let x = syn[(t + 1) as int];
    lemma_disc(rs, pow, prim, syn, sig, t, 1, x);
    let full = lfsr_sum(f, sig, syn, (t + 1) as int, sig.len());
    assert(coef(syn, (t + 1) as int - 0) == x);
    lemma_tm(f, pow, prim, x, 0, 0);
    assert(lfsr_sum(f, sig, syn, (t + 1) as int, 0) == 0);
    assert(coef(syn, (t + 1) as int - (1 - 1)) == x);
    assert(lfsr_sum(f, sig, syn, (t + 1) as int, 1) == 0 ^ f.table_mult(coef(sig, 0), x));
    lemma_xor(x, 0, 0, 0);
    lemma_xor(full, x, 0, 0);
    lemma_xor_cancel(0, x, full, 0);
    lemma_xor(full, 0, 0, 0);
    assert(x ^ (full ^ x) == full) by {
        lemma_xor_cancel(0, x, full, 0);
        lemma_xor(0, x, 0, 0);
        lemma_xor(full, x, 0, 0);
    }
    if sig.len() <= l + 1 {
        lemma_lfsr_trailing(f, pow, prim, sig, syn, (t + 1) as int, sig.len(), l + 1);
    } else {
        lemma_lfsr_trailing(f, pow, prim, sig, syn, (t + 1) as int, l + 1, sig.len());
    }
    lemma_lfsr_sum_bound(f, pow, prim, sig, syn, (t + 1) as int, l + 1);
}

/// The state of the Berlekamp iteration after `t` steps, as far as the
/// length bound needs it.
pub open spec fn bm_ok(f: &GaloisField, syn: Seq<usize>, nk: nat, t: nat, d: Seq<usize>, sigma: Seq<Seq<usize>>,
    h: Seq<usize>) -> bool {
    &&& sigma.len() == t + 1
    &&& h.len() == t + 1
    &&& d.len() == if t < nk { t + 1 } else { t }
    &&& forall|mu: nat| mu <= t ==> #[trigger] step_ok(f, syn, d, sigma, h, mu)
    &&& forall|mu: nat| mu < t ==> #[trigger] h[(mu + 1) as int] == if d[mu as int] == 0 { h[mu as int] as int }
        else if mu + 1 - h[mu as int] > h[mu as int] { mu + 1 - h[mu as int] } else { h[mu as int] as int }
}

/// Every state the iteration reaches is `bm_ok`.
pub proof fn lemma_bm_inv(rs: &ReedSolomon, pow: usize, prim: usize, syn: Seq<usize>, nk: nat, t: nat)
    requires
        is_field(&rs.field, pow, prim),
        elements(syn, rs.field.size()),
        nk <= syn.len(),
        syn.len() <= usize::MAX,
        1 <= nk,
        t <= nk,
        rs.bm_state(syn, nk, t) is Val,
    ensures
        rs.bm_state(syn, nk, t) matches Outcome::Val((d, sigma, h)) && bm_ok(&rs.field, syn, nk, t, d, sigma, h),
    decreases t,
{
    let f = &rs.field;
    lemma_tables(f, pow, prim);
    if t == 0 {
        let d = seq![syn[0]];
        let sigma = seq![crate::poly::mono_seq(1, 0)];
        let h = seq![0usize];
        let one = crate::poly::mono_seq(1, 0);
        lemma_tm(f, pow, prim, syn[0], 0, 0);
        assert(coef(syn, 0) == syn[0]);
        lemma_xor(f.table_mult(1, syn[0]), 0, 0, 0);
        assert(lfsr_sum(f, one, syn, 0, 0) == 0);
        assert(coef(syn, 0 - (1 - 1)) == syn[0]);
        assert(lfsr_sum(f, one, syn, 0, 1) == 0 ^ f.table_mult(coef(one, 0), syn[0]));
        assert(step_ok(f, syn, d, sigma, h, 0));
        assert forall|mu: nat| mu <= 0 implies #[trigger] step_ok(f, syn, d, sigma, h, mu) by {}
    } else {
        let i = (t - 1) as nat;
        lemma_bm_inv(rs, pow, prim, syn, nk, i);
        let (d, sigma, h) = rs.bm_state(syn, nk, i)->Val_0;
        let (sigma2, h2) = rs.bm_update(d, sigma, h, i)->Val_0;
        lemma_bm_next(rs, pow, prim, syn, d, sigma, h, i, sigma2, h2);
        let d2 = if t != nk { d.push(rs.disc_from(syn, sigma2[t as int], i, 1, syn[t as int])->Val_0) } else { d };
        assert(rs.bm_state(syn, nk, t) == Outcome::Val((d2, sigma2, h2)));
        if t != nk {
            assert(step_ok(f, syn, d, sigma2, h2, t));
            lemma_next_disc(rs, pow, prim, syn, sigma2[t as int], h2[t as int] as nat, i);
        }
        assert forall|mu: nat| mu <= t implies #[trigger] step_ok(f, syn, d2, sigma2, h2, mu) by {
            lemma_max_gap_prefix(d, h2, d2, h2, mu);
            if mu < t {
                assert(step_ok(f, syn, d, sigma, h, mu));
                assert(sigma2[mu as int] == sigma2.take(t as int)[mu as int]);
                assert(h2[mu as int] == h2.take(t as int)[mu as int]);
                lemma_max_gap_prefix(d, h, d, h2, mu);
            }
        }
        assert forall|mu: nat| mu < t implies #[trigger] h2[(mu + 1) as int] == if d2[mu as int] == 0 { h2[mu as int] as int }
            else if mu + 1 - h2[mu as int] > h2[mu as int] { mu + 1 - h2[mu as int] } else { h2[mu as int] as int } by {
            assert(h2[mu as int] == h2.take(t as int)[mu as int]);
            if mu + 1 < t {
                assert(h2[(mu + 1) as int] == h2.take(t as int)[(mu + 1) as int]);
            }
        }
    }
}

/// The lengths the iteration reaches never exceed the length of any
/// recurrence that generates the syndromes.
proof fn lemma_bm_min(f: &GaloisField, pow: usize, prim: usize, syn: Seq<usize>, nk: nat, d: Seq<usize>,
    sigma: Seq<Seq<usize>>, h: Seq<usize>, tau: Seq<usize>, l2: nat, mu: nat)
    requires
        is_field(f, pow, prim),
        elements(syn, f.size()),
        elements(tau, f.size()),
        bm_ok(f, syn, nk, nk, d, sigma, h),
        generates(f, tau, l2, syn, nk),
        mu <= nk,
    ensures
        h[mu as int] <= l2,
    decreases mu,
{
    if mu == 0 {
        assert(step_ok(f, syn, d, sigma, h, 0));
    } else {
        let m = (mu - 1) as nat;
        lemma_bm_min(f, pow, prim, syn, nk, d, sigma, h, tau, l2, m);
        assert(h[(m + 1) as int] == if d[m as int] == 0 { h[m as int] as int }
            else if m + 1 - h[m as int] > h[m as int] { m + 1 - h[m as int] } else { h[m as int] as int });
        assert(step_ok(f, syn, d, sigma, h, m));
        if d[m as int] != 0 {
            assert forall|i: int| l2 <= i < m + 1 implies #[trigger] lfsr_sum(f, tau, syn, i, l2 + 1) == 0 by {}
            law_length_bound(f, pow, prim, syn, sigma[m as int], h[m as int] as nat, tau, l2, m);
        }
    }
}

/// The length of the locator that the Berlekamp iteration ends with.
pub open spec fn bm_length(rs: &ReedSolomon, syn: Seq<usize>) -> nat {
    (rs.bm_state(syn, (rs.n - rs.k) as nat, (rs.n - rs.k) as nat)->Val_0.2.last()) as nat
}

/// Law: the Berlekamp iteration returns a shortest linear recurrence for the
/// syndromes: its locator `sig` (constant term 1) generates them with
/// length `bm_length`, and no recurrence of field elements that generates
/// them is shorter.
pub proof fn law_berlekamp_shortest(rs: &ReedSolomon, pow: usize, prim: usize, syn: Seq<usize>)
    requires
        is_field(&rs.field, pow, prim),
        elements(syn, rs.field.size()),
        rs.k < rs.n,
        syn.len() == rs.n - rs.k,
        syn.len() < usize::MAX,
    ensures
        rs.berlekamp_out(syn) matches Outcome::Val(sig) && elements(sig, rs.field.size()) && sig.len() > 0
            && generates(&rs.field, sig, bm_length(rs, syn), syn, syn.len())
            && forall|tau: Seq<usize>, l2: nat| elements(tau, rs.field.size())
                && #[trigger] generates(&rs.field, tau, l2, syn, syn.len()) ==> bm_length(rs, syn) <= l2,
{
    lemma_bm_total(rs, pow, prim, syn, syn.len(), syn.len());
    let f = &rs.field;
    let nk = (rs.n - rs.k) as nat;
    lemma_bm_inv(rs, pow, prim, syn, nk, nk);
    let (d, sigma, h) = rs.bm_state(syn, nk, nk)->Val_0;
    assert(step_ok(f, syn, d, sigma, h, nk));
    assert(sigma.last() == sigma[nk as int]);
    assert(h.last() == h[nk as int]);
    assert forall|tau: Seq<usize>, l2: nat| elements(tau, f.size())
        && #[trigger] generates(f, tau, l2, syn, syn.len()) implies bm_length(rs, syn) <= l2 by {
        lemma_bm_min(f, pow, prim, syn, nk, d, sigma, h, tau, l2, nk);
    }
}

/// The number of nonzero entries among the first `k` of `e`.
pub open spec fn nonzeros(e: Seq<usize>, k: nat) -> nat
    decreases k,
{
    if k == 0 { 0 } else { nonzeros(e, (k - 1) as nat) + if e[k - 1] != 0 { 1nat } else { 0nat } }
}

/// The monic polynomial `prod (g^p + X)` over the positions `p < k` where
/// `e` is nonzero: its zeros are the error locators `g^p`.
pub open spec fn locator_rev(f: &GaloisField, g: usize, e: Seq<usize>, k: nat) -> Seq<usize>
    decreases k,
{
    if k == 0 {
        seq![1usize]
    } else {
        let r = locator_rev(f, g, e, (k - 1) as nat);
        if e[k - 1] != 0 { f.conv(r, seq![f.fpow(g, (k - 1) as nat), 1usize]) } else { r }
    }
}

/// `locator_rev` is monic of degree `nonzeros` and vanishes at every `g^p`.
pub proof fn lemma_locator_rev(f: &GaloisField, pow: usize, prim: usize, g: usize, e: Seq<usize>, k: nat)
    requires
        is_field(f, pow, prim),
        g < f.size(),
        k <= e.len(),
    ensures
        locator_rev(f, g, e, k).len() > 0,
        elements(locator_rev(f, g, e, k), f.size()),
        coef(locator_rev(f, g, e, k), nonzeros(e, k) as int) == 1,
        forall|j: int| j > nonzeros(e, k) ==> #[trigger] coef(locator_rev(f, g, e, k), j) == 0,
        forall|p: nat| p < k && e[p as int] != 0 ==>
            #[trigger] f.peval(locator_rev(f, g, e, k), f.fpow(g, p), locator_rev(f, g, e, k).len()) == 0,
    decreases k,
{
    lemma_tables(f, pow, prim);
    if k == 0 {
        let one = seq![1usize];
        assert forall|i: int| 0 <= i < one.len() implies #[trigger] one[i] < f.size() by {}
    } else {
        let kk = (k - 1) as nat;
        lemma_locator_rev(f, pow, prim, g, e, kk);
        let r = locator_rev(f, g, e, kk);
        if e[kk as int] != 0 {
            let a = f.fpow(g, kk);
            crate::poly_laws::lemma_fpow_bound(f, pow, prim, g, kk);
            let lin = seq![a, 1usize];
            assert forall|i: int| 0 <= i < lin.len() implies #[trigger] lin[i] < f.size() by {}
            crate::poly_laws::law_mult_poly_eval(f, pow, prim, r, lin, 0);
            let c = f.conv(r, lin);
            assert(f.mult_poly_out(r, lin) == Outcome::Val(c));
            let w = nonzeros(e, kk);
            assert forall|i: int| i > w implies coef(r, i) == 0 by {}
            assert forall|j: int| j > 1 implies coef(lin, j) == 0 by {}
            assert forall|j: int| j > w + 1 implies #[trigger] coef(c, j) == 0 by {
                crate::div_laws::lemma_conv_coef(f, r, lin, j);
                crate::div_laws::lemma_pc_top(f, r, lin, w as int, 1, j, r.len());
            }
            crate::div_laws::lemma_conv_coef(f, r, lin, (w + 1) as int);
            crate::div_laws::lemma_pc_top(f, r, lin, w as int, 1, (w + 1) as int, r.len());
            if w >= r.len() {
                assert(coef(r, w as int) == 0);
            }
            law_mult_one(f, pow, prim, 1);
            law_mult_closed(f, 1, 1);
            assert(coef(c, (w + 1) as int) == 1);
            assert forall|p: nat| p < k && e[p as int] != 0 implies
                #[trigger] f.peval(c, f.fpow(g, p), c.len()) == 0 by {
                let x = f.fpow(g, p);
                crate::poly_laws::lemma_fpow_bound(f, pow, prim, g, p);
                crate::poly_laws::law_mult_poly_eval(f, pow, prim, r, lin, x);
                crate::poly_laws::law_eval(f, pow, prim, c, x);
                crate::decode_laws::lemma_eval_lin(f, pow, prim, a, x);
                crate::poly_laws::law_eval(f, pow, prim, lin, x);
                let pr = f.peval(r, x, r.len());
                crate::poly_laws::lemma_peval_bound(f, pow, prim, r, x, r.len());
                lemma_xor_bound(a, x, f.size() as usize);
                if p < kk {
                    assert(pr == 0);
                    lemma_tm(f, pow, prim, a ^ x, 0, 0);
                } else {
                    assert(x == a);
                    lemma_xor(a, 0, 0, 0);
                    lemma_tm(f, pow, prim, pr, 0, 0);
                }
            }
        } else {
            assert forall|p: nat| p < k && e[p as int] != 0 implies
                #[trigger] f.peval(r, f.fpow(g, p), r.len()) == 0 by {
                assert(p < kk);
            }
        }
    }
}

/// `sum_{k < b} F(j, k)`.
pub open spec fn row_sum(F: spec_fn(int, int) -> usize, j: int, b: nat) -> usize
    decreases b,
{
    if b == 0 { 0 } else { row_sum(F, j, (b - 1) as nat) ^ F(j, b - 1) }
}

/// `sum_{j < a} sum_{k < b} F(j, k)`.
pub open spec fn double_sum(F: spec_fn(int, int) -> usize, a: nat, b: nat) -> usize
    decreases a,
{
    if a == 0 { 0 } else { double_sum(F, (a - 1) as nat, b) ^ row_sum(F, a - 1, b) }
}

/// `F` with its arguments exchanged.
pub open spec fn transpose(F: spec_fn(int, int) -> usize) -> spec_fn(int, int) -> usize {
    |k: int, j: int| F(j, k)
}

/// A double sum can be taken in either order.
pub proof fn lemma_double_sum_swap(F: spec_fn(int, int) -> usize, a: nat, b: nat)
    ensures
        double_sum(F, a, b) == double_sum(transpose(F), b, a),
    decreases a,
{
    if a == 0 {
        lemma_double_zero_rows(transpose(F), b);
    } else {
        lemma_double_sum_swap(F, (a - 1) as nat, b);
        lemma_double_add_row(F, a, b);
    }
}

/// With no columns every row sum is zero.
proof fn lemma_double_zero_rows(F: spec_fn(int, int) -> usize, a: nat)
    ensures
        double_sum(F, a, 0) == 0,
    decreases a,
{
    if a > 0 {
        lemma_double_zero_rows(F, (a - 1) as nat);
        lemma_xor(0, 0, 0, 0);
    }
}

/// Adding a row to `F` adds a column to its transpose.
proof fn lemma_double_add_row(F: spec_fn(int, int) -> usize, a: nat, b: nat)
    requires
        a >= 1,
    ensures
        double_sum(transpose(F), b, a) == double_sum(transpose(F), b, (a - 1) as nat) ^ row_sum(F, a - 1, b),
    decreases b,
{
    let T = transpose(F);
    if b == 0 {
        lemma_xor(0, 0, 0, 0);
    } else {
        lemma_double_add_row(F, a, (b - 1) as nat);
        assert(row_sum(T, b - 1, a) == row_sum(T, b - 1, (a - 1) as nat) ^ F(a - 1, b - 1));
        lemma_xor(double_sum(T, (b - 1) as nat, (a - 1) as nat), row_sum(F, a - 1, (b - 1) as nat),
            row_sum(T, b - 1, (a - 1) as nat), F(a - 1, b - 1));
    }
}

/// The terms `R[m] * (e[k] * (g^(s+m+1))^k)` of the recurrence sum of the
/// syndromes against `R`, position `m` of `R` against position `k` of `e`.
pub open spec fn syn_terms(f: &GaloisField, r: Seq<usize>, e: Seq<usize>, g: usize, s: nat) -> spec_fn(int, int) -> usize {
    |m: int, k: int| f.table_mult(coef(r, m), f.table_mult(coef(e, k), f.fpow(f.fpow(g, (s + m + 1) as nat), k as nat)))
}

/// `c * sum_k e[k] x^k` is the sum of the products.
proof fn lemma_row_is_scaled_eval(f: &GaloisField, pow: usize, prim: usize, r: Seq<usize>, e: Seq<usize>, g: usize,
    s: nat, m: int, kk: nat)
    requires
        is_field(f, pow, prim),
        elements(r, f.size()),
        elements(e, f.size()),
        g < f.size(),
        m >= 0,
    ensures
        row_sum(syn_terms(f, r, e, g, s), m, kk)
            == f.table_mult(coef(r, m), f.peval(e, f.fpow(g, (s + m + 1) as nat), kk)),
    decreases kk,
{
    let x = f.fpow(g, (s + m + 1) as nat);
    crate::poly_laws::lemma_fpow_bound(f, pow, prim, g, (s + m + 1) as nat);
    let c = coef(r, m);
    if kk == 0 {
        lemma_tm(f, pow, prim, c, 0, 0);
    } else {
        let k1 = (kk - 1) as nat;
        lemma_row_is_scaled_eval(f, pow, prim, r, e, g, s, m, k1);
        crate::poly_laws::lemma_peval_bound(f, pow, prim, e, x, k1);
        crate::poly_laws::lemma_fpow_bound(f, pow, prim, x, k1);
        lemma_tm(f, pow, prim, coef(e, k1 as int), f.fpow(x, k1), 0);
        let t = f.table_mult(coef(e, k1 as int), f.fpow(x, k1));
        lemma_tm(f, pow, prim, c, f.peval(e, x, k1), t);
    }
}

/// The column of position `k` of `e`: `e[k] * (y^(s+1) * R(y))` with `y = g^k`.
proof fn lemma_column(f: &GaloisField, pow: usize, prim: usize, r: Seq<usize>, e: Seq<usize>, g: usize,
    s: nat, k: nat, mm: nat)
    requires
        is_field(f, pow, prim),
        elements(r, f.size()),
        elements(e, f.size()),
        g < f.size(),
    ensures
        row_sum(transpose(syn_terms(f, r, e, g, s)), k as int, mm) == f.table_mult(coef(e, k as int),
            f.table_mult(f.fpow(f.fpow(g, k), s + 1), f.peval(r, f.fpow(g, k), mm))),
    decreases mm,
{
    let y = f.fpow(g, k);
    crate::poly_laws::lemma_fpow_bound(f, pow, prim, g, k);
    let a = f.fpow(y, s + 1);
    crate::poly_laws::lemma_fpow_bound(f, pow, prim, y, s + 1);
    let ek = coef(e, k as int);
    if mm == 0 {
        lemma_tm(f, pow, prim, a, 0, 0);
        lemma_tm(f, pow, prim, ek, 0, 0);
    } else {
        let m = (mm - 1) as nat;
        lemma_column(f, pow, prim, r, e, g, s, k, m);
        let rm = coef(r, m as int);
        let b = f.fpow(y, m);
        crate::poly_laws::lemma_fpow_bound(f, pow, prim, y, m);
        // (g^(s+m+1))^k = y^(s+1) * y^m
        crate::decode_laws::lemma_fpow_mul(f, pow, prim, g, s + m + 1, k);
        crate::decode_laws::lemma_fpow_mul(f, pow, prim, g, k, s + 1 + m);
        assert((s + m + 1) * k == k * (s + 1 + m)) by (nonlinear_arith);
        crate::poly_laws::lemma_fpow_add(f, pow, prim, y, s + 1, m);
        assert(f.fpow(f.fpow(g, s + m + 1), k) == f.table_mult(a, b));
        lemma_tm(f, pow, prim, a, b, 0);
        lemma_tm(f, pow, prim, rm, ek, f.table_mult(a, b));
        lemma_tm(f, pow, prim, rm, a, b);
        lemma_tm(f, pow, prim, rm, b, 0);
        let term = f.table_mult(rm, b);
        let prev = f.peval(r, y, m);
        crate::poly_laws::lemma_peval_bound(f, pow, prim, r, y, m);
        lemma_tm(f, pow, prim, a, prev, term);
        lemma_tm(f, pow, prim, a, prev, 0);
        lemma_tm(f, pow, prim, a, term, 0);
        lemma_tm(f, pow, prim, ek, f.table_mult(a, prev), f.table_mult(a, term));
        assert(transpose(syn_terms(f, r, e, g, s))(k as int, m as int)
            == f.table_mult(rm, f.table_mult(ek, f.fpow(f.fpow(g, (s + m + 1) as nat), k))));
    }
}

/// The error locator `prod (1 + g^p X)` over the nonzero positions `p` of
/// `e`: the coefficients of `locator_rev` in reverse order.
pub open spec fn error_locator(f: &GaloisField, g: usize, e: Seq<usize>) -> Seq<usize> {
    rev_coefs(locator_rev(f, g, e, e.len()), nonzeros(e, e.len()))
}

/// The coefficients `0..=l` of `r` in reverse order.
pub open spec fn rev_coefs(r: Seq<usize>, l: nat) -> Seq<usize> {
    Seq::new(l + 1, |j: int| coef(r, l - j))
}

/// A double sum whose rows are all zero is zero.
pub proof fn lemma_rows_zero(F: spec_fn(int, int) -> usize, a: nat, b: nat)
    requires
        forall|j: int| 0 <= j < a ==> #[trigger] row_sum(F, j, b) == 0,
    ensures
        double_sum(F, a, b) == 0,
    decreases a,
{
    if a > 0 {
        lemma_rows_zero(F, (a - 1) as nat, b);
        lemma_xor(0, 0, 0, 0);
    }
}

/// The recurrence sum of the reversed coefficients of `r` over the first
/// `m` terms, against the double sum of the terms.
proof fn lemma_rev_partial(f: &GaloisField, pow: usize, prim: usize, g: usize, e: Seq<usize>, syn: Seq<usize>,
    r: Seq<usize>, l: nat, i: nat, m: nat)
    requires
        is_field(f, pow, prim),
        g < f.size(),
        elements(e, f.size()),
        elements(r, f.size()),
        l <= i < syn.len(),
        forall|j: int| 0 <= j < syn.len() ==> #[trigger] syn[j] == f.peval(e, f.fpow(g, (j + 1) as nat), e.len()),
        m <= l + 1,
    ensures
        lfsr_sum(f, rev_coefs(r, l), syn, i as int, m) == double_sum(syn_terms(f, r, e, g, (i - l) as nat), l + 1, e.len())
            ^ double_sum(syn_terms(f, r, e, g, (i - l) as nat), (l + 1 - m) as nat, e.len()),
    decreases m,
{
    let sft = (i - l) as nat;
    let F = syn_terms(f, r, e, g, sft);
    let big = double_sum(F, l + 1, e.len());
    if m == 0 {
        lemma_xor(big, 0, 0, 0);
    } else {
        let mm = (m - 1) as nat;
        lemma_rev_partial(f, pow, prim, g, e, syn, r, l, i, mm);
        let jm = (l - mm) as int;
        assert(coef(rev_coefs(r, l), mm as int) == coef(r, jm));
        assert(coef(syn, i - mm) == syn[i - mm]);
        assert(i - mm == sft + jm);
        lemma_row_is_scaled_eval(f, pow, prim, r, e, g, sft, jm, e.len());
        assert((sft + jm + 1) as nat == ((i - mm) + 1) as nat);
        let row = row_sum(F, jm, e.len());
        assert(row == f.table_mult(coef(rev_coefs(r, l), mm as int), coef(syn, i - mm)));
        let lo = double_sum(F, (l - mm) as nat, e.len());
        assert(double_sum(F, (l + 1 - mm) as nat, e.len()) == lo ^ row);
        assert((l + 1 - m) as nat == (l - mm) as nat);
        lemma_xor_assoc(big, lo, row);
    }
}

/// The recurrence sum of the reversed coefficients of `r` at `i` is the sum
/// over the positions `k` of `e[k] * ((g^k)^(i-l+1) * r(g^k))`.
proof fn lemma_rev_columns(f: &GaloisField, pow: usize, prim: usize, g: usize, e: Seq<usize>, syn: Seq<usize>,
    r: Seq<usize>, l: nat, i: nat)
    requires
        is_field(f, pow, prim),
        g < f.size(),
        elements(e, f.size()),
        elements(r, f.size()),
        l <= i < syn.len(),
        forall|j: int| 0 <= j < syn.len() ==> #[trigger] syn[j] == f.peval(e, f.fpow(g, (j + 1) as nat), e.len()),
    ensures
        lfsr_sum(f, rev_coefs(r, l), syn, i as int, l + 1)
            == double_sum(transpose(syn_terms(f, r, e, g, (i - l) as nat)), e.len(), l + 1),
        forall|k: int| 0 <= k < e.len() ==> #[trigger] row_sum(transpose(syn_terms(f, r, e, g, (i - l) as nat)), k, l + 1)
            == f.table_mult(coef(e, k), f.table_mult(f.fpow(f.fpow(g, k as nat), (i - l) as nat + 1),
                f.peval(r, f.fpow(g, k as nat), l + 1))),
{
    let F = syn_terms(f, r, e, g, (i - l) as nat);
    lemma_rev_partial(f, pow, prim, g, e, syn, r, l, i, l + 1);
    lemma_double_sum_swap(F, l + 1, e.len());
    assert(double_sum(F, 0, e.len()) == 0);
    lemma_xor(double_sum(F, l + 1, e.len()), 0, 0, 0);
    assert forall|k: int| 0 <= k < e.len() implies #[trigger] row_sum(transpose(F), k, l + 1)
        == f.table_mult(coef(e, k), f.table_mult(f.fpow(f.fpow(g, k as nat), (i - l) as nat + 1),
            f.peval(r, f.fpow(g, k as nat), l + 1))) by {
        lemma_column(f, pow, prim, r, e, g, (i - l) as nat, k as nat, l + 1);
    }
}

/// `(a ^ (b ^ c)) ^ c == a ^ b`.
proof fn lemma_xor_assoc(a: usize, b: usize, c: usize)
    by (bit_vector)
    ensures
        (a ^ (b ^ c)) ^ c == a ^ b,
{
}

/// Law: the error locator `prod (1 + g^p X)` of an error pattern `e`, with
/// one factor for each nonzero position `p`, generates the syndromes of `e`
/// (its values at `g, g^2, ...`) with length the number of errors.
pub proof fn law_locator_generates(f: &GaloisField, pow: usize, prim: usize, g: usize, e: Seq<usize>, syn: Seq<usize>)
    requires
        is_field(f, pow, prim),
        g < f.size(),
        elements(e, f.size()),
        forall|j: int| 0 <= j < syn.len() ==> #[trigger] syn[j] == f.peval(e, f.fpow(g, (j + 1) as nat), e.len()),
    ensures
        elements(error_locator(f, g, e), f.size()),
        generates(f, error_locator(f, g, e), nonzeros(e, e.len()), syn, syn.len()),
{
    let w = nonzeros(e, e.len());
    let r = locator_rev(f, g, e, e.len());
    let lam = error_locator(f, g, e);
    lemma_locator_rev(f, pow, prim, g, e, e.len());
    assert forall|j: int| 0 <= j < lam.len() implies #[trigger] lam[j] < f.size() by {
        assert(lam[j] == coef(r, w - j));
    }
    assert(coef(lam, 0) == coef(r, w as int));
    assert forall|i: int| w <= i < syn.len() implies #[trigger] lfsr_sum(f, lam, syn, i, w + 1) == 0 by {
        let sft = (i - w) as nat;
        let F = syn_terms(f, r, e, g, sft);
        lemma_rev_columns(f, pow, prim, g, e, syn, r, w, i as nat);
        assert forall|k: int| 0 <= k < e.len() implies #[trigger] row_sum(transpose(F), k, w + 1) == 0 by {
            let y = f.fpow(g, k as nat);
            crate::poly_laws::lemma_fpow_bound(f, pow, prim, g, k as nat);
            crate::poly_laws::lemma_fpow_bound(f, pow, prim, y, sft + 1);
            let a = f.fpow(y, sft + 1);
            if r.len() <= w + 1 {
                crate::poly_laws::lemma_peval_trailing(f, pow, prim, r, y, r.len(), w + 1);
            } else {
                crate::poly_laws::lemma_peval_trailing(f, pow, prim, r, y, w + 1, r.len());
            }
            crate::poly_laws::lemma_peval_bound(f, pow, prim, r, y, w + 1);
            let pr = f.peval(r, y, w + 1);
            lemma_tm(f, pow, prim, a, pr, 0);
            lemma_tm(f, pow, prim, f.table_mult(a, pr), 0, 0);
            if e[k] != 0 {
                assert(pr == 0);
                lemma_tm(f, pow, prim, a, 0, 0);
                lemma_tm(f, pow, prim, coef(e, k), 0, 0);
            } else {
                assert(coef(e, k) == 0);
                lemma_tm(f, pow, prim, 0, f.table_mult(a, pr), 0);
            }
        }
        lemma_rows_zero(transpose(F), e.len(), w + 1);
    }
}

/// Powers of a nonzero element follow its logarithm: `x^n = exp(n log x)`.
proof fn lemma_fpow_exp(f: &GaloisField, pow: usize, prim: usize, x: usize, n: nat)
    requires
        is_field(f, pow, prim),
        1 <= x < f.size(),
    ensures
        f.fpow(x, n) == exp_at((f.gf_log@[x as int] * n) as nat, prim, 1usize << pow),
    decreases n,
{
    let max = 1usize << pow;
    lemma_tables(f, pow, prim);
    let l = f.gf_log@[x as int] as nat;
    crate::field_laws::lemma_log_exp(x, pow, prim);
    if n == 0 {
        assert(l * 0 == 0) by (nonlinear_arith);
    } else {
        let n1 = (n - 1) as nat;
        lemma_fpow_exp(f, pow, prim, x, n1);
        let a: nat = l * n1;
        let v = f.fpow(x, n1);
        crate::field_laws::lemma_exp_nonzero(a, pow, prim);
        crate::gf::lemma_exp_bound(a, prim, pow);
        crate::field_laws::lemma_table_mult_exp(f, pow, prim, v, x);
        let lv = f.gf_log@[v as int] as nat;
        crate::field_laws::lemma_log_exp(v, pow, prim);
        crate::field_laws::lemma_exp_shift(lv, a, l, prim, max);
        assert(a + l == l * n) by (nonlinear_arith) requires a == l * n1, n1 + 1 == n;
    }
}

/// Every nonzero element raised to `2^m - 1` is 1.
pub proof fn lemma_fermat(f: &GaloisField, pow: usize, prim: usize, x: usize)
    requires
        is_field(f, pow, prim),
        1 <= x < f.size(),
    ensures
        f.fpow(x, (f.size() - 1) as nat) == 1,
{
    let max = 1usize << pow;
    lemma_tables(f, pow, prim);
    let q1 = (f.size() - 1) as nat;
    lemma_fpow_exp(f, pow, prim, x, q1);
    let l = f.gf_log@[x as int] as nat;
    crate::field_laws::lemma_exp_mod((l * q1) as nat, pow, prim);
    vstd::arithmetic::div_mod::lemma_mod_multiples_basic(l as int, q1 as int);
    assert(exp_at(0, prim, max) == 1);
}

/// `sum_{n < N} u^(n+1)`.
pub open spec fn geo(f: &GaloisField, u: usize, nn: nat) -> usize
    decreases nn,
{
    if nn == 0 { 0 } else { geo(f, u, (nn - 1) as nat) ^ f.fpow(u, nn) }
}

/// `(1 + u) * sum_{n < N} u^(n+1) = u + u^(N+1)`.
proof fn lemma_geo_telescope(f: &GaloisField, pow: usize, prim: usize, u: usize, nn: nat)
    requires
        is_field(f, pow, prim),
        u < f.size(),
    ensures
        f.table_mult(1 ^ u, geo(f, u, nn)) == (if nn == 0 { 0 } else { u ^ f.fpow(u, nn + 1) }),
        geo(f, u, nn) < f.size(),
    decreases nn,
{
    lemma_tables(f, pow, prim);
    lemma_xor_bound(1, u, f.size() as usize);
    if nn == 0 {
        lemma_tm(f, pow, prim, 1 ^ u, 0, 0);
    } else {
        let n1 = (nn - 1) as nat;
        lemma_geo_telescope(f, pow, prim, u, n1);
        let pg = geo(f, u, n1);
        let un = f.fpow(u, nn);
        crate::poly_laws::lemma_fpow_bound(f, pow, prim, u, nn);
        lemma_tm(f, pow, prim, 1 ^ u, pg, un);
        lemma_tm(f, pow, prim, un, 1, u);
        lemma_tm(f, pow, prim, un, 1, 0);
        lemma_tm(f, pow, prim, 1, un, 0);
        lemma_tm(f, pow, prim, un, u, 0);
        lemma_tm(f, pow, prim, 1 ^ u, un, 0);
        assert(f.fpow(u, nn + 1) == f.table_mult(un, u));
        let un1 = f.fpow(u, nn + 1);
        // (1 + u) u^n = u^n + u^(n+1)
        assert(f.table_mult(1 ^ u, un) == un ^ un1);
        assert(f.table_mult(1 ^ u, pg ^ un) == f.table_mult(1 ^ u, pg) ^ (un ^ un1));
        lemma_xor_bound(pg, un, f.size() as usize);
        if n1 == 0 {
            assert(pg == 0);
            lemma_tm(f, pow, prim, 1 ^ u, 0, 0);
            assert(f.fpow(u, 0) == 1);
            assert(un == f.table_mult(1, u));
            lemma_tm(f, pow, prim, u, 0, 0);
            lemma_xor(un ^ un1, 0, 0, 0);
        } else {
            assert(f.table_mult(1 ^ u, pg) == u ^ un);
            lemma_geo_step(u, un, un1);
        }
    }
}

/// `(u + a) + (a + b) = u + b`.
proof fn lemma_geo_step(u: usize, a: usize, b: usize)
    by (bit_vector)
    ensures
        (u ^ a) ^ (a ^ b) == u ^ b,
{
}

/// Powers of 1 are 1.
proof fn lemma_fpow_one(f: &GaloisField, pow: usize, prim: usize, n: nat)
    requires
        is_field(f, pow, prim),
    ensures
        f.fpow(1, n) == 1,
    decreases n,
{
    lemma_tables(f, pow, prim);
    if n > 0 {
        lemma_fpow_one(f, pow, prim, (n - 1) as nat);
        lemma_tm(f, pow, prim, 1, 0, 0);
    }
}

/// The sum of `N` ones is `N mod 2`.
proof fn lemma_geo_one(f: &GaloisField, pow: usize, prim: usize, nn: nat)
    requires
        is_field(f, pow, prim),
    ensures
        geo(f, 1, nn) == (nn % 2) as usize,
    decreases nn,
{
    if nn > 0 {
        lemma_geo_one(f, pow, prim, (nn - 1) as nat);
        lemma_fpow_one(f, pow, prim, nn);
        lemma_xor(0, 1, 0, 0);
        lemma_xor(1, 1, 0, 0);
    }
}

/// A product of field elements is zero only when a factor is.
pub proof fn lemma_no_zero_divisors(f: &GaloisField, pow: usize, prim: usize, a: usize, b: usize)
    requires
        is_field(f, pow, prim),
        1 <= a < f.size(),
        1 <= b < f.size(),
    ensures
        f.table_mult(a, b) != 0,
{
    crate::field_laws::lemma_table_mult_exp(f, pow, prim, a, b);
}

/// For `u != 0, 1`, the sum of `u^1, ..., u^(2^m - 1)` is zero.
proof fn lemma_geo_zero(f: &GaloisField, pow: usize, prim: usize, u: usize)
    requires
        is_field(f, pow, prim),
        2 <= u < f.size(),
    ensures
        geo(f, u, (f.size() - 1) as nat) == 0,
{
    lemma_tables(f, pow, prim);
    let q1 = (f.size() - 1) as nat;
    lemma_geo_telescope(f, pow, prim, u, q1);
    lemma_fermat(f, pow, prim, u);
    assert(f.fpow(u, q1 + 1) == f.table_mult(f.fpow(u, q1), u));
    lemma_tm(f, pow, prim, u, 0, 0);
    lemma_xor(u, 0, 0, 0);
    lemma_xor_bound(1, u, f.size() as usize);
    assert((1 ^ u) != 0) by (bit_vector) requires u >= 2;
    let gq = geo(f, u, q1);
    if gq != 0 {
        lemma_no_zero_divisors(f, pow, prim, 1 ^ u, gq);
    }
}

/// `(a b)^n = a^n b^n`.
proof fn lemma_fpow_prod(f: &GaloisField, pow: usize, prim: usize, a: usize, b: usize, n: nat)
    requires
        is_field(f, pow, prim),
        a < f.size(),
        b < f.size(),
    ensures
        f.fpow(f.table_mult(a, b), n) == f.table_mult(f.fpow(a, n), f.fpow(b, n)),
    decreases n,
{
    lemma_tables(f, pow, prim);
    if n == 0 {
        lemma_tm(f, pow, prim, 1, 0, 0);
    } else {
        let n1 = (n - 1) as nat;
        lemma_fpow_prod(f, pow, prim, a, b, n1);
        let an = f.fpow(a, n1);
        let bn = f.fpow(b, n1);
        crate::poly_laws::lemma_fpow_bound(f, pow, prim, a, n1);
        crate::poly_laws::lemma_fpow_bound(f, pow, prim, b, n1);
        lemma_tm(f, pow, prim, an, bn, 0);
        lemma_tm(f, pow, prim, a, b, 0);
        // (an bn)(a b) = (an a)(bn b)
        crate::poly_laws::lemma_mult_swap4(f, pow, prim, an, bn, a, b);
    }
}

/// `e[k] * ((g^k)^(n+1) * rho[k])`: the terms of the `n`-th recurrence sum,
/// by position `k`.
pub open spec fn hterms(f: &GaloisField, e: Seq<usize>, rho: Seq<usize>, g: usize) -> spec_fn(int, int) -> usize {
    |n: int, k: int| f.table_mult(coef(e, k), f.table_mult(f.fpow(f.fpow(g, k as nat), (n + 1) as nat), coef(rho, k)))
}

/// The terms of `hterms` scaled by `z^(n+1)`.
pub open spec fn dft_terms(f: &GaloisField, e: Seq<usize>, rho: Seq<usize>, g: usize, z: usize) -> spec_fn(int, int) -> usize {
    |n: int, k: int| f.table_mult(f.fpow(z, (n + 1) as nat), hterms(f, e, rho, g)(n, k))
}

/// Row sums of field elements are field elements.
pub proof fn lemma_row_bound(f: &GaloisField, pow: usize, prim: usize, F: spec_fn(int, int) -> usize, j: int, b: nat)
    requires
        is_field(f, pow, prim),
        forall|k: int| 0 <= k < b ==> #[trigger] F(j, k) < f.size(),
    ensures
        row_sum(F, j, b) < f.size(),
    decreases b,
{
    lemma_tables(f, pow, prim);
    if b > 0 {
        lemma_row_bound(f, pow, prim, F, j, (b - 1) as nat);
        lemma_xor_bound(row_sum(F, j, (b - 1) as nat), F(j, b - 1), f.size() as usize);
    }
}

/// A row whose terms are scaled by `c` sums to `c` times the row.
proof fn lemma_row_scale(f: &GaloisField, pow: usize, prim: usize, D: spec_fn(int, int) -> usize,
    H: spec_fn(int, int) -> usize, n: int, c: usize, b: nat)
    requires
        is_field(f, pow, prim),
        c < f.size(),
        forall|k: int| 0 <= k < b ==> #[trigger] H(n, k) < f.size(),
        forall|k: int| 0 <= k < b ==> #[trigger] D(n, k) == f.table_mult(c, H(n, k)),
    ensures
        row_sum(D, n, b) == f.table_mult(c, row_sum(H, n, b)),
    decreases b,
{
    if b == 0 {
        lemma_tm(f, pow, prim, c, 0, 0);
    } else {
        let b1 = (b - 1) as nat;
        lemma_row_scale(f, pow, prim, D, H, n, c, b1);
        lemma_row_bound(f, pow, prim, H, n, b1);
        lemma_tm(f, pow, prim, c, row_sum(H, n, b1), H(n, b - 1));
    }
}

/// A double sum whose rows are given values sums those values.
proof fn lemma_rows_match(T: spec_fn(int, int) -> usize, H: spec_fn(int, int) -> usize, n: int, a: nat, b: nat)
    requires
        forall|k: int| 0 <= k < a ==> #[trigger] row_sum(T, k, b) == H(n, k),
    ensures
        double_sum(T, a, b) == row_sum(H, n, a),
    decreases a,
{
    if a > 0 {
        lemma_rows_match(T, H, n, (a - 1) as nat, b);
    }
}

/// A double sum with one nonzero row is that row.
pub proof fn lemma_rows_single(T: spec_fn(int, int) -> usize, a: nat, b: nat, p0: int)
    requires
        0 <= p0 < a,
        forall|k: int| 0 <= k < a && k != p0 ==> #[trigger] row_sum(T, k, b) == 0,
    ensures
        double_sum(T, a, b) == row_sum(T, p0, b),
    decreases a,
{
    if a - 1 > p0 {
        lemma_rows_single(T, (a - 1) as nat, b, p0);
        lemma_xor(row_sum(T, p0, b), 0, 0, 0);
    } else {
        lemma_rows_zero(T, (a - 1) as nat, b);
        lemma_xor(row_sum(T, p0, b), 0, 0, 0);
    }
}

/// Column `k` of the scaled terms: `(e[k] rho[k]) * sum_n (z g^k)^(n+1)`.
proof fn lemma_dft_column(f: &GaloisField, pow: usize, prim: usize, e: Seq<usize>, rho: Seq<usize>, g: usize,
    z: usize, k: int, nn: nat)
    requires
        is_field(f, pow, prim),
        elements(e, f.size()),
        elements(rho, f.size()),
        g < f.size(),
        z < f.size(),
        k >= 0,
    ensures
        row_sum(transpose(dft_terms(f, e, rho, g, z)), k, nn)
            == f.table_mult(f.table_mult(coef(e, k), coef(rho, k)), geo(f, f.table_mult(z, f.fpow(g, k as nat)), nn)),
    decreases nn,
{
    lemma_tables(f, pow, prim);
    let y = f.fpow(g, k as nat);
    crate::poly_laws::lemma_fpow_bound(f, pow, prim, g, k as nat);
    let ek = coef(e, k);
    let rk = coef(rho, k);
    let c = f.table_mult(ek, rk);
    lemma_tm(f, pow, prim, ek, rk, 0);
    let u = f.table_mult(z, y);
    lemma_tm(f, pow, prim, z, y, 0);
    if nn == 0 {
        lemma_tm(f, pow, prim, c, 0, 0);
    } else {
        let n1 = (nn - 1) as nat;
        lemma_dft_column(f, pow, prim, e, rho, g, z, k, n1);
        let zp = f.fpow(z, nn);
        let yp = f.fpow(y, nn);
        crate::poly_laws::lemma_fpow_bound(f, pow, prim, z, nn);
        crate::poly_laws::lemma_fpow_bound(f, pow, prim, y, nn);
        lemma_fpow_prod(f, pow, prim, z, y, nn);
        // z^n (e (y^n r)) = (e r) (z^n y^n)
        lemma_tm(f, pow, prim, yp, rk, 0);
        lemma_tm(f, pow, prim, zp, ek, f.table_mult(yp, rk));
        lemma_tm(f, pow, prim, zp, yp, rk);
        lemma_tm(f, pow, prim, rk, zp, yp);
        lemma_tm(f, pow, prim, zp, rk, 0);
        lemma_tm(f, pow, prim, zp, yp, 0);
        crate::field_laws::law_mult_assoc(f, pow, prim, ek, rk, f.table_mult(zp, yp));
        lemma_tm(f, pow, prim, ek, rk, f.table_mult(zp, yp));
        assert(transpose(dft_terms(f, e, rho, g, z))(k, n1 as int)
            == f.table_mult(zp, f.table_mult(ek, f.table_mult(yp, rk))));
        assert(f.table_mult(zp, f.table_mult(ek, f.table_mult(yp, rk))) == f.table_mult(c, f.fpow(u, nn)));
        let pg = geo(f, u, n1);
        lemma_geo_telescope(f, pow, prim, u, n1);
        crate::poly_laws::lemma_fpow_bound(f, pow, prim, u, nn);
        lemma_tm(f, pow, prim, c, pg, f.fpow(u, nn));
    }
}

/// The scaled rows vanish with the rows.
#[verifier::spinoff_prover]
proof fn lemma_dft_rows(f: &GaloisField, pow: usize, prim: usize, g: usize, e: Seq<usize>, rho: Seq<usize>, z: usize)
    requires
        is_field(f, pow, prim),
        g < f.size(),
        z < f.size(),
        elements(e, f.size()),
        elements(rho, f.size()),
        forall|n: int| 0 <= n < f.size() - 1 ==> #[trigger] row_sum(hterms(f, e, rho, g), n, e.len()) == 0,
    ensures
        forall|n: int| 0 <= n < f.size() - 1 ==> #[trigger] row_sum(dft_terms(f, e, rho, g, z), n, e.len()) == 0,
{
    lemma_tables(f, pow, prim);
    let H = hterms(f, e, rho, g);
    let D = dft_terms(f, e, rho, g, z);
    let kk = e.len();
    assert forall|n: int| 0 <= n < f.size() - 1 implies #[trigger] row_sum(D, n, kk) == 0 by {
        let zp = f.fpow(z, (n + 1) as nat);
        crate::poly_laws::lemma_fpow_bound(f, pow, prim, z, (n + 1) as nat);
        assert forall|k: int| 0 <= k < kk implies #[trigger] H(n, k) < f.size() by {
            let y = f.fpow(g, k as nat);
            crate::poly_laws::lemma_fpow_bound(f, pow, prim, g, k as nat);
            crate::poly_laws::lemma_fpow_bound(f, pow, prim, y, (n + 1) as nat);
            lemma_tm(f, pow, prim, f.fpow(y, (n + 1) as nat), coef(rho, k), 0);
            lemma_tm(f, pow, prim, coef(e, k), f.table_mult(f.fpow(y, (n + 1) as nat), coef(rho, k)), 0);
        }
        lemma_row_scale(f, pow, prim, D, H, n, zp, kk);
        lemma_tm(f, pow, prim, zp, 0, 0);
    }
}

/// `z g^k` with `z = g^(2^m - 1 - p0)` is 1 only at `k = p0`.
#[verifier::spinoff_prover]
proof fn lemma_dft_point(f: &GaloisField, pow: usize, prim: usize, g: usize, p0: nat, k: nat)
    requires
        is_field(f, pow, prim),
        crate::decode_laws::primitive_element(f, g),
        p0 < f.size() - 1,
        k < f.size() - 1,
        k != p0,
    ensures
        2 <= f.table_mult(f.fpow(g, (f.size() - 1 - p0) as nat), f.fpow(g, k)) < f.size(),
{
    lemma_tables(f, pow, prim);
    let q1 = (f.size() - 1) as nat;
    let z = f.fpow(g, (q1 - p0) as nat);
    let y = f.fpow(g, k);
    crate::decode_laws::lemma_fpow_nonzero(f, pow, prim, g, (q1 - p0) as nat);
    crate::decode_laws::lemma_fpow_nonzero(f, pow, prim, g, k);
    crate::poly_laws::lemma_fpow_add(f, pow, prim, g, (q1 - p0) as nat, k);
    let u = f.table_mult(z, y);
    lemma_tm(f, pow, prim, z, y, 0);
    lemma_no_zero_divisors(f, pow, prim, z, y);
    let ex = (q1 - p0 + k) as nat;
    assert(u == f.fpow(g, ex));
    if u == 1 {
        assert(f.fpow(g, 0) == 1);
        if k < p0 {
            assert(f.fpow(g, ex) != f.fpow(g, 0));
        } else {
            lemma_fermat(f, pow, prim, g);
            crate::poly_laws::lemma_fpow_add(f, pow, prim, g, q1, (k - p0) as nat);
            crate::poly_laws::lemma_fpow_bound(f, pow, prim, g, (k - p0) as nat);
            lemma_tm(f, pow, prim, f.fpow(g, (k - p0) as nat), 0, 0);
            assert(q1 + (k - p0) as nat == ex);
            assert(f.fpow(g, (k - p0) as nat) != f.fpow(g, 0));
        }
    }
}

/// If every recurrence sum `sum_k e[k] (g^k)^(n+1) rho[k]` over a full
/// period vanishes, then `rho[p0]` vanishes at every error position `p0`.
#[verifier::spinoff_prover]
proof fn lemma_dft(f: &GaloisField, pow: usize, prim: usize, g: usize, e: Seq<usize>, rho: Seq<usize>, p0: nat)
    requires
        is_field(f, pow, prim),
        crate::decode_laws::primitive_element(f, g),
        elements(e, f.size()),
        elements(rho, f.size()),
        e.len() <= f.size() - 1,
        p0 < e.len(),
        e[p0 as int] != 0,
        forall|n: int| 0 <= n < f.size() - 1 ==> #[trigger] row_sum(hterms(f, e, rho, g), n, e.len()) == 0,
    ensures
        coef(rho, p0 as int) == 0,
{
    lemma_tables(f, pow, prim);
    let q1 = (f.size() - 1) as nat;
    let z = f.fpow(g, (q1 - p0) as nat);
    crate::decode_laws::lemma_fpow_nonzero(f, pow, prim, g, (q1 - p0) as nat);
    let D = dft_terms(f, e, rho, g, z);
    let kk = e.len();
    lemma_dft_rows(f, pow, prim, g, e, rho, z);
    lemma_rows_zero(D, q1, kk);
    lemma_double_sum_swap(D, q1, kk);
    assert forall|k: int| 0 <= k < kk && k != p0 implies #[trigger] row_sum(transpose(D), k, q1) == 0 by {
        lemma_dft_column(f, pow, prim, e, rho, g, z, k, q1);
        lemma_dft_point(f, pow, prim, g, p0, k as nat);
        lemma_geo_zero(f, pow, prim, f.table_mult(z, f.fpow(g, k as nat)));
        lemma_tm(f, pow, prim, coef(e, k), coef(rho, k), 0);
        lemma_tm(f, pow, prim, f.table_mult(coef(e, k), coef(rho, k)), 0, 0);
    }
    lemma_rows_single(transpose(D), kk, q1, p0 as int);
    lemma_dft_column(f, pow, prim, e, rho, g, z, p0 as int, q1);
    let c0 = f.table_mult(coef(e, p0 as int), coef(rho, p0 as int));
    lemma_tm(f, pow, prim, coef(e, p0 as int), coef(rho, p0 as int), 0);
    crate::poly_laws::lemma_fpow_add(f, pow, prim, g, (q1 - p0) as nat, p0);
    lemma_fermat(f, pow, prim, g);
    assert((q1 - p0) as nat + p0 == q1);
    assert(f.table_mult(z, f.fpow(g, p0)) == 1);
    lemma_geo_one(f, pow, prim, q1);
    assert(q1 % 2 == 1) by {
        let sz = f.size() as usize;
        assert(sz == 1usize << pow);
        assert((1usize << pow) % 2 == 0) by (bit_vector) requires 1 <= pow <= 30;
    }
    crate::field_laws::law_mult_one(f, pow, prim, c0);
    law_mult_closed(f, c0, 1);
    if coef(rho, p0 as int) != 0 {
        lemma_no_zero_divisors(f, pow, prim, coef(e, p0 as int), coef(rho, p0 as int));
    }
}

/// Recurrence sums that read equal coefficients and equal terms are equal.
proof fn lemma_lfsr_agree(f: &GaloisField, c1: Seq<usize>, c2: Seq<usize>, s1: Seq<usize>, s2: Seq<usize>, i: int, m: nat)
    requires
        forall|j: int| 0 <= j < m ==> #[trigger] coef(c1, j) == coef(c2, j) && coef(s1, i - j) == coef(s2, i - j),
    ensures
        lfsr_sum(f, c1, s1, i, m) == lfsr_sum(f, c2, s2, i, m),
    decreases m,
{
    if m > 0 {
        lemma_lfsr_agree(f, c1, c2, s1, s2, i, (m - 1) as nat);
        assert(coef(c1, m - 1) == coef(c2, m - 1) && coef(s1, i - (m - 1)) == coef(s2, i - (m - 1)));
    }
}

/// The syndromes of `e`: its values at `g, g^2, ..., g^m`.
pub open spec fn syndromes_of(f: &GaloisField, g: usize, e: Seq<usize>, m: nat) -> Seq<usize> {
    Seq::new(m, |j: int| f.peval(e, f.fpow(g, (j + 1) as nat), e.len()))
}

/// A nonzero polynomial that vanishes at `g^p` for every error position
/// `p < k` has degree at least the number of those positions.
proof fn lemma_zeros_at_errors(f: &GaloisField, pow: usize, prim: usize, g: usize, e: Seq<usize>, s: Seq<usize>, k: nat)
    requires
        is_field(f, pow, prim),
        crate::decode_laws::primitive_element(f, g),
        e.len() <= f.size() - 1,
        k <= e.len(),
        elements(s, f.size()),
        s.len() > 0,
        exists|i: int| 0 <= i < s.len() && s[i] != 0,
        forall|p: nat| p < k && e[p as int] != 0 ==> #[trigger] f.peval(s, f.fpow(g, p), s.len()) == 0,
    ensures
        nonzeros(e, k) <= crate::poly::deg_of(s),
    decreases k,
{
    if k > 0 {
        let k1 = (k - 1) as nat;
        if e[k1 as int] == 0 {
            lemma_zeros_at_errors(f, pow, prim, g, e, s, k1);
        } else {
            let r = f.fpow(g, k1);
            crate::decode_laws::lemma_fpow_nonzero(f, pow, prim, g, k1);
            assert(f.peval(s, r, s.len()) == 0);
            let q = crate::div_laws::lemma_factor(f, pow, prim, s, r);
            assert forall|p: nat| p < k1 && e[p as int] != 0 implies #[trigger] f.peval(q, f.fpow(g, p), q.len()) == 0 by {
                crate::decode_laws::lemma_fpow_nonzero(f, pow, prim, g, p);
                assert(f.peval(s, f.fpow(g, p), s.len()) == 0);
                assert(f.fpow(g, p) != f.fpow(g, k1));
            }
            lemma_zeros_at_errors(f, pow, prim, g, e, q, k1);
        }
    }
}

/// Law (what the Berlekamp iteration finds): for an error pattern `e` with
/// at most `(n - k) / 2` nonzero positions below `2^m - 1`, the locator that
/// `berlekamp` returns for its syndromes has length at most the number of
/// errors, and its reversed coefficients vanish at `g^p` for every error
/// position `p`: its roots, as `error_locs` reads them, are the error
/// positions.
pub proof fn law_berlekamp_locates_errors(rs: &ReedSolomon, pow: usize, prim: usize, e: Seq<usize>)
    requires
        is_field(&rs.field, pow, prim),
        crate::decode_laws::primitive_element(&rs.field, rs.field.generator),
        rs.k < rs.n,
        elements(e, rs.field.size()),
        e.len() <= rs.field.size() - 1,
        2 * nonzeros(e, e.len()) <= rs.n - rs.k,
        rs.n - rs.k < usize::MAX,
    ensures
        rs.berlekamp_out(syndromes_of(&rs.field, rs.field.generator, e, (rs.n - rs.k) as nat)) matches Outcome::Val(sig)
            && bm_length(rs, syndromes_of(&rs.field, rs.field.generator, e, (rs.n - rs.k) as nat)) == nonzeros(e, e.len())
            && forall|p: nat| p < e.len() && e[p as int] != 0 ==> #[trigger] rs.field.peval(rev_coefs(sig,
                bm_length(rs, syndromes_of(&rs.field, rs.field.generator, e, (rs.n - rs.k) as nat))),
                rs.field.fpow(rs.field.generator, p),
                bm_length(rs, syndromes_of(&rs.field, rs.field.generator, e, (rs.n - rs.k) as nat)) + 1) == 0,
{
    let f = &rs.field;
    let g = f.generator;
    let nk = (rs.n - rs.k) as nat;
    let w = nonzeros(e, e.len());
    let q1 = (f.size() - 1) as nat;
    lemma_tables(f, pow, prim);
    let syn = syndromes_of(f, g, e, nk);
    assert forall|j: int| 0 <= j < syn.len() implies #[trigger] syn[j] < f.size() by {
        crate::poly_laws::lemma_fpow_bound(f, pow, prim, g, (j + 1) as nat);
        crate::poly_laws::lemma_peval_bound(f, pow, prim, e, f.fpow(g, (j + 1) as nat), e.len());
    }
    law_berlekamp_shortest(rs, pow, prim, syn);
    let sig = rs.berlekamp_out(syn)->Val_0;
    let l = bm_length(rs, syn);
    law_locator_generates(f, pow, prim, g, e, syn);
    let lam = error_locator(f, g, e);
    assert(l <= w);
    // the syndromes continued over a whole period
    let mm = nk + q1;
    let synm = syndromes_of(f, g, e, mm);
    assert forall|j: int| 0 <= j < synm.len() implies #[trigger] synm[j] < f.size() by {
        crate::poly_laws::lemma_fpow_bound(f, pow, prim, g, (j + 1) as nat);
        crate::poly_laws::lemma_peval_bound(f, pow, prim, e, f.fpow(g, (j + 1) as nat), e.len());
    }
    law_locator_generates(f, pow, prim, g, e, synm);
    assert forall|i: int| l <= i < nk implies #[trigger] lfsr_sum(f, sig, synm, i, l + 1) == 0 by {
        lemma_lfsr_agree(f, sig, sig, syn, synm, i, l + 1);
    }
    assert(generates(f, sig, l, synm, nk));
    law_generator_extends(f, pow, prim, synm, sig, l, lam, w, nk, mm);
    // every recurrence sum over a period, read through the reversed locator
    let rsig = rev_coefs(sig, l);
    assert forall|j: int| 0 <= j < rsig.len() implies #[trigger] rsig[j] < f.size() by {}
    let rho = Seq::new(e.len(), |k: int| f.peval(rsig, f.fpow(g, k as nat), l + 1));
    assert forall|k: int| 0 <= k < rho.len() implies #[trigger] rho[k] < f.size() by {
        crate::poly_laws::lemma_fpow_bound(f, pow, prim, g, k as nat);
        crate::poly_laws::lemma_peval_bound(f, pow, prim, rsig, f.fpow(g, k as nat), l + 1);
    }
    assert forall|n: int| 0 <= n < f.size() - 1 implies #[trigger] row_sum(hterms(f, e, rho, g), n, e.len()) == 0 by {
        let i = (l + n) as nat;
        lemma_lfsr_agree(f, sig, rev_coefs(rsig, l), synm, synm, i as int, l + 1);
        lemma_rev_columns(f, pow, prim, g, e, synm, rsig, l, i);
        let F = syn_terms(f, rsig, e, g, (i - l) as nat);
        assert forall|k: int| 0 <= k < e.len() implies #[trigger] row_sum(transpose(F), k, l + 1)
            == hterms(f, e, rho, g)(n, k) by {
            assert((i - l) as nat + 1 == (n + 1) as nat);
        }
        lemma_rows_match(transpose(F), hterms(f, e, rho, g), n, e.len(), l + 1);
    }
    assert forall|p: nat| p < e.len() && e[p as int] != 0 implies
        #[trigger] f.peval(rsig, f.fpow(g, p), l + 1) == 0 by {
        lemma_dft(f, pow, prim, g, e, rho, p);
    }
    // no shorter: the reversed locator is nonzero and vanishes at every error locator
    assert(rsig[l as int] == coef(sig, 0));
    crate::poly::lemma_deg_of(rsig);
    lemma_zeros_at_errors(f, pow, prim, g, e, rsig, e.len());
}

/// A polynomial of degree at most the number of errors that vanishes at
/// every error locator `g^p` has no other zero.
proof fn lemma_no_other_zero(f: &GaloisField, pow: usize, prim: usize, g: usize, e: Seq<usize>, s: Seq<usize>, y: usize)
    requires
        is_field(f, pow, prim),
        crate::decode_laws::primitive_element(f, g),
        e.len() <= f.size() - 1,
        elements(s, f.size()),
        s.len() > 0,
        exists|i: int| 0 <= i < s.len() && s[i] != 0,
        crate::poly::deg_of(s) <= nonzeros(e, e.len()),
        forall|p: nat| p < e.len() && e[p as int] != 0 ==> #[trigger] f.peval(s, f.fpow(g, p), s.len()) == 0,
        y < f.size(),
        f.peval(s, y, s.len()) == 0,
    ensures
        exists|p: nat| p < e.len() && e[p as int] != 0 && y == #[trigger] f.fpow(g, p),
{
    if !(exists|p: nat| p < e.len() && e[p as int] != 0 && y == #[trigger] f.fpow(g, p)) {
        let q = crate::div_laws::lemma_factor(f, pow, prim, s, y);
        assert forall|p: nat| p < e.len() && e[p as int] != 0 implies #[trigger] f.peval(q, f.fpow(g, p), q.len()) == 0 by {
            crate::decode_laws::lemma_fpow_nonzero(f, pow, prim, g, p);
            assert(f.peval(s, f.fpow(g, p), s.len()) == 0);
            assert(y != f.fpow(g, p));
        }
        lemma_zeros_at_errors(f, pow, prim, g, e, q, e.len());
    }
}

/// The zeros listed below `b` are below `b`.
proof fn lemma_zeros_elements(f: &GaloisField, s: Seq<usize>, b: nat, i: int)
    requires
        b <= usize::MAX,
        0 <= i < crate::poly_laws::zeros_below(f, s, b).len(),
    ensures
        crate::poly_laws::zeros_below(f, s, b)[i] < b,
    decreases b,
{
    let prev = crate::poly_laws::zeros_below(f, s, (b - 1) as nat);
    if i < prev.len() {
        lemma_zeros_elements(f, s, (b - 1) as nat, i);
        if f.peval(s, (b - 1) as usize, s.len()) == 0 {
            assert(crate::poly_laws::zeros_below(f, s, b) == prev.push((b - 1) as usize));
        }
    } else {
        assert(crate::poly_laws::zeros_below(f, s, b) == prev.push((b - 1) as usize));
    }
}

/// A polynomial's value at 0 is its constant coefficient.
proof fn lemma_peval_at_zero(f: &GaloisField, pow: usize, prim: usize, s: Seq<usize>, n: nat)
    requires
        is_field(f, pow, prim),
        elements(s, f.size()),
        n >= 1,
    ensures
        f.peval(s, 0, n) == coef(s, 0),
    decreases n,
{
    lemma_tables(f, pow, prim);
    let n1 = (n - 1) as nat;
    if n == 1 {
        assert(f.peval(s, 0, 0) == 0);
        assert(f.fpow(0, 0) == 1);
        lemma_tm(f, pow, prim, coef(s, 0), 0, 0);
        crate::field_laws::law_mult_one(f, pow, prim, coef(s, 0));
        law_mult_closed(f, coef(s, 0), 1);
        lemma_xor(coef(s, 0), 0, 0, 0);
    } else {
        lemma_peval_at_zero(f, pow, prim, s, n1);
        crate::poly_laws::lemma_fpow_bound(f, pow, prim, 0, (n1 - 1) as nat);
        lemma_tm(f, pow, prim, f.fpow(0, (n1 - 1) as nat), 0, 0);
        assert(f.fpow(0, n1) == 0);
        lemma_tm(f, pow, prim, coef(s, n1 as int), 0, 0);
        lemma_xor(coef(s, 0), 0, 0, 0);
    }
}

/// Law (the error positions the decoder reads off the locator): for an error
/// pattern `e` with at most `(n - k) / 2` nonzero positions below `2^m - 1`,
/// the locator that `berlekamp` returns for its syndromes has exactly one
/// coefficient more than there are errors, and `error_locs` of its reversal
/// reports exactly the error positions: each of them, and nothing else.
pub proof fn law_error_positions_found(rs: &ReedSolomon, pow: usize, prim: usize, e: Seq<usize>)
    requires
        is_field(&rs.field, pow, prim),
        crate::decode_laws::primitive_element(&rs.field, rs.field.generator),
        rs.k < rs.n,
        elements(e, rs.field.size()),
        e.len() <= rs.field.size() - 1,
        2 * nonzeros(e, e.len()) <= rs.n - rs.k,
        rs.n - rs.k < usize::MAX,
    ensures
        rs.berlekamp_out(syndromes_of(&rs.field, rs.field.generator, e, (rs.n - rs.k) as nat)) matches Outcome::Val(sig)
            && sig.len() == nonzeros(e, e.len()) + 1
            && crate::poly::deg_of(sig) == nonzeros(e, e.len())
            && (rs.error_locs_out(sig.reverse()) matches Outcome::Val(locs)
            && (forall|p: nat| p < e.len() && e[p as int] != 0 ==> #[trigger] locs.contains(p as usize))
            && (forall|i: int| 0 <= i < locs.len() ==> locs[i] < e.len() && e[locs[i] as int] != 0)
            && (forall|i: int, j: int| 0 <= i < j < locs.len() ==> #[trigger] locs[i] != #[trigger] locs[j])
            && locs.len() <= nonzeros(e, e.len())),
{
    let f = &rs.field;
    let g = f.generator;
    let nk = (rs.n - rs.k) as nat;
    let w = nonzeros(e, e.len());
    lemma_tables(f, pow, prim);
    let syn = syndromes_of(f, g, e, nk);
    law_berlekamp_locates_errors(rs, pow, prim, e);
    assert forall|j: int| 0 <= j < syn.len() implies #[trigger] syn[j] < f.size() by {
        crate::poly_laws::lemma_fpow_bound(f, pow, prim, g, (j + 1) as nat);
        crate::poly_laws::lemma_peval_bound(f, pow, prim, e, f.fpow(g, (j + 1) as nat), e.len());
    }
    lemma_bm_inv(rs, pow, prim, syn, nk, nk);
    let (d, sigma, h) = rs.bm_state(syn, nk, nk)->Val_0;
    assert(step_ok(f, syn, d, sigma, h, nk));
    let sig = rs.berlekamp_out(syn)->Val_0;
    assert(sig == sigma[nk as int]);
    assert(bm_length(rs, syn) == h[nk as int]);
    let rsig = rev_coefs(sig, w);
    assert forall|j: int| 0 <= j < rsig.len() implies #[trigger] rsig[j] < f.size() by {}
    assert(rsig[w as int] == 1);
    crate::poly::lemma_deg_of(rsig);
    // the locator's last coefficient is nonzero: 0 is no zero of the reversal
    if coef(sig, w as int) == 0 {
        lemma_peval_at_zero(f, pow, prim, rsig, rsig.len());
        assert(rsig[0] == coef(sig, w as int));
        lemma_no_other_zero(f, pow, prim, g, e, rsig, 0);
        let p = choose|p: nat| p < e.len() && e[p as int] != 0 && 0 == #[trigger] f.fpow(g, p);
        crate::decode_laws::lemma_fpow_nonzero(f, pow, prim, g, p);
    }
    assert(sig.len() == w + 1);
    crate::poly::lemma_deg_of(sig);
    if crate::poly::deg_of(sig) < w {
        assert(coef(sig, w as int) == 0);
    }
    assert(sig.reverse() =~= rsig);
    crate::decode_laws::law_error_locs(rs, pow, prim, rsig);
    let locs = rs.error_locs_out(rsig)->Val_0;
    crate::div_laws::law_roots_complete(f, pow, prim, rsig);
    crate::div_laws::lemma_listed_are_zeros(f, rsig, f.size());
    let z = crate::poly_laws::zeros_below(f, rsig, f.size());
    assert forall|p: nat| p < e.len() && e[p as int] != 0 implies #[trigger] locs.contains(p as usize) by {
        assert(f.peval(rsig, f.fpow(g, p), rsig.len()) == 0);
    }
    assert forall|i: int| 0 <= i < locs.len() implies locs[i] < e.len() && e[locs[i] as int] != 0
        && z[i] == f.fpow(g, locs[i] as nat) by {
        assert(f.peval(rsig, z[i], rsig.len()) == 0);
        lemma_zeros_elements(f, rsig, f.size(), i);
        lemma_no_other_zero(f, pow, prim, g, e, rsig, z[i]);
        let p = choose|p: nat| p < e.len() && e[p as int] != 0 && z[i] == #[trigger] f.fpow(g, p);
        crate::decode_laws::lemma_dlog(rs, pow, prim, p, 0);
        assert(f.fpow(g, 0) == 1);
    }
    lemma_zeros_increasing(f, rsig, f.size());
    assert forall|i: int, j: int| 0 <= i < j < locs.len() implies #[trigger] locs[i] != #[trigger] locs[j] by {
        assert(z[i] < z[j]);
    }
    crate::div_laws::law_roots_bound(f, pow, prim, rsig);
}

/// The zeros listed below `b` are listed in increasing order.
proof fn lemma_zeros_increasing(f: &GaloisField, s: Seq<usize>, b: nat)
    requires
        b <= usize::MAX,
    ensures
        forall|i: int, j: int| 0 <= i < j < crate::poly_laws::zeros_below(f, s, b).len() ==>
            crate::poly_laws::zeros_below(f, s, b)[i] < crate::poly_laws::zeros_below(f, s, b)[j],
    decreases b,
{
    if b > 0 {
        lemma_zeros_increasing(f, s, (b - 1) as nat);
        let prev = crate::poly_laws::zeros_below(f, s, (b - 1) as nat);
        let z = crate::poly_laws::zeros_below(f, s, b);
        assert forall|i: int, j: int| 0 <= i < j < z.len() implies z[i] < z[j] by {
            if j >= prev.len() {
                lemma_zeros_elements(f, s, (b - 1) as nat, i);
                assert(z == prev.push((b - 1) as usize));
            } else if z != prev {
                assert(z == prev.push((b - 1) as usize));
            }
        }
    }
}


/// The discrepancy sum runs to its end for a locator of at most `i + 2`
/// coefficients.
proof fn lemma_disc_total(rs: &ReedSolomon, pow: usize, prim: usize, syn: Seq<usize>, sig: Seq<usize>, i: nat, j: nat,
    acc: usize)
    requires
        is_field(&rs.field, pow, prim),
        elements(syn, rs.field.size()),
        elements(sig, rs.field.size()),
        acc < rs.field.size(),
        i + 1 < syn.len(),
        sig.len() <= i + 2,
    ensures
        rs.disc_from(syn, sig, i, j, acc) is Val,
    decreases sig.len() - j,
{
    let f = &rs.field;
    lemma_tables(f, pow, prim);
    if j < sig.len() {
        let x = syn[i + 1 - j];
        law_mult_closed(f, sig[j as int], x);
        let m = f.table_mult(sig[j as int], x);
        crate::field_laws::law_sum_xor(f, acc, m);
        lemma_xor_bound(acc, m, f.size() as usize);
        lemma_disc_total(rs, pow, prim, syn, sig, i, j + 1, acc ^ m);
    }
}

/// One step of the iteration runs to its end from a state whose steps are
/// all `step_ok`.
proof fn lemma_update_total(rs: &ReedSolomon, pow: usize, prim: usize, syn: Seq<usize>, d: Seq<usize>,
    sigma: Seq<Seq<usize>>, h: Seq<usize>, i: nat)
    requires
        is_field(&rs.field, pow, prim),
        elements(syn, rs.field.size()),
        i + 1 < usize::MAX,
        d.len() == i + 1,
        sigma.len() == i + 1,
        h.len() == i + 1,
        forall|mu: nat| mu <= i ==> #[trigger] step_ok(&rs.field, syn, d, sigma, h, mu),
    ensures
        rs.bm_update(d, sigma, h, i) is Val,
{
    let f = &rs.field;
    lemma_tables(f, pow, prim);
    if d[i as int] != 0 {
        assert forall|m: int| 0 <= m < i implies #[trigger] h[m] <= m by {
            assert(step_ok(f, syn, d, sigma, h, m as nat));
        }
        lemma_rho(rs, d, h, 0, i, (0, 0));
        let (r0, r1) = rs.rho_from(d, h, 0, i, (0, 0))->Val_0;
        assert(r0 < i + 1);
        let special = d[r0 as int] == 0 || i == 0;
        assert(step_ok(f, syn, d, sigma, h, i));
        assert(step_ok(f, syn, d, sigma, h, r0));
        let inv: usize = if special { 1usize } else {
            crate::field_laws::law_inverse(f, pow, prim, d[r0 as int]);
            f.first_inverse(d[r0 as int], 1)->Some_0
        };
        assert(rs.rho_inverse(d[r0 as int], special) == Outcome::Val(inv));
        law_mult_closed(f, d[i as int], inv);
        let cc = f.table_mult(d[i as int], inv);
        let x_pow: nat = if special { i + 1 } else { (i - r0) as nat };
        let one = crate::poly::mono_seq(1, 0);
        assert forall|k: int| 0 <= k < one.len() implies #[trigger] one[k] < f.size() by {}
        let sigma_rho = if special { one } else { sigma[r0 as int] };
        let a = sigma[i as int];
        assert forall|k: int| k > a.len() implies #[trigger] coef(a, k) == 0 by {}
        assert forall|k: int| k > sigma_rho.len() implies #[trigger] coef(sigma_rho, k) == 0 by {}
        lemma_poly_combo(f, pow, prim, a, sigma_rho, cc, x_pow, a.len(), sigma_rho.len());
        assert(rs.bm_correct(d, sigma, i, r0) is Val);
    }
}

/// The iteration runs to its end on any syndromes of field elements, when
/// `n - k` is below the largest `usize`.
pub proof fn lemma_bm_total(rs: &ReedSolomon, pow: usize, prim: usize, syn: Seq<usize>, nk: nat, t: nat)
    requires
        is_field(&rs.field, pow, prim),
        elements(syn, rs.field.size()),
        syn.len() == nk,
        1 <= nk,
        nk < usize::MAX,
        t <= nk,
    ensures
        rs.bm_state(syn, nk, t) is Val,
    decreases t,
{
    let f = &rs.field;
    lemma_tables(f, pow, prim);
    if t > 0 {
        let i = (t - 1) as nat;
        lemma_bm_total(rs, pow, prim, syn, nk, i);
        lemma_bm_inv(rs, pow, prim, syn, nk, i);
        let (d, sigma, h) = rs.bm_state(syn, nk, i)->Val_0;
        lemma_update_total(rs, pow, prim, syn, d, sigma, h, i);
        let (sigma2, h2) = rs.bm_update(d, sigma, h, i)->Val_0;
        lemma_bm_next(rs, pow, prim, syn, d, sigma, h, i, sigma2, h2);
        if t != nk {
            lemma_disc_total(rs, pow, prim, syn, sigma2[t as int], i, 1, syn[t as int]);
        }
    }
}

} // verus!
