//! The Reed-Solomon decoder corrects a single error: the syndromes of a
//! codeword with one changed symbol, the Berlekamp iteration on them, the
//! error position and value, and the corrected word.
use vstd::prelude::*;
use crate::outcome::Outcome;
use crate::gf::{GaloisField, xtime, exp_at, last_pos, log_entry};
use crate::gfpoly::{lemma_xor_bound, lemma_xor};
use crate::poly::{deg_of, lemma_deg_of, mono_seq};
use crate::rs::ReedSolomon;
use crate::field_laws::{primitive, lemma_tables, lemma_table_mult_xtime, lemma_table_mult_exp, law_mult_one,
    law_mult_commutes, law_mult_closed, law_mult_assoc, law_mult_distributes, law_mult_zero, law_div_mult,
    law_inverse, lemma_exp_nonzero};
use crate::poly_laws::{coef, elements, is_field, lemma_fpow_bound, lemma_fpow_add, lemma_peval_bound,
    lemma_peval_xor, lemma_peval_trailing, lemma_peval_mono, law_eval};
use crate::div_laws::{pc, lemma_conv_coef, lemma_pc_single_left, lemma_sum_poly_coef, lemma_table_mult_zero};

verus! {

/// `v` last occurs among the first `t` powers at `k`.
proof fn lemma_last_pos_at(v: usize, k: nat, t: nat, prim: usize, max: usize)
    requires
        k < t,
        exp_at(k, prim, max) == v,
        forall|j: nat| k < j < t ==> exp_at(j, prim, max) != v,
    ensures
        last_pos(v, t, prim, max) == Some(k),
    decreases t,
{
    if t - 1 > k {
        lemma_last_pos_at(v, k, (t - 1) as nat, prim, max);
    }
}

/// The logarithm table gives back the exponent of each power of `x`
/// strictly between 0 and `2^pow - 1`.
pub proof fn lemma_log_of_power(f: &GaloisField, pow: usize, prim: usize, k: nat)
    requires
        is_field(f, pow, prim),
        1 <= k < f.size() - 1,
    ensures
        exp_at(k, prim, f.size() as usize) < f.size(),
        f.gf_log@[exp_at(k, prim, f.size() as usize) as int] == k,
        exp_at(k, prim, f.size() as usize) != 0,
{
    let max = 1usize << pow;
    lemma_tables(f, pow, prim);
    crate::gf::lemma_exp_bound(k, prim, pow);
    lemma_exp_nonzero(k, pow, prim);
    let v = exp_at(k, prim, max);
    assert(exp_at(0, prim, max) == 1);
    assert(exp_at(0, prim, max) != v);
    assert forall|j: nat| k < j < max implies exp_at(j, prim, max) != v by {
        if j < max - 1 {
            assert(exp_at(k, prim, max) != exp_at(j, prim, max));
        } else {
            assert(exp_at(j, prim, max) == 1);
        }
    }
    lemma_last_pos_at(v, k, max as nat, prim, max);
}

/// With `pow >= 2`, the element 2 is `x`, whose powers the tables hold:
/// multiplying by it is `xtime`, and its powers are the table entries.
pub proof fn lemma_fpow_two(f: &GaloisField, pow: usize, prim: usize, i: nat)
    requires
        is_field(f, pow, prim),
        pow >= 2,
    ensures
        f.fpow(2, i) == exp_at(i, prim, f.size() as usize),
    decreases i,
{
    let max = 1usize << pow;
    lemma_tables(f, pow, prim);
    assert(xtime(1, prim, max) == 2 && 4 <= max) by (bit_vector)
        requires 2 <= pow <= 30, max == 1usize << pow;
    assert(exp_at(0, prim, max) == 1);
    assert(exp_at(1, prim, max) == xtime(exp_at(0, prim, max), prim, max));
    assert(exp_at(1, prim, max) == 2);
    if i > 0 {
        lemma_fpow_two(f, pow, prim, (i - 1) as nat);
        lemma_log_of_power(f, pow, prim, 1);
        let y = f.fpow(2, (i - 1) as nat);
        lemma_fpow_bound(f, pow, prim, 2, (i - 1) as nat);
        lemma_table_mult_xtime(f, pow, prim, 2, y);
        law_mult_commutes(f, y, 2);
        assert(crate::field_laws::xtime_n(y, 0, prim, max) == y);
        assert(crate::field_laws::xtime_n(y, 1, prim, max) == xtime(y, prim, max));
        assert(f.fpow(2, i) == f.table_mult(y, 2));
        assert(exp_at(i, prim, max) == xtime(exp_at((i - 1) as nat, prim, max), prim, max));
    }
}

/// `(x^i)^j = x^(i j)`.
#[verifier::spinoff_prover]
pub proof fn lemma_fpow_mul(f: &GaloisField, pow: usize, prim: usize, x: usize, i: nat, j: nat)
    requires
        is_field(f, pow, prim),
        x < f.size(),
    ensures
        f.fpow(f.fpow(x, i), j) == f.fpow(x, i * j),
    decreases j,
{
    if j > 0 {
        let jm = (j - 1) as nat;
        lemma_fpow_mul(f, pow, prim, x, i, jm);
        let a: nat = i * jm;
        lemma_fpow_add(f, pow, prim, x, a, i);
        assert(a + i == i * j) by (nonlinear_arith)
            requires a == i * jm, jm + 1 == j;
        assert(f.fpow(f.fpow(x, i), j) == f.table_mult(f.fpow(f.fpow(x, i), jm), f.fpow(x, i)));
        assert(f.fpow(f.fpow(x, i), jm) == f.fpow(x, a));
        assert(f.fpow(x, a + i) == f.table_mult(f.fpow(x, a), f.fpow(x, i)));
        assert(f.fpow(x, i * j) == f.fpow(x, a + i));
    }
}

/// `g` is a nonzero field element whose powers `g^0, ..., g^(2^m - 2)` are
/// distinct: it generates the nonzero elements.
pub open spec fn primitive_element(f: &GaloisField, g: usize) -> bool {
    &&& 1 <= g < f.size()
    &&& forall|i: nat, j: nat| i < j < f.size() - 1 ==> #[trigger] f.fpow(g, i) != #[trigger] f.fpow(g, j)
}

/// With `pow >= 2`, the element 2 (that is, `x`) is a primitive element.
pub proof fn lemma_two_is_primitive_element(f: &GaloisField, pow: usize, prim: usize)
    requires
        is_field(f, pow, prim),
        pow >= 2,
    ensures
        primitive_element(f, 2),
{
    let max = 1usize << pow;
    lemma_tables(f, pow, prim);
    assert(4 <= max) by (bit_vector)
        requires 2 <= pow <= 30, max == 1usize << pow;
    assert forall|i: nat, j: nat| i < j < f.size() - 1 implies #[trigger] f.fpow(2, i) != #[trigger] f.fpow(2, j) by {
        lemma_fpow_two(f, pow, prim, i);
        lemma_fpow_two(f, pow, prim, j);
        assert(exp_at(i, prim, max) != exp_at(j, prim, max));
    }
}

/// Powers of a nonzero field element are nonzero field elements.
pub proof fn lemma_fpow_nonzero(f: &GaloisField, pow: usize, prim: usize, g: usize, i: nat)
    requires
        is_field(f, pow, prim),
        1 <= g < f.size(),
    ensures
        1 <= f.fpow(g, i) < f.size(),
    decreases i,
{
    lemma_tables(f, pow, prim);
    if i > 0 {
        lemma_fpow_nonzero(f, pow, prim, g, (i - 1) as nat);
        lemma_table_mult_exp(f, pow, prim, f.fpow(g, (i - 1) as nat), g);
        law_mult_closed(f, f.fpow(g, (i - 1) as nat), g);
    }
}

/// Stepping through the powers of a primitive generator finds the exponent
/// of each of its powers below `2^m - 1`.
pub proof fn lemma_dlog(rs: &ReedSolomon, pow: usize, prim: usize, loc: nat, k: nat)
    requires
        is_field(&rs.field, pow, prim),
        primitive_element(&rs.field, rs.field.generator),
        k <= loc < rs.field.size() - 1,
    ensures
        rs.dlog_from(rs.field.fpow(rs.field.generator, loc), k, rs.field.fpow(rs.field.generator, k)) == loc,
    decreases loc - k,
{
    let f = &rs.field;
    let g = f.generator;
    if k < loc {
        assert(f.fpow(g, k) != f.fpow(g, loc));
        assert(f.fpow(g, k + 1) == f.table_mult(f.fpow(g, k), g));
        lemma_dlog(rs, pow, prim, loc, k + 1);
    }
}

/// The syndromes after `t` evaluations are the values at `g, ..., g^t`.
pub proof fn lemma_synd_vals(rs: &ReedSolomon, pow: usize, prim: usize, r: Seq<usize>, t: nat)
    requires
        is_field(&rs.field, pow, prim),
        rs.field.generator < rs.field.size(),
        elements(r, rs.field.size()),
        r.len() > 0,
    ensures
        rs.synd_state(r, t) == Outcome::Val((
            Seq::new(t, |i: int| rs.field.peval(r, rs.field.fpow(rs.field.generator, (i + 1) as nat), r.len())),
            rs.field.fpow(rs.field.generator, t + 1),
        )),
    decreases t,
{
    let f = &rs.field;
    let g = f.generator;
    lemma_tables(f, pow, prim);
    law_mult_one(f, pow, prim, g);
    law_mult_commutes(f, g, 1);
    assert(f.fpow(g, 0) == 1);
    assert(f.fpow(g, 1) == g);
    if t == 0 {
        assert(Seq::new(0, |i: int| f.peval(r, f.fpow(g, (i + 1) as nat), r.len())) =~= Seq::<usize>::empty());
    } else {
        lemma_synd_vals(rs, pow, prim, r, (t - 1) as nat);
        let x = f.fpow(g, t);
        lemma_fpow_bound(f, pow, prim, g, t);
        law_eval(f, pow, prim, r, x);
        law_mult_closed(f, x, g);
        assert(Seq::new((t - 1) as nat, |i: int| f.peval(r, f.fpow(g, (i + 1) as nat), r.len())).push(f.peval(r, x, r.len()))
            =~= Seq::new(t, |i: int| f.peval(r, f.fpow(g, (i + 1) as nat), r.len())));
    }
}

/// Changing the symbol at `loc` by `e` adds `e x^loc` to the value at `x`.
pub proof fn lemma_peval_one_change(f: &GaloisField, pow: usize, prim: usize, c: Seq<usize>, loc: nat, e: usize, x: usize)
    requires
        is_field(f, pow, prim),
        elements(c, f.size()),
        loc < c.len(),
        e < f.size(),
        x < f.size(),
    ensures
        elements(c.update(loc as int, c[loc as int] ^ e), f.size()),
        f.peval(c.update(loc as int, c[loc as int] ^ e), x, c.len())
            == f.peval(c, x, c.len()) ^ f.table_mult(e, f.fpow(x, loc)),
{
    lemma_tables(f, pow, prim);
    let r = c.update(loc as int, c[loc as int] ^ e);
    let m = mono_seq(e, loc);
    lemma_xor_bound(c[loc as int], e, f.size() as usize);
    assert forall|i: int| 0 <= i < r.len() implies #[trigger] r[i] < f.size() by {}
    assert forall|i: int| 0 <= i < m.len() implies #[trigger] m[i] < f.size() by {}
    assert forall|i: int| 0 <= i < c.len() implies coef(r, i) == coef(c, i) ^ coef(m, i) by {
        let ci = c[i];
        lemma_xor(ci, 0, 0, 0);
    }
    lemma_peval_xor(f, pow, prim, r, c, m, x, c.len());
    assert forall|i: int| loc + 1 <= i < c.len() implies coef(m, i) == 0 by {}
    lemma_peval_trailing(f, pow, prim, m, x, loc + 1, c.len());
    lemma_peval_mono(f, pow, prim, e, loc, x);
}

/// The syndromes of a codeword with the symbol at `loc` changed by `e`:
/// `S[i] = e Y^(i+1)` with `Y = g^loc`.
pub proof fn lemma_single_error_synd(rs: &ReedSolomon, pow: usize, prim: usize, c: Seq<usize>, loc: nat, e: usize)
    requires
        is_field(&rs.field, pow, prim),
        rs.field.generator < rs.field.size(),
        rs.k <= rs.n,
        elements(c, rs.field.size()),
        loc < c.len(),
        e < rs.field.size(),
        forall|i: nat| 1 <= i <= rs.n - rs.k ==> #[trigger] rs.field.peval(c, rs.field.fpow(rs.field.generator, i), c.len()) == 0,
    ensures
        rs.synd_out(c.update(loc as int, c[loc as int] ^ e)) == Outcome::Val(Seq::new((rs.n - rs.k) as nat,
            |i: int| rs.field.table_mult(e, rs.field.fpow(rs.field.fpow(rs.field.generator, loc), (i + 1) as nat)))),
{
    let f = &rs.field;
    let g = f.generator;
    lemma_tables(f, pow, prim);
    let nk = (rs.n - rs.k) as nat;
    let r = c.update(loc as int, c[loc as int] ^ e);
    lemma_peval_one_change(f, pow, prim, c, loc, e, 0);
    lemma_synd_vals(rs, pow, prim, r, nk);
    let y = f.fpow(g, loc);
    assert forall|i: int| 0 <= i < nk implies #[trigger] f.peval(r, f.fpow(g, (i + 1) as nat), r.len())
        == f.table_mult(e, f.fpow(y, (i + 1) as nat)) by {
        let j = (i + 1) as nat;
        let x = f.fpow(g, j);
        lemma_fpow_bound(f, pow, prim, g, j);
        lemma_peval_one_change(f, pow, prim, c, loc, e, x);
        assert(f.peval(c, x, c.len()) == 0);
        lemma_fpow_mul(f, pow, prim, g, j, loc);
        lemma_fpow_mul(f, pow, prim, g, loc, j);
        assert(j * loc == loc * j) by (nonlinear_arith);
        lemma_xor(f.table_mult(e, f.fpow(x, loc)), 0, 0, 0);
    }
    assert(Seq::new(nk, |i: int| f.peval(r, f.fpow(g, (i + 1) as nat), r.len()))
        =~= Seq::new(nk, |i: int| f.table_mult(e, f.fpow(y, (i + 1) as nat))));
}

/// The syndrome sequence of a single error of value `e` at `Y = y`.
pub open spec fn single_synd(f: &GaloisField, e: usize, y: usize, nk: nat) -> Seq<usize> {
    Seq::new(nk, |i: int| f.table_mult(e, f.fpow(y, (i + 1) as nat)))
}

/// Each syndrome of a single error is the previous one times `Y`.
proof fn lemma_synd_step(f: &GaloisField, pow: usize, prim: usize, e: usize, y: usize, i: nat)
    requires
        is_field(f, pow, prim),
        e < f.size(),
        y < f.size(),
    ensures
        f.table_mult(e, f.fpow(y, i + 2)) == f.table_mult(y, f.table_mult(e, f.fpow(y, i + 1))),
        f.table_mult(e, f.fpow(y, i + 1)) < f.size(),
{
    lemma_tables(f, pow, prim);
    let p = f.fpow(y, i + 1);
    lemma_fpow_bound(f, pow, prim, y, i + 1);
    assert(f.fpow(y, i + 2) == f.table_mult(p, y));
    law_mult_assoc(f, pow, prim, e, p, y);
    law_mult_closed(f, e, p);
    law_mult_commutes(f, f.table_mult(e, p), y);
}

/// `c X * 1 = c X`.
proof fn lemma_lin_product(f: &GaloisField, pow: usize, prim: usize, c: usize)
    requires
        is_field(f, pow, prim),
        1 <= c < f.size(),
    ensures
        f.mult_poly_out(mono_seq(c, 1), mono_seq(1, 0)) == Outcome::Val(seq![0usize, c]),
{
    lemma_tables(f, pow, prim);
    let a = mono_seq(c, 1);
    let b = mono_seq(1, 0);
    assert forall|i: int| 0 <= i < a.len() implies #[trigger] a[i] < f.size() by {}
    assert forall|i: int| 0 <= i < b.len() implies #[trigger] b[i] < f.size() by {}
    crate::poly_laws::law_mult_poly_eval(f, pow, prim, a, b, 0);
    assert(deg_of(a) == 1);
    assert(deg_of(b) == 0);
    let p = f.conv(a, b);
    assert(p.len() == 2);
    assert forall|k: int| 0 <= k < 2 implies #[trigger] p[k] == seq![0usize, c][k] by {
        lemma_conv_coef(f, a, b, k);
        assert forall|i: int| 0 <= i < 2 && i != 1 implies coef(a, i) == 0 by {}
        lemma_pc_single_left(f, a, b, 1, c, k, 2);
        law_mult_one(f, pow, prim, c);
        lemma_table_mult_zero(f, c);
    }
    assert(p =~= seq![0usize, c]);
}

/// `(1 + a X) + c X = 1 + (a + c) X`, and `1 + c X` from `1`.
proof fn lemma_lin_sum(f: &GaloisField, pow: usize, prim: usize, a: usize, c: usize)
    requires
        is_field(f, pow, prim),
        a < f.size(),
        1 <= c < f.size(),
    ensures
        f.sum_poly_out(seq![1usize, a], seq![0usize, c]) == Outcome::Val(seq![1usize, a ^ c]),
        f.sum_poly_out(mono_seq(1, 0), seq![0usize, c]) == Outcome::Val(seq![1usize, c]),
{
    lemma_tables(f, pow, prim);
    let s1 = seq![1usize, a];
    let s2 = seq![0usize, c];
    let one = mono_seq(1, 0);
    assert(deg_of(s2) == 1);
    assert(deg_of(one) == 0);
    assert(crate::poly::deg_upto(s1, 1) == 0);
    assert(deg_of(s1) == if a != 0 { 1nat } else { 0nat });
    lemma_xor(1, 0, 0, 0);
    lemma_xor(c, 0, 0, 0);
    if a != 0 {
        assert(!f.some_out_of_range(s1, s2, 2));
        assert(Seq::new(2, |i: int| if i < 2 { s1[i] ^ s2[i] } else { s2[i] }) =~= seq![1usize, a ^ c]);
    } else {
        lemma_xor(0, c, 0, 0);
        assert(!f.some_out_of_range(s1, s2, 1));
        assert(Seq::new(2, |i: int| if i < 1 { s1[i] ^ s2[i] } else { s2[i] }) =~= seq![1usize, a ^ c]);
    }
    assert(!f.some_out_of_range(one, s2, 1));
    assert(Seq::new(2, |i: int| if i < 1 { one[i] ^ s2[i] } else { s2[i] }) =~= seq![1usize, c]);
}

/// The discrepancy of a locator `1 + v X`.
proof fn lemma_disc_lin(rs: &ReedSolomon, syn: Seq<usize>, v: usize, i: nat, acc: usize)
    requires
        rs.field.wf(),
        i < syn.len(),
        v < rs.field.size(),
        syn[i as int] < rs.field.size(),
        acc < rs.field.size(),
    ensures
        rs.disc_from(syn, seq![1usize, v], i, 1, acc) == Outcome::Val(acc ^ rs.field.table_mult(v, syn[i as int])),
{
    let f = &rs.field;
    let sig = seq![1usize, v];
    law_mult_closed(f, v, syn[i as int]);
    let m = f.table_mult(v, syn[i as int]);
    crate::field_laws::law_sum_xor(f, acc, m);
    assert(sig[1] == v);
    assert((i + 1 - 1) as int == i as int);
    assert(rs.disc_from(syn, sig, i, 2, acc ^ m) == Outcome::Val(acc ^ m));
}

/// Step 0 of the Berlekamp iteration with first syndrome `s0`.
proof fn lemma_bm_step0(rs: &ReedSolomon, pow: usize, prim: usize, s0: usize)
    requires
        is_field(&rs.field, pow, prim),
        1 <= s0 < rs.field.size(),
    ensures
        rs.bm_update(seq![s0], seq![mono_seq(1, 0)], seq![0usize], 0)
            == Outcome::Val((seq![mono_seq(1, 0), seq![1usize, s0]], seq![0usize, 1usize])),
{
    let f = &rs.field;
    lemma_tables(f, pow, prim);
    let d = seq![s0];
    let sigma = seq![mono_seq(1, 0)];
    let h = seq![0usize];
    assert(rs.rho_from(d, h, 0, 0, (0, 0)) == Outcome::Val((0nat, 0nat)));
    law_mult_one(f, pow, prim, s0);
    lemma_lin_product(f, pow, prim, s0);
    lemma_lin_sum(f, pow, prim, 0, s0);
    assert(rs.rho_inverse(d[0], true) == Outcome::Val(1usize));
    assert(rs.bm_correct(d, sigma, 0, 0) == Outcome::Val(seq![1usize, s0]));
    assert(sigma.push(seq![1usize, s0]) =~= seq![mono_seq(1, 0), seq![1usize, s0]]);
    assert(h.push(1usize) =~= seq![0usize, 1usize]);
}

/// One step of the Berlekamp state, from the step's update and discrepancy.
proof fn lemma_bm_state_step(rs: &ReedSolomon, syn: Seq<usize>, nk: nat, t: nat, d: Seq<usize>,
    sigma: Seq<Seq<usize>>, h: Seq<usize>, sigma2: Seq<Seq<usize>>, h2: Seq<usize>, dn: usize)
    requires
        t >= 1,
        rs.bm_state(syn, nk, (t - 1) as nat) == Outcome::Val((d, sigma, h)),
        rs.bm_update(d, sigma, h, (t - 1) as nat) == Outcome::Val((sigma2, h2)),
        t != nk ==> t < syn.len() && rs.disc_from(syn, sigma2[t as int], (t - 1) as nat, 1, syn[t as int]) == Outcome::Val(dn),
    ensures
        rs.bm_state(syn, nk, t) == Outcome::Val((if t != nk { d.push(dn) } else { d }, sigma2, h2)),
{
}

/// The first step of the Berlekamp iteration on the syndromes of a single error.
proof fn lemma_bm_single_first(rs: &ReedSolomon, pow: usize, prim: usize, e: usize, y: usize, nk: nat)
    requires
        is_field(&rs.field, pow, prim),
        1 <= e < rs.field.size(),
        1 <= y < rs.field.size(),
        nk >= 2,
    ensures
        ({
            let syn = single_synd(&rs.field, e, y, nk);
            let s0 = syn[0];
            &&& s0 == rs.field.table_mult(e, y)
            &&& 1 <= s0 < rs.field.size()
            &&& syn[1] == rs.field.table_mult(y, s0)
            &&& rs.bm_state(syn, nk, 1) == Outcome::Val((
                seq![s0, syn[1] ^ rs.field.table_mult(s0, s0)],
                seq![mono_seq(1, 0), seq![1usize, s0]],
                seq![0usize, 1usize],
            ))
        }),
{
    let f = &rs.field;
    lemma_tables(f, pow, prim);
    let syn = single_synd(f, e, y, nk);
    lemma_synd_step(f, pow, prim, e, y, 0);
    lemma_synd_step(f, pow, prim, e, y, 1);
    let s0 = syn[0];
    assert(f.fpow(y, 0) == 1);
    assert(f.fpow(y, 1) == f.table_mult(1, y));
    law_mult_one(f, pow, prim, y);
    law_mult_commutes(f, y, 1);
    lemma_table_mult_exp(f, pow, prim, e, y);
    let d = seq![s0];
    let sigma = seq![mono_seq(1, 0)];
    let h = seq![0usize];
    assert(rs.bm_state(syn, nk, 0) == Outcome::Val((d, sigma, h)));
    lemma_bm_step0(rs, pow, prim, s0);
    let sigma2 = seq![mono_seq(1, 0), seq![1usize, s0]];
    assert(sigma2[1] == seq![1usize, s0]);
    lemma_disc_lin(rs, syn, s0, 0, syn[1]);
    let dn = syn[1] ^ f.table_mult(s0, s0);
    lemma_bm_state_step(rs, syn, nk, 1, d, sigma, h, sigma2, seq![0usize, 1usize], dn);
    assert(d.push(dn) =~= seq![s0, dn]);
}

/// `(y s0) / s0 = y` and `(s0 s0) / s0 = s0` through the inverse of `s0`.
proof fn lemma_inverse_cancels(f: &GaloisField, pow: usize, prim: usize, y: usize, s0: usize, inv: usize)
    requires
        is_field(f, pow, prim),
        y < f.size(),
        1 <= s0 < f.size(),
        1 <= inv < f.size(),
        f.table_mult(s0, inv) == 1,
    ensures
        f.table_mult(inv, f.table_mult(y, s0)) == y,
        f.table_mult(inv, f.table_mult(s0, s0)) == s0,
{
    lemma_tables(f, pow, prim);
    law_mult_commutes(f, s0, inv);
    law_mult_commutes(f, inv, y);
    law_mult_assoc(f, pow, prim, inv, y, s0);
    law_mult_assoc(f, pow, prim, y, inv, s0);
    law_mult_assoc(f, pow, prim, inv, s0, s0);
    law_mult_one(f, pow, prim, y);
    law_mult_one(f, pow, prim, s0);
    law_mult_commutes(f, 1, s0);
}

/// Step 1 of the Berlekamp iteration on the syndromes of a single error:
/// the locator becomes `1 + Y X`.
#[verifier::spinoff_prover]
proof fn lemma_bm_step1(rs: &ReedSolomon, pow: usize, prim: usize, y: usize, s0: usize, syn1: usize)
    requires
        is_field(&rs.field, pow, prim),
        1 <= y < rs.field.size(),
        1 <= s0 < rs.field.size(),
        syn1 == rs.field.table_mult(y, s0),
    ensures
        ({
            let d = seq![s0, syn1 ^ rs.field.table_mult(s0, s0)];
            let sigma = seq![mono_seq(1, 0), seq![1usize, s0]];
            let h = seq![0usize, 1usize];
            rs.bm_update(d, sigma, h, 1) matches Outcome::Val((sigma2, h2))
                && sigma2 == sigma.push(seq![1usize, y]) && h2.len() == 3
        }),
{
    let f = &rs.field;
    lemma_tables(f, pow, prim);
    let ss = f.table_mult(s0, s0);
    law_mult_closed(f, s0, s0);
    law_mult_closed(f, y, s0);
    let d1 = syn1 ^ ss;
    lemma_xor_bound(syn1, ss, f.size() as usize);
    let d = seq![s0, d1];
    let sigma = seq![mono_seq(1, 0), seq![1usize, s0]];
    let h = seq![0usize, 1usize];
    if d1 == 0 {
        lemma_xor(syn1, ss, 0, 0);
        lemma_xor(ss, 0, 0, 0);
        assert(syn1 == ss);
        law_div_mult(f, pow, prim, y, s0);
        law_div_mult(f, pow, prim, s0, s0);
        assert(y == s0);
    } else {
        assert(rs.rho_from(d, h, 1, 1, (0, 0)) == Outcome::Val((0nat, 0nat)));
        assert(rs.rho_from(d, h, 0, 1, (0, 0)) == Outcome::Val((0nat, 0nat)));
        law_inverse(f, pow, prim, s0);
        let inv = f.first_inverse(s0, 1)->Some_0;
        law_mult_closed(f, s0, inv);
        assert(f.table_mult(s0, inv) == 1);
        assert(rs.rho_inverse(s0, false) == Outcome::Val(inv));
        law_mult_closed(f, d1, inv);
        let cc = f.table_mult(d1, inv);
        lemma_table_mult_exp(f, pow, prim, d1, inv);
        lemma_lin_product(f, pow, prim, cc);
        lemma_lin_sum(f, pow, prim, s0, cc);
        // cc = y + s0
        law_mult_commutes(f, d1, inv);
        law_mult_distributes(f, pow, prim, inv, syn1, ss);
        law_mult_closed(f, inv, d1);
        lemma_inverse_cancels(f, pow, prim, y, s0, inv);
        assert(cc == y ^ s0);
        lemma_xor(y, s0, 0, 0);
        lemma_xor(s0, y ^ s0, 0, 0);
        assert(s0 ^ cc == y);
        assert(rs.bm_correct(d, sigma, 1, 0) == Outcome::Val(seq![1usize, y]));
    }
}

/// The Berlekamp state of a single error after the first steps.
pub open spec fn bm_single_ok(rs: &ReedSolomon, y: usize, nk: nat, t: nat, o: Outcome<(Seq<usize>, Seq<Seq<usize>>, Seq<usize>)>) -> bool {
    o matches Outcome::Val((d, sigma, h))
        && sigma.len() == t + 1 && sigma[t as int] == seq![1usize, y] && h.len() == t + 1
        && d.len() == (if t < nk { t + 1 } else { t })
        && forall|j: int| 2 <= j < d.len() ==> #[trigger] d[j] == 0
}

/// After step 2 the locator of a single error is `1 + Y X`.
#[verifier::spinoff_prover]
proof fn lemma_bm_single_two(rs: &ReedSolomon, pow: usize, prim: usize, e: usize, y: usize, nk: nat)
    requires
        is_field(&rs.field, pow, prim),
        1 <= e < rs.field.size(),
        1 <= y < rs.field.size(),
        nk >= 2,
    ensures
        bm_single_ok(rs, y, nk, 2, rs.bm_state(single_synd(&rs.field, e, y, nk), nk, 2)),
{
    let f = &rs.field;
    lemma_tables(f, pow, prim);
    let syn = single_synd(f, e, y, nk);
    lemma_bm_single_first(rs, pow, prim, e, y, nk);
    let s0 = syn[0];
    let ss = f.table_mult(s0, s0);
    let d = seq![s0, syn[1] ^ ss];
    let sigma = seq![mono_seq(1, 0), seq![1usize, s0]];
    let h = seq![0usize, 1usize];
    lemma_bm_step1(rs, pow, prim, y, s0, syn[1]);
    let (sigma2, h2) = rs.bm_update(d, sigma, h, 1)->Val_0;
    assert(sigma2[2] == seq![1usize, y]);
    if 2 != nk {
        lemma_synd_step(f, pow, prim, e, y, 1);
        lemma_synd_step(f, pow, prim, e, y, 2);
        lemma_disc_lin(rs, syn, y, 1, syn[2]);
        lemma_xor(syn[2], 0, 0, 0);
    }
    lemma_bm_state_step(rs, syn, nk, 2, d, sigma, h, sigma2, h2, 0);
    let dd = if 2 != nk { d.push(0usize) } else { d };
    assert(forall|j: int| 2 <= j < dd.len() ==> #[trigger] dd[j] == 0);
}

/// Each later step keeps the locator of a single error.
#[verifier::spinoff_prover]
proof fn lemma_bm_single_next(rs: &ReedSolomon, pow: usize, prim: usize, e: usize, y: usize, nk: nat, t: nat)
    requires
        is_field(&rs.field, pow, prim),
        1 <= e < rs.field.size(),
        1 <= y < rs.field.size(),
        nk >= 2,
        3 <= t <= nk,
        bm_single_ok(rs, y, nk, (t - 1) as nat, rs.bm_state(single_synd(&rs.field, e, y, nk), nk, (t - 1) as nat)),
    ensures
        bm_single_ok(rs, y, nk, t, rs.bm_state(single_synd(&rs.field, e, y, nk), nk, t)),
{
    let f = &rs.field;
    lemma_tables(f, pow, prim);
    let syn = single_synd(f, e, y, nk);
    let (d, sigma, h) = rs.bm_state(syn, nk, (t - 1) as nat)->Val_0;
    let i = (t - 1) as nat;
    assert(d[i as int] == 0);
    let sigma2 = sigma.push(sigma[i as int]);
    let h2 = h.push(h[i as int]);
    assert(rs.bm_update(d, sigma, h, i) == Outcome::Val((sigma2, h2)));
    if t != nk {
        lemma_synd_step(f, pow, prim, e, y, i);
        lemma_synd_step(f, pow, prim, e, y, (i - 1) as nat);
        assert(syn[t as int] == f.table_mult(y, syn[i as int]));
        lemma_disc_lin(rs, syn, y, i, syn[t as int]);
        lemma_xor(syn[t as int], 0, 0, 0);
    }
    lemma_bm_state_step(rs, syn, nk, t, d, sigma, h, sigma2, h2, 0);
    let dd = if t != nk { d.push(0usize) } else { d };
    assert(forall|j: int| 2 <= j < dd.len() ==> #[trigger] dd[j] == 0);
}

/// From step 2 on, the locator of a single error stays `1 + Y X` and every
/// later discrepancy is zero.
proof fn lemma_bm_single(rs: &ReedSolomon, pow: usize, prim: usize, e: usize, y: usize, nk: nat, t: nat)
    requires
        is_field(&rs.field, pow, prim),
        1 <= e < rs.field.size(),
        1 <= y < rs.field.size(),
        nk >= 2,
        2 <= t <= nk,
    ensures
        bm_single_ok(rs, y, nk, t, rs.bm_state(single_synd(&rs.field, e, y, nk), nk, t)),
    decreases t,
{
    if t == 2 {
        lemma_bm_single_two(rs, pow, prim, e, y, nk);
    } else {
        lemma_bm_single(rs, pow, prim, e, y, nk, (t - 1) as nat);
        lemma_bm_single_next(rs, pow, prim, e, y, nk, t);
    }
}

/// `pow` computes the powers `fpow` in a field.
pub proof fn lemma_pow_out(f: &GaloisField, pow: usize, prim: usize, x: usize, n: nat)
    requires
        is_field(f, pow, prim),
        x < f.size(),
    ensures
        f.pow_out(x, n) == Outcome::Val(f.fpow(x, n)),
    decreases n,
{
    lemma_tables(f, pow, prim);
    if n > 0 {
        lemma_pow_out(f, pow, prim, x, (n - 1) as nat);
        lemma_fpow_bound(f, pow, prim, x, (n - 1) as nat);
        law_mult_closed(f, f.fpow(x, (n - 1) as nat), x);
    }
}

/// Law: `pow(x, 0)` is 1, `pow(x, n + 1)` is `pow(x, n)` times `x`, and
/// `pow(x, m + n)` is `pow(x, m)` times `pow(x, n)`.
pub proof fn law_pow(f: &GaloisField, pow: usize, prim: usize, x: usize, m: nat, n: nat)
    requires
        is_field(f, pow, prim),
        x < f.size(),
    ensures
        f.pow_out(x, 0) == Outcome::Val(1usize),
        f.pow_out(x, m) == Outcome::Val(f.fpow(x, m)) && f.fpow(x, m) < f.size(),
        f.pow_out(x, n + 1) == f.mult_out(f.fpow(x, n), x),
        f.pow_out(x, m + n) == f.mult_out(f.fpow(x, m), f.fpow(x, n)),
{
    lemma_tables(f, pow, prim);
    lemma_pow_out(f, pow, prim, x, m);
    lemma_pow_out(f, pow, prim, x, n);
    lemma_pow_out(f, pow, prim, x, n + 1);
    lemma_pow_out(f, pow, prim, x, m + n);
    lemma_fpow_bound(f, pow, prim, x, m);
    lemma_fpow_bound(f, pow, prim, x, n);
    law_mult_closed(f, f.fpow(x, n), x);
    law_mult_closed(f, f.fpow(x, m), f.fpow(x, n));
    lemma_fpow_add(f, pow, prim, x, m, n);
}

/// `c + X` evaluates to `c + x`.
pub proof fn lemma_eval_lin(f: &GaloisField, pow: usize, prim: usize, c: usize, x: usize)
    requires
        is_field(f, pow, prim),
        c < f.size(),
        x < f.size(),
    ensures
        f.eval_out(seq![c, 1usize], x) == Outcome::Val(c ^ x),
{
    lemma_tables(f, pow, prim);
    let lin = seq![c, 1usize];
    assert forall|i: int| 0 <= i < lin.len() implies #[trigger] lin[i] < f.size() by {}
    law_eval(f, pow, prim, lin, x);
    law_mult_one(f, pow, prim, x);
    law_mult_commutes(f, x, 1);
    law_mult_one(f, pow, prim, c);
    assert(f.fpow(x, 0) == 1);
    assert(f.fpow(x, 1) == f.table_mult(1, x));
    assert(coef(lin, 0) == c);
    assert(coef(lin, 1) == 1);
    assert(f.peval(lin, x, 0) == 0);
    assert(f.peval(lin, x, 1) == 0usize ^ c);
    assert(f.peval(lin, x, 2) == (0usize ^ c) ^ f.table_mult(1, x));
    lemma_xor(c, 0, 0, 0);
}

/// The only root of `y + X` is `y`, which `roots` finds by scanning up to it.
proof fn lemma_roots_lin(f: &GaloisField, pow: usize, prim: usize, y: usize, i: nat)
    requires
        is_field(f, pow, prim),
        y < f.size(),
        i <= y,
    ensures
        f.roots_from(seq![y, 1usize], 1, i, Seq::empty()) == Outcome::Val(seq![y]),
    decreases y - i,
{
    lemma_eval_lin(f, pow, prim, y, i as usize);
    if i < y {
        lemma_xor(y, i as usize, 0, 0);
        lemma_xor(y, 0, 0, 0);
        assert(y ^ (i as usize) != 0);
        lemma_roots_lin(f, pow, prim, y, i + 1);
    } else {
        lemma_xor(y, 0, 0, 0);
        assert(Seq::<usize>::empty().push(i as usize) =~= seq![y]);
    }
}

/// Solving the one-row system `Y v = S[0]` gives the error value.
proof fn lemma_error_value(rs: &ReedSolomon, pow: usize, prim: usize, loc: nat, e: usize, syn: Seq<usize>)
    requires
        is_field(&rs.field, pow, prim),
        1 <= rs.field.generator < rs.field.size(),
        loc < usize::MAX,
        1 <= e < rs.field.size(),
        syn.len() >= 1,
        syn[0] == rs.field.table_mult(e, rs.field.fpow(rs.field.generator, loc)),
    ensures
        rs.error_vals_out(seq![loc as usize], syn) == Outcome::Val(seq![e]),
{
    let f = &rs.field;
    let g = f.generator;
    lemma_tables(f, pow, prim);
    let y = f.fpow(g, loc);
    lemma_fpow_nonzero(f, pow, prim, g, loc);
    assert(1 <= y < f.size());
    lemma_pow_out(f, pow, prim, g, loc);
    let elc = seq![loc as usize];
    assert(f.pow_out(f.generator, elc[0] as nat) == Outcome::Val(y));
    assert(rs.first_row_out(elc) == Outcome::Val(seq![y])) by {
        assert(seq![y] =~= Seq::new(elc.len(), |j: int| crate::rs::or_keep(f.pow_out(f.generator, elc[j] as nat), 0usize)));
    }
    let s0 = syn[0];
    lemma_table_mult_exp(f, pow, prim, e, y);
    let m = seq![seq![y].push(s0)];
    assert(rs.ev_rows(elc, syn, 1) == Outcome::Val(m));
    assert(m[0] =~= seq![y, s0]);
    // Gauss-Jordan on one row: divide it by its pivot y
    law_div_mult(f, pow, prim, 1, y);
    law_mult_one(f, pow, prim, y);
    law_mult_commutes(f, 1, y);
    assert(f.div_out(y, y) == Outcome::Val(1usize));
    law_div_mult(f, pow, prim, e, y);
    assert(f.div_out(s0, y) == Outcome::Val(e));
    let row = seq![y, s0];
    assert(f.scale_row(row.update(0, 1usize).update(1, e), y, 2) == Outcome::Val(row.update(0, 1usize).update(1, e)));
    assert(f.scale_row(row.update(0, 1usize), y, 1) == Outcome::Val(row.update(0, 1usize).update(1, e)));
    assert(f.scale_row(row, y, 0) == Outcome::Val(row.update(0, 1usize).update(1, e)));
    let row2 = row.update(0, 1usize).update(1, e);
    assert(row2 =~= seq![1usize, e]);
    assert(f.pivot(m, 0, 0) == Outcome::Val((m, 0nat, false)));
    let m3 = m.update(0, row2);
    assert(f.elim_rows(m3, 0, 0, 1) == Outcome::Val(m3));
    assert(f.elim_rows(m3, 0, 0, 0) == Outcome::Val(m3));
    assert(f.reduce_at(m, 0, 0) == Outcome::Val(m3));
    assert(f.rref_out(m) == Outcome::Val(m3));
    assert(m3[0].last() == e);
    assert(Seq::new(m3.len(), |i: int| m3[i].last()) =~= seq![e]);
}

/// The Berlekamp iteration on the syndromes of a single error at `Y = y`
/// returns the locator `1 + Y X`.
#[verifier::spinoff_prover]
proof fn lemma_single_locator(rs: &ReedSolomon, pow: usize, prim: usize, e: usize, y: usize)
    requires
        is_field(&rs.field, pow, prim),
        1 <= e < rs.field.size(),
        1 <= y < rs.field.size(),
        rs.k + 2 <= rs.n,
    ensures
        rs.berlekamp_out(single_synd(&rs.field, e, y, (rs.n - rs.k) as nat)) == Outcome::Val(seq![1usize, y]),
        deg_of(seq![1usize, y]) == 1,
        seq![1usize, y].reverse() == seq![y, 1usize],
{
    let nk = (rs.n - rs.k) as nat;
    lemma_bm_single(rs, pow, prim, e, y, nk, nk);
    let elp = seq![1usize, y];
    assert(crate::poly::deg_upto(elp, 1) == 0);
    assert(elp.reverse() =~= seq![y, 1usize]);
}

/// The error position found for the locator `1 + Y X` with `Y = g^loc` is `loc`.
#[verifier::spinoff_prover]
proof fn lemma_single_position(rs: &ReedSolomon, pow: usize, prim: usize, loc: nat)
    requires
        is_field(&rs.field, pow, prim),
        primitive_element(&rs.field, rs.field.generator),
        loc < rs.field.size() - 1,
    ensures
        rs.error_locs_out(seq![rs.field.fpow(rs.field.generator, loc), 1usize]) == Outcome::Val(seq![loc as usize]),
        1 <= rs.field.fpow(rs.field.generator, loc) < rs.field.size(),
{
    let f = &rs.field;
    let g = f.generator;
    lemma_tables(f, pow, prim);
    let y = f.fpow(g, loc);
    lemma_fpow_nonzero(f, pow, prim, g, loc);
    let lin = seq![y, 1usize];
    assert(crate::poly::deg_upto(lin, 1) == 0);
    assert(deg_of(lin) == 1);
    lemma_roots_lin(f, pow, prim, y, 0);
    assert(f.roots_out(lin) == Outcome::Val(seq![y]));
    assert(f.fpow(g, 0) == 1);
    lemma_dlog(rs, pow, prim, loc, 0);
    assert(Seq::new(1, |i: int| rs.dlog_from(seq![y][i], 0, 1) as usize) =~= seq![loc as usize]);
}

/// Adding `e X^loc` to the word with the changed symbol gives back the codeword.
#[verifier::spinoff_prover]
proof fn lemma_single_fix(rs: &ReedSolomon, pow: usize, prim: usize, c: Seq<usize>, loc: nat, e: usize)
    requires
        is_field(&rs.field, pow, prim),
        elements(c, rs.field.size()),
        loc < c.len(),
        loc < usize::MAX,
        1 <= e < rs.field.size(),
    ensures
        rs.err_poly(seq![loc as usize], seq![e], 1) matches Outcome::Val(ep)
            && rs.field.sum_poly_out(c.update(loc as int, c[loc as int] ^ e), ep) matches Outcome::Val(d)
            && forall|k: int| k >= 0 ==> #[trigger] coef(d, k) == coef(c, k),
{
    let f = &rs.field;
    lemma_tables(f, pow, prim);
    let r = c.update(loc as int, c[loc as int] ^ e);
    lemma_peval_one_change(f, pow, prim, c, loc, e, 0);
    let locs = seq![loc as usize];
    let vals = seq![e];
    let m = mono_seq(e, loc);
    let zero = mono_seq(0, 0);
    assert forall|i: int| 0 <= i < m.len() implies #[trigger] m[i] < f.size() by {}
    assert forall|i: int| 0 <= i < zero.len() implies #[trigger] zero[i] < f.size() by {}
    lemma_sum_poly_coef(f, pow, prim, zero, m);
    let ep = f.sum_poly_out(zero, m)->Val_0;
    assert(rs.err_poly(locs, vals, 0) == Outcome::Val(zero));
    assert(locs[0] as nat == loc);
    assert(rs.err_poly(locs, vals, 1) == Outcome::Val(ep));
    lemma_sum_poly_coef(f, pow, prim, r, ep);
    let d = f.sum_poly_out(r, ep)->Val_0;
    assert forall|k: int| k >= 0 implies #[trigger] coef(d, k) == coef(c, k) by {
        let cm = coef(m, k);
        let cc = coef(c, k);
        assert(coef(zero, k) == 0);
        lemma_xor(cm, 0, 0, 0);
        assert(coef(ep, k) == cm);
        if k < c.len() {
            if k != loc {
                lemma_xor(cc, 0, 0, 0);
            }
            assert(coef(r, k) == cc ^ cm);
        } else {
            assert(cm == 0 && cc == 0 && coef(r, k) == 0);
            lemma_xor(0, 0, 0, 0);
        }
        lemma_xor(cc, cm, 0, 0);
    }
}

/// Law: a codeword with one symbol changed decodes back to the codeword,
/// coefficient by coefficient, when the code has at least two check symbols,
/// its generator is a primitive element, and the changed position is below
/// `2^pow - 1`.
pub proof fn law_decode_single_error(rs: &ReedSolomon, pow: usize, prim: usize, c: Seq<usize>, loc: nat, e: usize)
    requires
        is_field(&rs.field, pow, prim),
        primitive_element(&rs.field, rs.field.generator),
        rs.k + 2 <= rs.n,
        elements(c, rs.field.size()),
        forall|i: nat| 1 <= i <= rs.n - rs.k
            ==> #[trigger] rs.field.peval(c, rs.field.fpow(rs.field.generator, i), c.len()) == 0,
        loc < c.len(),
        loc < rs.field.size() - 1,
        1 <= e < rs.field.size(),
    ensures
        rs.decode_out(c.update(loc as int, c[loc as int] ^ e)) matches Outcome::Val(d)
            && forall|k: int| k >= 0 ==> #[trigger] coef(d, k) == coef(c, k),
{
    let f = &rs.field;
    let g = f.generator;
    lemma_tables(f, pow, prim);
    let nk = (rs.n - rs.k) as nat;
    let r = c.update(loc as int, c[loc as int] ^ e);
    lemma_single_error_synd(rs, pow, prim, c, loc, e);
    lemma_single_position(rs, pow, prim, loc);
    let y = f.fpow(g, loc);
    let syn = single_synd(f, e, y, nk);
    assert(rs.synd_out(r) == Outcome::Val(syn));
    lemma_single_locator(rs, pow, prim, e, y);
    law_mult_one(f, pow, prim, y);
    law_mult_commutes(f, y, 1);
    assert(f.fpow(y, 0) == 1);
    assert(f.fpow(y, 1) == f.table_mult(1, y));
    assert(syn[0] == f.table_mult(e, y));
    lemma_error_value(rs, pow, prim, loc, e, syn);
    lemma_single_fix(rs, pow, prim, c, loc, e);
    assert(seq![loc as usize].len() == 1);
}

/// A logarithm found below `2^m - 1` is one: the generator raised to it
/// gives the element back.
pub proof fn lemma_dlog_sound(rs: &ReedSolomon, y: usize, k: nat)
    ensures
        rs.dlog_from(y, k, rs.field.fpow(rs.field.generator, k)) < rs.field.size() - 1
            ==> rs.field.fpow(rs.field.generator, rs.dlog_from(y, k, rs.field.fpow(rs.field.generator, k))) == y,
        k <= rs.field.size() - 1 ==> rs.dlog_from(y, k, rs.field.fpow(rs.field.generator, k)) <= rs.field.size() - 1,
    decreases rs.field.size() - 1 - k,
{
    let f = &rs.field;
    let g = f.generator;
    if !(k >= f.size() - 1 || f.fpow(g, k) == y) {
        assert(f.fpow(g, k + 1) == f.table_mult(f.fpow(g, k), g));
        lemma_dlog_sound(rs, y, k + 1);
    }
}

/// Law: `error_locs` turns every zero of the locator that is a power
/// `g^p` of the code's generator (`p < 2^m - 1`) into the position `p`, and
/// every position below `2^m - 1` that it reports is such a zero.
pub proof fn law_error_locs(rs: &ReedSolomon, pow: usize, prim: usize, s: Seq<usize>)
    requires
        is_field(&rs.field, pow, prim),
        primitive_element(&rs.field, rs.field.generator),
        elements(s, rs.field.size()),
        s.len() > 0,
        exists|i: int| 0 <= i < s.len() && s[i] != 0,
    ensures
        rs.error_locs_out(s) matches Outcome::Val(locs)
            && (forall|p: nat| p < rs.field.size() - 1
                && #[trigger] rs.field.peval(s, rs.field.fpow(rs.field.generator, p), s.len()) == 0
                ==> locs.contains(p as usize))
            && (forall|i: int| 0 <= i < locs.len() && locs[i] < rs.field.size() - 1
                ==> #[trigger] rs.field.peval(s, rs.field.fpow(rs.field.generator, locs[i] as nat), s.len()) == 0),
{
    let f = &rs.field;
    let g = f.generator;
    lemma_tables(f, pow, prim);
    crate::div_laws::law_roots_complete(f, pow, prim, s);
    crate::div_laws::lemma_listed_are_zeros(f, s, f.size());
    let z = crate::poly_laws::zeros_below(f, s, f.size());
    let locs = Seq::new(z.len(), |i: int| rs.dlog_from(z[i], 0, 1) as usize);
    assert(rs.error_locs_out(s) == Outcome::Val(locs));
    assert(f.fpow(g, 0) == 1);
    assert forall|p: nat| p < f.size() - 1
        && #[trigger] f.peval(s, f.fpow(g, p), s.len()) == 0 implies locs.contains(p as usize) by {
        let x = f.fpow(g, p);
        lemma_fpow_nonzero(f, pow, prim, g, p);
        assert(z.contains(x));
        let i = choose|i: int| 0 <= i < z.len() && z[i] == x;
        lemma_dlog(rs, pow, prim, p, 0);
        assert(locs[i] == p as usize);
    }
    assert forall|i: int| 0 <= i < locs.len() && locs[i] < f.size() - 1
        implies #[trigger] f.peval(s, f.fpow(g, locs[i] as nat), s.len()) == 0 by {
        lemma_dlog_sound(rs, z[i], 0);
        let d = rs.dlog_from(z[i], 0, 1);
        assert(d <= f.size() - 1);
        assert(locs[i] as nat == d);
        assert(f.peval(s, z[i], s.len()) == 0);
    }
}

/// Law: the syndromes of a received word `r = c + e`, for a codeword `c`
/// (zero at `g, ..., g^(n-k)`), are the values of the error pattern `e`
/// at `g, ..., g^(n-k)`: they depend on the errors alone.
pub proof fn law_syndromes_of_error(rs: &ReedSolomon, pow: usize, prim: usize, c: Seq<usize>, e: Seq<usize>, r: Seq<usize>)
    requires
        is_field(&rs.field, pow, prim),
        rs.field.generator < rs.field.size(),
        rs.k <= rs.n,
        elements(c, rs.field.size()),
        elements(e, rs.field.size()),
        elements(r, rs.field.size()),
        r.len() > 0,
        forall|i: nat| 1 <= i <= rs.n - rs.k ==> #[trigger] rs.field.peval(c, rs.field.fpow(rs.field.generator, i), c.len()) == 0,
        forall|k: int| k >= 0 ==> #[trigger] coef(r, k) == coef(c, k) ^ coef(e, k),
    ensures
        rs.synd_out(r) == Outcome::Val(Seq::new((rs.n - rs.k) as nat,
            |j: int| rs.field.peval(e, rs.field.fpow(rs.field.generator, (j + 1) as nat), e.len()))),
{
    let f = &rs.field;
    let g = f.generator;
    let nk = (rs.n - rs.k) as nat;
    lemma_tables(f, pow, prim);
    lemma_synd_vals(rs, pow, prim, r, nk);
    let big = r.len() + c.len() + e.len();
    let got = Seq::new(nk, |j: int| f.peval(r, f.fpow(g, (j + 1) as nat), r.len()));
    let want = Seq::new(nk, |j: int| f.peval(e, f.fpow(g, (j + 1) as nat), e.len()));
    assert forall|j: int| 0 <= j < nk implies got[j] == want[j] by {
        let x = f.fpow(g, (j + 1) as nat);
        lemma_fpow_bound(f, pow, prim, g, (j + 1) as nat);
        lemma_peval_xor(f, pow, prim, r, c, e, x, big);
        crate::poly_laws::lemma_peval_trailing(f, pow, prim, r, x, r.len(), big);
        crate::poly_laws::lemma_peval_trailing(f, pow, prim, c, x, c.len(), big);
        crate::poly_laws::lemma_peval_trailing(f, pow, prim, e, x, e.len(), big);
        assert(f.peval(c, x, c.len()) == 0);
        lemma_peval_bound(f, pow, prim, e, x, e.len());
        lemma_xor(f.peval(e, x, e.len()), 0, 0, 0);
    }
    assert(got =~= want);
}

/// The coefficient of `X^k` in the error polynomial of the first `t` terms
/// `vals[i] * X^locs[i]`: the sum of the values found at position `k`.
pub open spec fn err_coef(locs: Seq<usize>, vals: Seq<usize>, t: nat, k: int) -> usize
    decreases t,
{
    if t == 0 {
        0
    } else {
        err_coef(locs, vals, (t - 1) as nat, k) ^ (if locs[t - 1] == k { vals[t - 1] } else { 0usize })
    }
}

/// The error polynomial of the first `t` terms is built and has the
/// coefficients `err_coef`.
pub proof fn lemma_err_poly(rs: &ReedSolomon, locs: Seq<usize>, vals: Seq<usize>, t: nat)
    requires
        rs.field.wf(),
        t <= locs.len(),
        t <= vals.len(),
        elements(vals, rs.field.size()),
        forall|i: int| 0 <= i < locs.len() ==> #[trigger] locs[i] < usize::MAX,
    ensures
        rs.err_poly(locs, vals, t) matches Outcome::Val(ep) && ep.len() > 0 && elements(ep, rs.field.size())
            && forall|k: int| k >= 0 ==> #[trigger] coef(ep, k) == err_coef(locs, vals, t, k),
    decreases t,
{
    let f = &rs.field;
    if t == 0 {
        let z = mono_seq(0, 0);
        assert forall|i: int| 0 <= i < z.len() implies #[trigger] z[i] < f.size() by {}
        assert forall|k: int| k >= 0 implies #[trigger] coef(z, k) == err_coef(locs, vals, 0, k) by {}
    } else {
        lemma_err_poly(rs, locs, vals, (t - 1) as nat);
        let ep = rs.err_poly(locs, vals, (t - 1) as nat)->Val_0;
        let m = mono_seq(vals[t - 1], locs[t - 1] as nat);
        assert forall|i: int| 0 <= i < m.len() implies #[trigger] m[i] < f.size() by {}
        crate::div_laws::lemma_sum_poly_coef_wf(f, ep, m);
        let nxt = f.sum_poly_out(ep, m)->Val_0;
        assert forall|k: int| k >= 0 implies #[trigger] coef(nxt, k) == err_coef(locs, vals, t, k) by {
            assert(coef(m, k) == if locs[t - 1] == k { vals[t - 1] } else { 0usize });
        }
    }
}

/// Law: the decoder's last step adds the error polynomial it assembles from
/// the positions and values it found; when those describe the error pattern
/// `e` of `r = c + e`, the result is `c`.
pub proof fn law_decode_assembly(rs: &ReedSolomon, pow: usize, prim: usize, c: Seq<usize>, e: Seq<usize>,
    r: Seq<usize>, syn: Seq<usize>, elp: Seq<usize>, locs: Seq<usize>, vals: Seq<usize>)
    requires
        is_field(&rs.field, pow, prim),
        elements(r, rs.field.size()),
        r.len() > 0,
        rs.synd_out(r) == Outcome::Val(syn),
        rs.berlekamp_out(syn) == Outcome::Val(elp),
        deg_of(elp) > 0,
        rs.error_locs_out(elp.reverse()) == Outcome::Val(locs),
        rs.error_vals_out(locs, syn) == Outcome::Val(vals),
        locs.len() <= vals.len(),
        elements(vals, rs.field.size()),
        forall|i: int| 0 <= i < locs.len() ==> #[trigger] locs[i] < usize::MAX,
        forall|k: int| k >= 0 ==> #[trigger] coef(r, k) == coef(c, k) ^ coef(e, k),
        forall|k: int| k >= 0 ==> #[trigger] err_coef(locs, vals, locs.len(), k) == coef(e, k),
    ensures
        rs.decode_out(r) matches Outcome::Val(d) && forall|k: int| k >= 0 ==> #[trigger] coef(d, k) == coef(c, k),
{
    let f = &rs.field;
    lemma_tables(f, pow, prim);
    lemma_err_poly(rs, locs, vals, locs.len());
    let ep = rs.err_poly(locs, vals, locs.len())->Val_0;
    crate::div_laws::lemma_sum_poly_coef_wf(f, r, ep);
    let d = f.sum_poly_out(r, ep)->Val_0;
    assert(rs.decode_out(r) == Outcome::Val(d));
    assert forall|k: int| k >= 0 implies #[trigger] coef(d, k) == coef(c, k) by {
        assert(coef(ep, k) == coef(e, k));
        lemma_xor(coef(c, k), coef(e, k), 0, 0);
        lemma_xor(coef(c, k), 0, 0, 0);
    }
}

/// The first `t` equations for the error values at the points `xs`: row `i`
/// holds `xs[j]^(i+1)` for each point and the syndrome `synd[i]`, so that
/// values `Y` solve it when `sum_j Y_j xs[j]^(i+1) = synd[i]`.
pub open spec fn power_system(f: &GaloisField, xs: Seq<usize>, synd: Seq<usize>, t: nat) -> Seq<Seq<usize>> {
    Seq::new(t, |i: int| Seq::new(xs.len() + 1,
        |j: int| if j < xs.len() { f.fpow(xs[j], (i + 1) as nat) } else { synd[i] }))
}

/// `mult_row` multiplies the entries below the last from `j` on.
proof fn lemma_mult_row(rs: &ReedSolomon, prev: Seq<usize>, r0: Seq<usize>, w: Seq<usize>, j: nat)
    requires
        prev.len() >= 1,
        j <= prev.len() - 1,
        r0.len() >= prev.len() - 1,
        w.len() == prev.len() - 1,
        forall|k: int| j <= k < prev.len() - 1 ==> #[trigger] rs.field.mult_out(prev[k], r0[k]) == Outcome::Val(w[k]),
    ensures
        rs.mult_row(prev, r0, j) == Outcome::Val(Seq::new(prev.len(),
            |k: int| if j <= k < prev.len() - 1 { w[k] } else { prev[k] })),
    decreases prev.len() - j,
{
    if j + 1 >= prev.len() {
        assert(prev =~= Seq::new(prev.len(), |k: int| if j <= k < prev.len() - 1 { w[k] } else { prev[k] }));
    } else {
        let nxt = prev.update(j as int, w[j as int]);
        assert forall|k: int| j + 1 <= k < nxt.len() - 1 implies #[trigger] rs.field.mult_out(nxt[k], r0[k]) == Outcome::Val(w[k]) by {
            assert(nxt[k] == prev[k]);
        }
        lemma_mult_row(rs, nxt, r0, w, j + 1);
        assert(Seq::new(nxt.len(), |k: int| if j + 1 <= k < nxt.len() - 1 { w[k] } else { nxt[k] })
            =~= Seq::new(prev.len(), |k: int| if j <= k < prev.len() - 1 { w[k] } else { prev[k] }));
    }
}

/// Law: the system that `error_vals` hands to `rref` is the power-sum
/// system at the points `g^e` for the error positions `e`: its row `i`
/// reads `sum_j Y_j (g^e_j)^(i+1) = S_i`.
pub proof fn law_error_vals_system(rs: &ReedSolomon, pow: usize, prim: usize, elc: Seq<usize>, synd: Seq<usize>, t: nat)
    requires
        is_field(&rs.field, pow, prim),
        rs.field.generator < rs.field.size(),
        1 <= t,
        t <= synd.len(),
    ensures
        rs.ev_rows(elc, synd, t) == Outcome::Val(power_system(&rs.field,
            Seq::new(elc.len(), |j: int| rs.field.fpow(rs.field.generator, elc[j] as nat)), synd, t)),
    decreases t,
{
    let f = &rs.field;
    let g = f.generator;
    lemma_tables(f, pow, prim);
    let xs = Seq::new(elc.len(), |j: int| f.fpow(g, elc[j] as nat));
    assert forall|j: int| 0 <= j < elc.len() implies #[trigger] f.pow_out(g, elc[j] as nat) == Outcome::Val(xs[j])
        && xs[j] < f.size() by {
        law_pow(f, pow, prim, g, elc[j] as nat, 0);
    }
    let sys = power_system(f, xs, synd, t);
    if t == 1 {
        let r = Seq::new(elc.len(), |j: int| crate::rs::or_keep(f.pow_out(g, elc[j] as nat), 0usize));
        assert(rs.first_row_out(elc) == Outcome::Val(r));
        assert forall|j: int| 0 <= j < xs.len() implies #[trigger] f.fpow(xs[j], 1) == xs[j] by {
            law_mult_one(f, pow, prim, xs[j]);
            law_pow(f, pow, prim, xs[j], 1, 0);
            assert(f.pow_out(xs[j], 1) == f.mult_out(f.fpow(xs[j], 0), xs[j]));
            law_mult_commutes(f, 1, xs[j]);
        }
        let row = r.push(synd[0]);
        assert forall|j: int| 0 <= j < xs.len() + 1 implies sys[0][j] == row[j] by {
            if j < xs.len() {
                assert(r[j] == xs[j]);
            }
        }
        assert(sys[0] =~= row);
        assert(sys =~= seq![row]);
    } else {
        law_error_vals_system(rs, pow, prim, elc, synd, (t - 1) as nat);
        let m = power_system(f, xs, synd, (t - 1) as nat);
        let prev = m[t - 2];
        let r0 = m[0];
        let w = Seq::new(xs.len(), |j: int| f.fpow(xs[j], t));
        assert forall|k: int| 0 <= k < prev.len() - 1 implies #[trigger] f.mult_out(prev[k], r0[k]) == Outcome::Val(w[k]) by {
            law_pow(f, pow, prim, xs[k], 1, (t - 1) as nat);
            law_pow(f, pow, prim, xs[k], t, 0);
            law_pow(f, pow, prim, xs[k], 1, 0);
            law_mult_one(f, pow, prim, xs[k]);
            law_mult_commutes(f, 1, xs[k]);
            assert(f.fpow(xs[k], 1) == xs[k]);
            assert(((t - 1) as nat) + 1 == t);
        }
        lemma_mult_row(rs, prev, r0, w, 0);
        let r = Seq::new(prev.len(), |k: int| if 0 <= k < prev.len() - 1 { w[k] } else { prev[k] });
        assert(rs.ev_rows(elc, synd, t) == Outcome::Val(m.push(r.update(r.len() - 1, synd[t - 1]))));
        let last = r.update(r.len() - 1, synd[t - 1]);
        assert(prev.len() == xs.len() + 1);
        assert forall|i: int| 0 <= i < t - 1 implies #[trigger] sys[i] == m[i] by {
            assert(sys[i] =~= m[i]);
        }
        assert forall|j: int| 0 <= j < xs.len() + 1 implies sys[t - 1][j] == last[j] by {}
        assert(sys[t - 1] =~= last);
        assert(m.push(last) =~= sys);
    }
}

} // verus!
