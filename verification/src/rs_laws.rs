//! Laws of the Reed-Solomon code over a field built from a primitive
//! polynomial: the generator polynomial vanishes at `g, g^2, ..., g^(n-k)`,
//! an encoded message is a codeword (all its syndromes are zero), and
//! decoding a codeword gives it back unchanged.
use vstd::prelude::*;
use crate::outcome::Outcome;
use crate::poly::{deg_of, mono_seq, lemma_deg_of};
use crate::rs::ReedSolomon;
use crate::gfpoly::lemma_xor;
use crate::field_laws::{lemma_tables, law_mult_one, law_mult_commutes, law_mult_closed, law_mult_zero};
use crate::poly_laws::{coef, elements, is_field, lemma_fpow_bound, lemma_peval_bound, law_eval,
    law_mult_poly_eval};

verus! {

/// The generator polynomial after `t` factors is a polynomial over the
/// field that vanishes at `g, ..., g^t`, and the next root is `g^(t+1)`.
pub proof fn lemma_gen_state(rs: &ReedSolomon, pow: usize, prim: usize, t: nat)
    requires
        is_field(&rs.field, pow, prim),
        rs.field.generator < rs.field.size(),
    ensures
        rs.gen_state(t) matches Outcome::Val((res, c)) && res.len() > 0 && res.len() <= t + 1
            && elements(res, rs.field.size())
            && c == rs.field.fpow(rs.field.generator, t + 1)
            && (forall|i: nat| 1 <= i <= t ==> #[trigger] rs.field.peval(res, rs.field.fpow(rs.field.generator, i), res.len()) == 0),
    decreases t,
{
    let f = &rs.field;
    let g = f.generator;
    lemma_tables(f, pow, prim);
    law_mult_one(f, pow, prim, g);
    law_mult_commutes(f, g, 1);
    assert(f.fpow(g, 0) == 1);
    assert(f.table_mult(1, g) == g);
    assert(f.fpow(g, 1) == g);
    if t == 0 {
        let res = mono_seq(1, 0);
        assert forall|i: int| 0 <= i < res.len() implies #[trigger] res[i] < f.size() by {}
    } else {
        lemma_gen_state(rs, pow, prim, (t - 1) as nat);
        let (res, c) = rs.gen_state((t - 1) as nat)->Val_0;
        let lin = seq![c, 1usize];
        lemma_fpow_bound(f, pow, prim, g, t);
        assert(c < f.size());
        assert forall|i: int| 0 <= i < lin.len() implies #[trigger] lin[i] < f.size() by {}
        law_mult_poly_eval(f, pow, prim, res, lin, 0);
        let r = f.mult_poly_out(res, lin)->Val_0;
        lemma_deg_of(res);
        lemma_deg_of(lin);
        law_mult_closed(f, g, c);
        law_mult_commutes(f, g, c);
        assert(rs.gen_state(t) == Outcome::Val((r, f.table_mult(g, c))));
        assert(f.table_mult(g, c) == f.fpow(g, t + 1));
        assert forall|i: nat| 1 <= i <= t implies #[trigger] f.peval(r, f.fpow(g, i), r.len()) == 0 by {
            let x = f.fpow(g, i);
            lemma_fpow_bound(f, pow, prim, g, i);
            law_mult_poly_eval(f, pow, prim, res, lin, x);
            law_eval(f, pow, prim, r, x);
            // the linear factor evaluates to c + x
            law_mult_one(f, pow, prim, x);
            law_mult_commutes(f, x, 1);
            law_mult_one(f, pow, prim, c);
            assert(f.fpow(x, 0) == 1);
            assert(f.fpow(x, 1) == f.table_mult(1, x));
            assert(coef(lin, 0) == c);
            assert(coef(lin, 1) == 1);
            assert(f.peval(lin, x, 0) == 0);
            assert(f.peval(lin, x, 1) == 0usize ^ c);
            assert(f.peval(lin, x, 2) == (0usize ^ c) ^ f.table_mult(1, x));
            lemma_xor(c, 0, 0, 0);
            let pl = f.peval(lin, x, 2);
            assert(pl == c ^ x);
            let pr = f.peval(res, x, res.len());
            lemma_peval_bound(f, pow, prim, res, x, res.len());
            if i < t {
                assert(pr == 0);
                law_mult_commutes(f, 0, pl);
                assert(f.table_mult(0, pl) == 0);
            } else {
                assert(x == c);
                lemma_xor(c, 0, 0, 0);
                assert(f.table_mult(pr, 0) == 0);
            }
        }
    }
}

/// The syndromes of a word that vanishes at `g, ..., g^t` are all zero.
pub proof fn lemma_synd_zero(rs: &ReedSolomon, pow: usize, prim: usize, c: Seq<usize>, t: nat)
    requires
        is_field(&rs.field, pow, prim),
        rs.field.generator < rs.field.size(),
        elements(c, rs.field.size()),
        c.len() > 0,
        forall|i: nat| 1 <= i <= t ==> #[trigger] rs.field.peval(c, rs.field.fpow(rs.field.generator, i), c.len()) == 0,
    ensures
        rs.synd_state(c, t) == Outcome::Val((Seq::new(t, |i: int| 0usize), rs.field.fpow(rs.field.generator, t + 1))),
    decreases t,
{
    let f = &rs.field;
    let g = f.generator;
    lemma_tables(f, pow, prim);
    law_mult_one(f, pow, prim, g);
    law_mult_commutes(f, g, 1);
    assert(f.fpow(g, 0) == 1);
    assert(f.fpow(g, 1) == g);
    if t == 0 {
        assert(Seq::new(0, |i: int| 0usize) =~= Seq::<usize>::empty());
    } else {
        lemma_synd_zero(rs, pow, prim, c, (t - 1) as nat);
        let x = f.fpow(g, t);
        lemma_fpow_bound(f, pow, prim, g, t);
        law_eval(f, pow, prim, c, x);
        assert(f.peval(c, x, c.len()) == 0);
        law_mult_closed(f, x, g);
        assert(Seq::new((t - 1) as nat, |i: int| 0usize).push(0usize) =~= Seq::new(t, |i: int| 0usize));
    }
}

/// With all syndromes zero, every discrepancy of the Berlekamp iteration is
/// zero and every locator is the constant 1.
pub proof fn lemma_bm_zero(rs: &ReedSolomon, syn: Seq<usize>, nk: nat, t: nat)
    requires
        syn == Seq::new(nk, |i: int| 0usize),
        nk >= 1,
        t <= nk,
    ensures
        rs.bm_state(syn, nk, t) == Outcome::Val((
            Seq::new(if t < nk { t + 1 } else { t }, |i: int| 0usize),
            Seq::new(t + 1, |i: int| mono_seq(1, 0)),
            Seq::new(t + 1, |i: int| 0usize),
        )),
    decreases t,
{
    if t == 0 {
        assert(seq![syn[0]] =~= Seq::new(1, |i: int| 0usize));
        assert(seq![mono_seq(1, 0)] =~= Seq::new(1, |i: int| mono_seq(1, 0)));
        assert(seq![0usize] =~= Seq::new(1, |i: int| 0usize));
    } else {
        lemma_bm_zero(rs, syn, nk, (t - 1) as nat);
        let i = (t - 1) as nat;
        let d = Seq::new(t, |k: int| 0usize);
        let sigma = Seq::new(t, |k: int| mono_seq(1, 0));
        let h = Seq::new(t, |k: int| 0usize);
        assert(d[i as int] == 0);
        assert(rs.bm_update(d, sigma, h, i) == Outcome::Val((sigma.push(sigma[i as int]), h.push(h[i as int]))));
        let sigma2 = sigma.push(sigma[i as int]);
        assert(sigma2 =~= Seq::new(t + 1, |k: int| mono_seq(1, 0)));
        assert(h.push(h[i as int]) =~= Seq::new(t + 1, |k: int| 0usize));
        if i + 1 != nk {
            assert(sigma2[(i + 1) as int] == mono_seq(1, 0));
            assert(rs.disc_from(syn, mono_seq(1, 0), i, 1, syn[(i + 1) as int]) == Outcome::Val(0usize));
            assert(d.push(0usize) =~= Seq::new(t + 1, |k: int| 0usize));
        }
    }
}

/// Law: an encoded message is a codeword: it vanishes at `g, g^2, ...,
/// g^(n-k)`, the roots of the generator polynomial.
pub proof fn law_encode_codeword(rs: &ReedSolomon, pow: usize, prim: usize, msg: Seq<usize>, i: nat)
    requires
        is_field(&rs.field, pow, prim),
        rs.field.generator < rs.field.size(),
        elements(msg, rs.field.size()),
        1 <= i <= rs.n - rs.k,
    ensures
        rs.encode_out(msg) matches Outcome::Val(c) ==> elements(c, rs.field.size()) && c.len() > 0
            && rs.field.peval(c, rs.field.fpow(rs.field.generator, i), c.len()) == 0,
{
    let f = &rs.field;
    let g = f.generator;
    lemma_tables(f, pow, prim);
    if rs.encode_out(msg) is Val {
        let nk = (rs.n - rs.k) as nat;
        let m = Seq::new(nk, |j: int| 0usize) + msg;
        lemma_gen_state(rs, pow, prim, nk);
        let gp = rs.gen_state(nk)->Val_0.0;
        assert(rs.gen_poly_out() == Outcome::Val(gp));
        assert forall|j: int| 0 <= j < m.len() implies #[trigger] m[j] < f.size() by {}
        let x = f.fpow(g, i);
        lemma_fpow_bound(f, pow, prim, g, i);
        lemma_deg_of(gp);
        crate::poly_laws::law_div_poly(f, pow, prim, m, gp, x);
        let (q, ck) = f.div_poly_out(m, gp)->Val_0;
        crate::poly_laws::law_sum_poly_eval(f, pow, prim, m, ck, x);
        let c = f.sum_poly_out(m, ck)->Val_0;
        law_eval(f, pow, prim, c, x);
        let pq = f.peval(q, x, q.len());
        lemma_peval_bound(f, pow, prim, q, x, q.len());
        assert(f.peval(gp, x, gp.len()) == 0);
        law_mult_zero(f, pq);
        let b = f.peval(ck, x, ck.len());
        lemma_xor(b, 0, 0, 0);
    }
}

/// Law: decoding a word whose syndromes are all zero (a codeword) gives it
/// back unchanged.
pub proof fn law_decode_codeword(rs: &ReedSolomon, pow: usize, prim: usize, c: Seq<usize>)
    requires
        is_field(&rs.field, pow, prim),
        rs.field.generator < rs.field.size(),
        rs.k < rs.n,
        elements(c, rs.field.size()),
        c.len() > 0,
        forall|i: nat| 1 <= i <= rs.n - rs.k ==> #[trigger] rs.field.peval(c, rs.field.fpow(rs.field.generator, i), c.len()) == 0,
    ensures
        rs.synd_out(c) == Outcome::Val(Seq::new((rs.n - rs.k) as nat, |i: int| 0usize)),
        rs.decode_out(c) == Outcome::Val(c),
{
    let nk = (rs.n - rs.k) as nat;
    lemma_synd_zero(rs, pow, prim, c, nk);
    let syn = Seq::new(nk, |i: int| 0usize);
    lemma_bm_zero(rs, syn, nk, nk);
    let sigma = Seq::new(nk + 1, |i: int| mono_seq(1, 0));
    assert(rs.berlekamp_out(syn) == Outcome::Val(sigma.last()));
    assert(sigma.last() == mono_seq(1, 0));
    lemma_deg_of(mono_seq(1, 0));
}

/// Law: encoding a message and decoding the result gives the encoding back.
pub proof fn law_decode_encoded(rs: &ReedSolomon, pow: usize, prim: usize, msg: Seq<usize>)
    requires
        is_field(&rs.field, pow, prim),
        rs.field.generator < rs.field.size(),
        rs.k < rs.n,
        elements(msg, rs.field.size()),
    ensures
        rs.encode_out(msg) matches Outcome::Val(c) ==> rs.decode_out(c) == Outcome::Val(c),
{
    if rs.encode_out(msg) is Val {
        let c = rs.encode_out(msg)->Val_0;
        assert forall|i: nat| 1 <= i <= rs.n - rs.k implies #[trigger] rs.field.peval(c, rs.field.fpow(rs.field.generator, i), c.len()) == 0 by {
            law_encode_codeword(rs, pow, prim, msg, i);
        }
        law_encode_codeword(rs, pow, prim, msg, 1);
        law_decode_codeword(rs, pow, prim, c);
    }
}

/// Law: encoding is systematic: from position `n - k` on, the encoded word
/// holds the message unchanged (the check symbols stand below it).
pub proof fn law_encode_systematic(rs: &ReedSolomon, pow: usize, prim: usize, msg: Seq<usize>)
    requires
        is_field(&rs.field, pow, prim),
        rs.field.generator < rs.field.size(),
        elements(msg, rs.field.size()),
    ensures
        rs.encode_out(msg) matches Outcome::Val(c) ==> forall|k: int| k >= rs.n - rs.k
            ==> #[trigger] coef(c, k) == coef(msg, k - (rs.n - rs.k)),
{
    let f = &rs.field;
    lemma_tables(f, pow, prim);
    if rs.encode_out(msg) is Val {
        let nk = (rs.n - rs.k) as nat;
        let m = Seq::new(nk, |j: int| 0usize) + msg;
        lemma_gen_state(rs, pow, prim, nk);
        let gp = rs.gen_state(nk)->Val_0.0;
        assert(rs.gen_poly_out() == Outcome::Val(gp));
        assert forall|j: int| 0 <= j < m.len() implies #[trigger] m[j] < f.size() by {}
        lemma_deg_of(gp);
        lemma_deg_of(m);
        assert(m.len() > 0);
        crate::poly_laws::law_div_poly(f, pow, prim, m, gp, 0);
        let (q, ck) = f.div_poly_out(m, gp)->Val_0;
        crate::div_laws::lemma_sum_poly_coef(f, pow, prim, m, ck);
        let c = f.sum_poly_out(m, ck)->Val_0;
        lemma_deg_of(ck);
        assert forall|k: int| k >= rs.n - rs.k implies #[trigger] coef(c, k) == coef(msg, k - (rs.n - rs.k)) by {
            if deg_of(gp) == 0 {
                assert(coef(ck, k) == 0);
            } else {
                assert(deg_of(ck) < deg_of(gp));
                crate::poly_laws::lemma_coef_beyond_deg(ck, k);
            }
            lemma_xor(coef(m, k), 0, 0, 0);
            assert(coef(m, k) == coef(msg, k - nk));
        }
    }
}

/// The generator polynomial after `t` factors is monic of degree `t`.
pub proof fn lemma_gen_monic(rs: &ReedSolomon, pow: usize, prim: usize, t: nat)
    requires
        is_field(&rs.field, pow, prim),
        rs.field.generator < rs.field.size(),
    ensures
        rs.gen_state(t) matches Outcome::Val((res, c)) && res.len() == t + 1 && deg_of(res) == t
            && res[t as int] == 1,
    decreases t,
{
    let f = &rs.field;
    lemma_tables(f, pow, prim);
    lemma_gen_state(rs, pow, prim, t);
    if t == 0 {
        let res = mono_seq(1, 0);
        lemma_deg_of(res);
    } else {
        lemma_gen_monic(rs, pow, prim, (t - 1) as nat);
        lemma_gen_state(rs, pow, prim, (t - 1) as nat);
        let (res, c) = rs.gen_state((t - 1) as nat)->Val_0;
        let lin = seq![c, 1usize];
        let g = f.generator;
        lemma_fpow_bound(f, pow, prim, g, t);
        assert forall|i: int| 0 <= i < lin.len() implies #[trigger] lin[i] < f.size() by {}
        law_mult_poly_eval(f, pow, prim, res, lin, 0);
        lemma_deg_of(lin);
        assert(deg_of(lin) == 1);
        let p = f.conv(res, lin);
        assert(f.mult_poly_out(res, lin) == Outcome::Val(p));
        assert(rs.gen_state(t)->Val_0.0 == p);
        let da = (t - 1) as int;
        assert forall|i: int| i > da implies coef(res, i) == 0 by {
            crate::poly_laws::lemma_coef_beyond_deg(res, i);
        }
        assert forall|j: int| j > 1 implies coef(lin, j) == 0 by {
            crate::poly_laws::lemma_coef_beyond_deg(lin, j);
        }
        crate::div_laws::lemma_conv_coef(f, res, lin, t as int);
        crate::div_laws::lemma_pc_top(f, res, lin, da, 1, t as int, res.len());
        law_mult_one(f, pow, prim, 1);
        assert(p.len() == t + 1);
        assert(p[t as int] == 1);
        lemma_deg_of(p);
    }
}

/// Law: encoding a message of field elements succeeds exactly when the
/// message has a nonzero symbol; the all-zero message is shorter than the
/// generator polynomial and its division panics.
pub proof fn law_encode_total(rs: &ReedSolomon, pow: usize, prim: usize, msg: Seq<usize>)
    requires
        is_field(&rs.field, pow, prim),
        rs.field.generator < rs.field.size(),
        rs.k < rs.n,
        elements(msg, rs.field.size()),
    ensures
        (exists|i: int| 0 <= i < msg.len() && msg[i] != 0) ==> rs.encode_out(msg) is Val,
        (forall|i: int| 0 <= i < msg.len() ==> msg[i] == 0) ==> rs.encode_out(msg) == Outcome::<Seq<usize>>::Panics,
{
    let f = &rs.field;
    lemma_tables(f, pow, prim);
    let nk = (rs.n - rs.k) as nat;
    lemma_gen_monic(rs, pow, prim, nk);
    lemma_gen_state(rs, pow, prim, nk);
    let gp = rs.gen_state(nk)->Val_0.0;
    assert(rs.gen_poly_out() == Outcome::Val(gp));
    let m = Seq::new(nk, |i: int| 0usize) + msg;
    lemma_deg_of(m);
    if exists|i: int| 0 <= i < msg.len() && msg[i] != 0 {
        let i = choose|i: int| 0 <= i < msg.len() && msg[i] != 0;
        assert(m[nk + i] == msg[i]);
        assert(deg_of(m) >= nk + i);
        assert forall|j: int| 0 <= j < m.len() implies #[trigger] m[j] < f.size() by {
            if j >= nk {
                assert(m[j] == msg[j - nk]);
            }
        }
        crate::poly_laws::law_div_poly(f, pow, prim, m, gp, 0);
        let (q, r) = f.div_poly_out(m, gp)->Val_0;
        crate::div_laws::lemma_sum_poly_coef_wf(f, m, r);
    } else {
        assert forall|j: int| 0 <= j < m.len() implies m[j] == 0 by {
            if j >= nk {
                assert(m[j] == msg[j - nk]);
            }
        }
        if deg_of(m) > 0 {
            assert(m[deg_of(m) as int] != 0);
        }
        assert(deg_of(m) < deg_of(gp));
    }
}

} // verus!
