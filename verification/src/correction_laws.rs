//! Correction of up to `(n - k) / 2` errors: the syndromes depend on the
//! error pattern alone, the Berlekamp locator finds exactly its positions,
//! the system for the values is solved by elimination, and the decoder adds
//! back the error pattern it found.
use vstd::prelude::*;
use crate::outcome::Outcome;
use crate::gf::GaloisField;
use crate::gfpoly::lemma_xor;
use crate::field_laws::lemma_tables;
use crate::poly_laws::{coef, elements, is_field};
use crate::rs::ReedSolomon;
use crate::lfsr_laws::{nonzeros, syndromes_of};

verus! {

/// `sum_{j < n} F(L[j])`.
pub open spec fn list_sum(F: spec_fn(int) -> usize, l: Seq<usize>, n: nat) -> usize
    decreases n,
{
    if n == 0 { 0 } else { list_sum(F, l, (n - 1) as nat) ^ F(l[n - 1] as int) }
}

/// `sum_{p < k} F(p)`.
pub open spec fn index_sum(F: spec_fn(int) -> usize, k: nat) -> usize
    decreases k,
{
    if k == 0 { 0 } else { index_sum(F, (k - 1) as nat) ^ F(k - 1) }
}

/// Removing entry `j0` from the list takes its term out of the sum.
proof fn lemma_list_sum_remove(F: spec_fn(int) -> usize, l: Seq<usize>, j0: int, n: nat)
    requires
        0 <= j0 < l.len(),
        n <= l.len(),
    ensures
        n <= j0 ==> list_sum(F, l.remove(j0), n) == list_sum(F, l, n),
        n > j0 ==> list_sum(F, l.remove(j0), (n - 1) as nat) ^ F(l[j0] as int) == list_sum(F, l, n),
    decreases n,
{
    if n > 0 {
        lemma_list_sum_remove(F, l, j0, (n - 1) as nat);
        let l2 = l.remove(j0);
        if n - 1 > j0 {
            assert(l2[n - 2] == l[n - 1]);
            lemma_list_sum_swap_tail(list_sum(F, l2, (n - 2) as nat), F(l[j0] as int), F(l[n - 1] as int));
        } else if n - 1 == j0 {
        } else {
            assert(l2[n - 1] == l[n - 1]);
        }
    }
}

/// `(a ^ c) ^ b == (a ^ b) ^ c`.
proof fn lemma_list_sum_swap_tail(a: usize, b: usize, c: usize)
    by (bit_vector)
    ensures
        (a ^ c) ^ b == (a ^ b) ^ c,
{
}

/// Summing over a list of distinct indices below `k` that holds every index
/// with a nonzero term is summing over all indices below `k`.
pub proof fn lemma_list_sum_support(F: spec_fn(int) -> usize, l: Seq<usize>, k: nat)
    requires
        forall|a: int, b: int| 0 <= a < b < l.len() ==> #[trigger] l[a] != #[trigger] l[b],
        forall|j: int| 0 <= j < l.len() ==> #[trigger] l[j] < k,
        forall|p: int| 0 <= p < k && F(p) != 0 ==> #[trigger] l.contains(p as usize),
        k <= usize::MAX,
    ensures
        list_sum(F, l, l.len()) == index_sum(F, k),
    decreases k,
{
    if k == 0 {
        if l.len() > 0 {
            assert(l[0] < 0);
        }
    } else {
        let t = (k - 1) as usize;
        if l.contains(t) {
            let j0 = choose|j: int| 0 <= j < l.len() && l[j] == t;
            let l2 = l.remove(j0);
            assert forall|a: int, b: int| 0 <= a < b < l2.len() implies #[trigger] l2[a] != #[trigger] l2[b] by {
                let a1 = if a < j0 { a } else { a + 1 };
                let b1 = if b < j0 { b } else { b + 1 };
                assert(l2[a] == l[a1] && l2[b] == l[b1]);
            }
            assert forall|j: int| 0 <= j < l2.len() implies #[trigger] l2[j] < k - 1 by {
                let j1 = if j < j0 { j } else { j + 1 };
                assert(l2[j] == l[j1]);
                assert(j1 != j0);
            }
            assert forall|p: int| 0 <= p < k - 1 && F(p) != 0 implies #[trigger] l2.contains(p as usize) by {
                assert(l.contains(p as usize));
                let j = choose|j: int| 0 <= j < l.len() && l[j] == p as usize;
                assert(j != j0);
                let j2 = if j < j0 { j } else { j - 1 };
                assert(l2[j2] == l[j]);
            }
            lemma_list_sum_support(F, l2, (k - 1) as nat);
            lemma_list_sum_remove(F, l, j0, l.len());
            assert(l[j0] as int == k - 1);
        } else {
            assert(F(k - 1) == 0);
            assert forall|j: int| 0 <= j < l.len() implies #[trigger] l[j] < k - 1 by {
                assert(l[j] != t);
            }
            lemma_list_sum_support(F, l, (k - 1) as nat);
            lemma_xor(index_sum(F, (k - 1) as nat), 0, 0, 0);
        }
    }
}

/// The terms `(g^p)^(i+1) * e[p]` of the syndrome `S_i`, by position `p`.
pub open spec fn synd_terms(f: &GaloisField, g: usize, e: Seq<usize>, i: nat) -> spec_fn(int) -> usize {
    |p: int| f.table_mult(f.fpow(f.fpow(g, p as nat), i + 1), coef(e, p))
}

/// The syndrome `S_i` summed by position.
proof fn lemma_synd_index_sum(f: &GaloisField, pow: usize, prim: usize, g: usize, e: Seq<usize>, i: nat, k: nat)
    requires
        is_field(f, pow, prim),
        g < f.size(),
        elements(e, f.size()),
    ensures
        index_sum(synd_terms(f, g, e, i), k) == f.peval(e, f.fpow(g, i + 1), k),
    decreases k,
{
    if k > 0 {
        let p = (k - 1) as nat;
        lemma_synd_index_sum(f, pow, prim, g, e, i, p);
        crate::decode_laws::lemma_fpow_mul(f, pow, prim, g, p, i + 1);
        crate::decode_laws::lemma_fpow_mul(f, pow, prim, g, i + 1, p);
        assert(p * (i + 1) == (i + 1) * p) by (nonlinear_arith);
        let x = f.fpow(f.fpow(g, p), i + 1);
        crate::poly_laws::lemma_fpow_bound(f, pow, prim, g, p);
        crate::poly_laws::lemma_fpow_bound(f, pow, prim, f.fpow(g, p), i + 1);
        lemma_tables(f, pow, prim);
        crate::field_laws::law_mult_closed(f, x, coef(e, p as int));
        crate::field_laws::law_mult_closed(f, coef(e, p as int), x);
        crate::field_laws::law_mult_commutes(f, x, coef(e, p as int));
    }
}

/// The dot product of a row of the power system at the points `g^locs[j]`
/// with the values `e[locs[j]]`, summed over the list.
proof fn lemma_power_dot(f: &GaloisField, g: usize, e: Seq<usize>, locs: Seq<usize>, synd: Seq<usize>, i: nat, n: nat)
    requires
        n <= locs.len(),
        i < synd.len(),
    ensures
        crate::rref_laws::dot(f, crate::decode_laws::power_system(f, Seq::new(locs.len(), |j: int| f.fpow(g, locs[j] as nat)),
            synd, synd.len())[i as int], Seq::new(locs.len(), |j: int| coef(e, locs[j] as int)), n)
            == list_sum(synd_terms(f, g, e, i), locs, n),
    decreases n,
{
    if n > 0 {
        lemma_power_dot(f, g, e, locs, synd, i, (n - 1) as nat);
    }
}

/// The error polynomial of distinct positions with the values of `e` at
/// them, coefficient by coefficient.
proof fn lemma_err_coef_values(e: Seq<usize>, locs: Seq<usize>, t: nat, k: int)
    requires
        t <= locs.len(),
        forall|a: int, b: int| 0 <= a < b < locs.len() ==> #[trigger] locs[a] != #[trigger] locs[b],
    ensures
        crate::decode_laws::err_coef(locs, Seq::new(locs.len(), |j: int| coef(e, locs[j] as int)), t, k)
            == if exists|j: int| 0 <= j < t && locs[j] == k { coef(e, k) } else { 0usize },
    decreases t,
{
    if t > 0 {
        lemma_err_coef_values(e, locs, (t - 1) as nat, k);
        let vals = Seq::new(locs.len(), |j: int| coef(e, locs[j] as int));
        let prev_has = exists|j: int| 0 <= j < t - 1 && locs[j] == k;
        if locs[t - 1] == k {
            if prev_has {
                let j = choose|j: int| 0 <= j < t - 1 && locs[j] == k;
                assert(locs[j] != locs[t - 1]);
            }
            assert(vals[t - 1] == coef(e, k));
            assert(0 <= t - 1 < t && locs[t - 1] == k);
            lemma_xor(coef(e, k), 0, 0, 0);
        } else {
            lemma_xor(if prev_has { coef(e, k) } else { 0usize }, 0, 0, 0);
            if exists|j: int| 0 <= j < t && locs[j] == k {
                let j = choose|j: int| 0 <= j < t && locs[j] == k;
                assert(j < t - 1);
            }
        }
    }
}


/// No nonzero entry among the first `k` exactly when `nonzeros` is zero.
proof fn lemma_nonzeros_zero(e: Seq<usize>, k: nat)
    requires
        k <= e.len(),
    ensures
        nonzeros(e, k) == 0 <==> forall|p: int| 0 <= p < k ==> #[trigger] e[p] == 0,
    decreases k,
{
    if k > 0 {
        lemma_nonzeros_zero(e, (k - 1) as nat);
    }
}

/// The values `e[locs[j]]` solve the system that `error_vals` builds at the
/// error positions, so elimination returns exactly them.
proof fn lemma_values_found(rs: &ReedSolomon, pow: usize, prim: usize, e: Seq<usize>, locs: Seq<usize>, syn: Seq<usize>)
    requires
        is_field(&rs.field, pow, prim),
        crate::decode_laws::primitive_element(&rs.field, rs.field.generator),
        elements(e, rs.field.size()),
        e.len() <= rs.field.size() - 1,
        syn == syndromes_of(&rs.field, rs.field.generator, e, syn.len()),
        1 <= locs.len() <= syn.len(),
        forall|p: nat| p < e.len() && e[p as int] != 0 ==> #[trigger] locs.contains(p as usize),
        forall|i: int| 0 <= i < locs.len() ==> locs[i] < e.len() && e[locs[i] as int] != 0,
        forall|i: int, j: int| 0 <= i < j < locs.len() ==> #[trigger] locs[i] != #[trigger] locs[j],
    ensures
        rs.error_vals_out(locs, syn) == Outcome::Val(Seq::new(locs.len(), |j: int| coef(e, locs[j] as int))),
{
    let f = &rs.field;
    let g = f.generator;
    let v = locs.len();
    lemma_tables(f, pow, prim);
    let xs = Seq::new(v, |j: int| f.fpow(g, locs[j] as nat));
    let y = Seq::new(v, |j: int| coef(e, locs[j] as int));
    crate::decode_laws::law_error_vals_system(rs, pow, prim, locs, syn, v);
    let m = crate::decode_laws::power_system(f, xs, syn, v);
    let mbig = crate::decode_laws::power_system(f, xs, syn, syn.len());
    assert forall|j: int| 0 <= j < syn.len() implies #[trigger] syn[j] < f.size() by {
        crate::poly_laws::lemma_fpow_bound(f, pow, prim, g, (j + 1) as nat);
        crate::poly_laws::lemma_peval_bound(f, pow, prim, e, f.fpow(g, (j + 1) as nat), e.len());
    }
    assert forall|j: int| 0 <= j < v implies #[trigger] xs[j] < f.size() && xs[j] != 0 by {
        crate::decode_laws::lemma_fpow_nonzero(f, pow, prim, g, locs[j] as nat);
    }
    assert forall|a: int, b: int| 0 <= a < b < v implies #[trigger] xs[a] != #[trigger] xs[b] by {
        let la = locs[a] as nat;
        let lb = locs[b] as nat;
        if la < lb {
            assert(f.fpow(g, la) != f.fpow(g, lb));
        } else {
            assert(f.fpow(g, lb) != f.fpow(g, la));
        }
    }
    crate::rref_laws::law_power_system_kernel(f, pow, prim, xs, syn);
    assert forall|j: int| 0 <= j < v implies #[trigger] y[j] < f.size() by {}
    assert forall|i: int| 0 <= i < m.len() implies #[trigger] crate::rref_laws::dot(f, m[i], y, v) == m[i][v as int] by {
        assert(m[i] =~= mbig[i]);
        lemma_power_dot(f, g, e, locs, syn, i as nat, v);
        let tf = synd_terms(f, g, e, i as nat);
        assert forall|p: int| 0 <= p < e.len() && tf(p) != 0 implies #[trigger] locs.contains(p as usize) by {
            let x = f.fpow(f.fpow(g, p as nat), (i + 1) as nat);
            crate::poly_laws::lemma_fpow_bound(f, pow, prim, g, p as nat);
            crate::poly_laws::lemma_fpow_bound(f, pow, prim, f.fpow(g, p as nat), (i + 1) as nat);
            if e[p] == 0 {
                crate::lfsr_laws::lemma_tm(f, pow, prim, x, 0, 0);
            }
            assert(e[(p as nat) as int] != 0);
        }
        lemma_list_sum_support(tf, locs, e.len());
        lemma_synd_index_sum(f, pow, prim, g, e, i as nat, e.len());
    }
    crate::rref_laws::law_rref_solves(f, pow, prim, m, y);
    let rr = f.rref_out(m)->Val_0;
    assert forall|i: int| 0 <= i < rr.len() implies #[trigger] rr[i].len() != 0 by {}
    assert(Seq::new(rr.len(), |i: int| rr[i].last()) =~= y);
}


/// Law (what the decoder corrects): let `c` be a codeword (zero at
/// `g, ..., g^(n-k)`) and `e` an error pattern with at most `(n - k) / 2`
/// nonzero positions, all below `2^m - 1`: decoding `r = c + e` runs to its
/// end and gives `c` back, coefficient by coefficient.
pub proof fn law_decode_corrects(rs: &ReedSolomon, pow: usize, prim: usize, c: Seq<usize>, e: Seq<usize>, r: Seq<usize>)
    requires
        is_field(&rs.field, pow, prim),
        crate::decode_laws::primitive_element(&rs.field, rs.field.generator),
        rs.k < rs.n,
        rs.n - rs.k < usize::MAX,
        elements(c, rs.field.size()),
        elements(e, rs.field.size()),
        elements(r, rs.field.size()),
        r.len() > 0,
        e.len() <= rs.field.size() - 1,
        2 * nonzeros(e, e.len()) <= rs.n - rs.k,
        forall|i: nat| 1 <= i <= rs.n - rs.k ==> #[trigger] rs.field.peval(c, rs.field.fpow(rs.field.generator, i), c.len()) == 0,
        forall|k: int| k >= 0 ==> #[trigger] coef(r, k) == coef(c, k) ^ coef(e, k),
    ensures
        rs.decode_out(r) matches Outcome::Val(d) && forall|k: int| k >= 0 ==> #[trigger] coef(d, k) == coef(c, k),
{
    let f = &rs.field;
    let g = f.generator;
    let nk = (rs.n - rs.k) as nat;
    let w = nonzeros(e, e.len());
    lemma_tables(f, pow, prim);
    let syn = syndromes_of(f, g, e, nk);
    crate::decode_laws::law_syndromes_of_error(rs, pow, prim, c, e, r);
    assert(rs.synd_out(r) == Outcome::Val(syn));
    assert forall|j: int| 0 <= j < syn.len() implies #[trigger] syn[j] < f.size() by {
        crate::poly_laws::lemma_fpow_bound(f, pow, prim, g, (j + 1) as nat);
        crate::poly_laws::lemma_peval_bound(f, pow, prim, e, f.fpow(g, (j + 1) as nat), e.len());
    }
    crate::lfsr_laws::lemma_bm_total(rs, pow, prim, syn, nk, nk);
    crate::lfsr_laws::law_error_positions_found(rs, pow, prim, e);
    let sig = rs.berlekamp_out(syn)->Val_0;
    lemma_nonzeros_zero(e, e.len());
    if w == 0 {
        assert(rs.decode_out(r) == Outcome::Val(r));
        assert forall|k: int| k >= 0 implies #[trigger] coef(r, k) == coef(c, k) by {
            assert(coef(e, k) == 0);
            lemma_xor(coef(c, k), 0, 0, 0);
        }
    } else {
        let locs = rs.error_locs_out(sig.reverse())->Val_0;
        let p0 = choose|p: int| 0 <= p < e.len() && e[p] != 0;
        assert(locs.contains((p0 as nat) as usize));
        let vals = Seq::new(locs.len(), |j: int| coef(e, locs[j] as int));
        lemma_values_found(rs, pow, prim, e, locs, syn);
        assert forall|i: int| 0 <= i < locs.len() implies #[trigger] locs[i] < usize::MAX by {}
        assert forall|j: int| 0 <= j < vals.len() implies #[trigger] vals[j] < f.size() by {}
        assert forall|k: int| k >= 0 implies #[trigger] crate::decode_laws::err_coef(locs, vals, locs.len(), k) == coef(e, k) by {
            lemma_err_coef_values(e, locs, locs.len(), k);
            if !(exists|j: int| 0 <= j < locs.len() && locs[j] == k) {
                if 0 <= k < e.len() && e[k] != 0 {
                    assert(locs.contains((k as nat) as usize));
                    let j = choose|j: int| 0 <= j < locs.len() && locs[j] == (k as nat) as usize;
                    assert(locs[j] == k);
                }
            }
        }
        crate::decode_laws::law_decode_assembly(rs, pow, prim, c, e, r, syn, sig, locs, vals);
    }
}


/// Law (the round trip through a noisy channel): encoding a message and
/// changing at most `(n - k) / 2` of the symbols, at positions below
/// `2^m - 1`, the decoder gives the encoding back, coefficient by
/// coefficient.
pub proof fn law_decode_encoded_with_errors(rs: &ReedSolomon, pow: usize, prim: usize, msg: Seq<usize>, e: Seq<usize>,
    r: Seq<usize>)
    requires
        is_field(&rs.field, pow, prim),
        crate::decode_laws::primitive_element(&rs.field, rs.field.generator),
        rs.k < rs.n,
        rs.n - rs.k < usize::MAX,
        elements(msg, rs.field.size()),
        elements(e, rs.field.size()),
        elements(r, rs.field.size()),
        r.len() > 0,
        e.len() <= rs.field.size() - 1,
        2 * nonzeros(e, e.len()) <= rs.n - rs.k,
        rs.encode_out(msg) is Val,
        forall|k: int| k >= 0 ==> #[trigger] coef(r, k) == coef(rs.encode_out(msg)->Val_0, k) ^ coef(e, k),
    ensures
        rs.decode_out(r) matches Outcome::Val(d)
            && forall|k: int| k >= 0 ==> #[trigger] coef(d, k) == coef(rs.encode_out(msg)->Val_0, k),
{
    let c = rs.encode_out(msg)->Val_0;
    assert forall|i: nat| 1 <= i <= rs.n - rs.k implies #[trigger] rs.field.peval(c, rs.field.fpow(rs.field.generator, i), c.len()) == 0 by {
        crate::rs_laws::law_encode_codeword(rs, pow, prim, msg, i);
    }
    crate::rs_laws::law_encode_codeword(rs, pow, prim, msg, 1);
    law_decode_corrects(rs, pow, prim, c, e, r);
}

} // verus!
