//! The field laws of `GaloisField` when it is built from a primitive
//! polynomial: the tables then turn `mult` into multiplication in GF(2^m).
use vstd::prelude::*;
use crate::outcome::Outcome;
use crate::gf::{GaloisField, xtime, exp_at, last_pos, log_entry, valid_params, lemma_exp_bound,
    lemma_xtime_bound, lemma_last_pos_bound};
use crate::gfpoly::{lemma_xor_bound, lemma_xor};

verus! {

/// The powers `x^0 .. x^(2^pow - 2)` are the distinct nonzero elements and
/// `x^(2^pow - 1) = 1`: the reduction polynomial is primitive.
pub open spec fn primitive(pow: usize, prim: usize) -> bool {
    let max = 1usize << pow;
    &&& valid_params(pow, prim)
    &&& exp_at((max - 1) as nat, prim, max) == 1
    &&& forall|i: nat, j: nat| i < j < max - 1 ==> #[trigger] exp_at(i, prim, max) != #[trigger] exp_at(j, prim, max)
    &&& forall|v: usize| 1 <= v < max ==> #[trigger] is_power(v, prim, max)
}

/// `v` is one of the powers `x^0 .. x^(max - 2)`.
pub open spec fn is_power(v: usize, prim: usize, max: usize) -> bool {
    exists|k: nat| k < max - 1 && #[trigger] exp_at(k, prim, max) == v
}

/// `v` multiplied `n` times by `x`.
pub open spec fn xtime_n(v: usize, n: nat, prim: usize, max: usize) -> usize
    decreases n,
{
    if n == 0 { v } else { xtime(xtime_n(v, (n - 1) as nat, prim, max), prim, max) }
}

/// Equal powers stay equal when both are multiplied by the same power.
pub proof fn lemma_exp_shift(a: nat, b: nat, t: nat, prim: usize, max: usize)
    requires
        exp_at(a, prim, max) == exp_at(b, prim, max),
    ensures
        exp_at(a + t, prim, max) == exp_at(b + t, prim, max),
    decreases t,
{
    if t > 0 {
        lemma_exp_shift(a, b, (t - 1) as nat, prim, max);
        assert(exp_at(a + t, prim, max) == xtime(exp_at((a + t - 1) as nat, prim, max), prim, max));
        assert(exp_at(b + t, prim, max) == xtime(exp_at((b + t - 1) as nat, prim, max), prim, max));
    }
}

/// The powers repeat with period `2^pow - 1`.
pub proof fn lemma_exp_mod(t: nat, pow: usize, prim: usize)
    requires
        primitive(pow, prim),
    ensures
        exp_at(t, prim, 1usize << pow) == exp_at(t % ((1usize << pow) - 1) as nat, prim, 1usize << pow),
    decreases t,
{
    let max = 1usize << pow;
    assert(2 <= max <= 0x4000_0000) by (bit_vector)
        requires 1 <= pow <= 30, max == 1usize << pow;
    let p = (max - 1) as nat;
    if t >= p {
        lemma_exp_shift(p, 0, (t - p) as nat, prim, max);
        assert(exp_at(0, prim, max) == 1);
        lemma_exp_mod((t - p) as nat, pow, prim);
        vstd::arithmetic::div_mod::lemma_mod_sub_multiples_vanish(t as int, p as int);
    } else {
        vstd::arithmetic::div_mod::lemma_small_mod(t, p);
    }
}

/// `x^(a + n)` is `x^a` multiplied `n` times by `x`.
pub proof fn lemma_exp_add(a: nat, n: nat, prim: usize, max: usize)
    ensures
        exp_at(a + n, prim, max) == xtime_n(exp_at(a, prim, max), n, prim, max),
    decreases n,
{
    if n > 0 {
        lemma_exp_add(a, (n - 1) as nat, prim, max);
        assert(exp_at(a + n, prim, max) == xtime(exp_at((a + n - 1) as nat, prim, max), prim, max));
    }
}

/// A value that occurs among the first `t` powers has a last occurrence.
pub proof fn lemma_last_pos_found(v: usize, t: nat, k: nat, prim: usize, max: usize)
    requires
        k < t,
        exp_at(k, prim, max) == v,
    ensures
        last_pos(v, t, prim, max) is Some,
    decreases t,
{
    if exp_at((t - 1) as nat, prim, max) != v {
        lemma_last_pos_found(v, (t - 1) as nat, k, prim, max);
    }
}

/// The logarithm of a nonzero element is a power that gives it back.
pub proof fn lemma_log_exp(v: usize, pow: usize, prim: usize)
    requires
        primitive(pow, prim),
        1 <= v < (1usize << pow),
    ensures
        exp_at(log_entry(v, prim, 1usize << pow) as nat, prim, 1usize << pow) == v,
        log_entry(v, prim, 1usize << pow) < (1usize << pow),
{
    let max = 1usize << pow;
    assert(is_power(v, prim, max));
    let k = choose|k: nat| k < max - 1 && #[trigger] exp_at(k, prim, max) == v;
    lemma_last_pos_found(v, max as nat, k, prim, max);
    lemma_last_pos_bound(v, max as nat, prim, max);
}

/// Multiplication by `x` distributes over XOR.
pub proof fn lemma_xtime_linear(b: usize, c: usize, pow: usize, prim: usize)
    requires
        valid_params(pow, prim),
        b < (1usize << pow),
        c < (1usize << pow),
    ensures
        xtime(b ^ c, prim, 1usize << pow) == xtime(b, prim, 1usize << pow) ^ xtime(c, prim, 1usize << pow),
{
    let max = 1usize << pow;
    assert(xtime(b ^ c, prim, max) == xtime(b, prim, max) ^ xtime(c, prim, max)) by (bit_vector)
        requires
            1 <= pow <= 30,
            max == 1usize << pow,
            max <= prim,
            prim < 2 * max,
            b < max,
            c < max,
    ;
}

/// Multiplying a field element by a power of `x` stays in the field.
pub proof fn lemma_xtime_n_bound(v: usize, n: nat, pow: usize, prim: usize)
    requires
        valid_params(pow, prim),
        v < (1usize << pow),
    ensures
        xtime_n(v, n, prim, 1usize << pow) < (1usize << pow),
    decreases n,
{
    if n > 0 {
        lemma_xtime_n_bound(v, (n - 1) as nat, pow, prim);
        lemma_xtime_bound(xtime_n(v, (n - 1) as nat, prim, 1usize << pow), prim, pow);
    }
}

/// Multiplication by `x^n` distributes over XOR.
pub proof fn lemma_xtime_n_linear(b: usize, c: usize, n: nat, pow: usize, prim: usize)
    requires
        valid_params(pow, prim),
        b < (1usize << pow),
        c < (1usize << pow),
    ensures
        xtime_n(b ^ c, n, prim, 1usize << pow)
            == xtime_n(b, n, prim, 1usize << pow) ^ xtime_n(c, n, prim, 1usize << pow),
    decreases n,
{
    let max = 1usize << pow;
    if n > 0 {
        lemma_xtime_n_linear(b, c, (n - 1) as nat, pow, prim);
        lemma_xtime_n_bound(b, (n - 1) as nat, pow, prim);
        lemma_xtime_n_bound(c, (n - 1) as nat, pow, prim);
        lemma_xtime_linear(xtime_n(b, (n - 1) as nat, prim, max), xtime_n(c, (n - 1) as nat, prim, max), pow, prim);
    }
}

/// Zero times any power of `x` is zero.
pub proof fn lemma_xtime_n_zero(n: nat, prim: usize, max: usize)
    ensures
        xtime_n(0, n, prim, max) == 0,
    decreases n,
{
    if n > 0 {
        lemma_xtime_n_zero((n - 1) as nat, prim, max);
        assert(xtime(0, prim, max) == 0) by (bit_vector);
    }
}

/// Powers of a primitive element are never zero.
pub proof fn lemma_exp_nonzero(t: nat, pow: usize, prim: usize)
    requires
        primitive(pow, prim),
    ensures
        exp_at(t, prim, 1usize << pow) != 0,
{
    let max = 1usize << pow;
    assert(2 <= max <= 0x4000_0000) by (bit_vector)
        requires 1 <= pow <= 30, max == 1usize << pow;
    let p = (max - 1) as nat;
    lemma_exp_mod(t, pow, prim);
    let r = t % p;
    if exp_at(r, prim, max) == 0 {
        lemma_exp_add(r, (p - r) as nat, prim, max);
        lemma_xtime_n_zero((p - r) as nat, prim, max);
    }
}

/// The facts about a field built from a primitive polynomial that the laws use.
pub proof fn lemma_tables(f: &GaloisField, pow: usize, prim: usize)
    requires
        f.built_from(pow, prim),
    ensures
        f.size() == 1usize << pow,
        2 <= f.size() <= 0x4000_0000,
        forall|k: int| 0 <= k < f.size() ==> #[trigger] f.gf_ilog@[k] == exp_at(k as nat, prim, 1usize << pow),
        forall|v: int| 0 <= v < f.size() ==> #[trigger] f.gf_log@[v] == log_entry(v as usize, prim, 1usize << pow),
        f.wf(),
{
    let max = 1usize << pow;
    assert(2 <= max <= 0x4000_0000 && max & ((max - 1) as usize) == 0) by (bit_vector)
        requires 1 <= pow <= 30, max == 1usize << pow;
    assert forall|i: int| 0 <= i < f.size() implies #[trigger] f.gf_ilog@[i] < f.size() by {
        lemma_exp_bound(i as nat, prim, pow);
    }
    assert forall|i: int| 0 <= i < f.size() implies #[trigger] f.gf_log@[i] < f.size() by {
        lemma_last_pos_bound(i as usize, max as nat, prim, max);
    }
}

/// For a nonzero `x`, the table product with `y` is `y` multiplied by `x`'s
/// power of the generator.
pub proof fn lemma_table_mult_xtime(f: &GaloisField, pow: usize, prim: usize, x: usize, y: usize)
    requires
        f.built_from(pow, prim),
        primitive(pow, prim),
        1 <= x < f.size(),
        y < f.size(),
    ensures
        f.table_mult(x, y) == xtime_n(y, f.gf_log@[x as int] as nat, prim, 1usize << pow),
{
    let max = 1usize << pow;
    lemma_tables(f, pow, prim);
    let lx = f.gf_log@[x as int] as nat;
    if y == 0 {
        lemma_xtime_n_zero(lx, prim, max);
    } else {
        let ly = f.gf_log@[y as int] as nat;
        lemma_log_exp(x, pow, prim);
        lemma_log_exp(y, pow, prim);
        let p = (max - 1) as nat;
        assert(((lx + ly) % p) < max);
        lemma_exp_mod(lx + ly, pow, prim);
        lemma_exp_add(ly, lx, prim, max);
        assert(ly + lx == lx + ly);
    }
}

/// The table product of two nonzero elements is the power at the sum of
/// their logarithms.
pub proof fn lemma_table_mult_exp(f: &GaloisField, pow: usize, prim: usize, x: usize, y: usize)
    requires
        f.built_from(pow, prim),
        primitive(pow, prim),
        1 <= x < f.size(),
        1 <= y < f.size(),
    ensures
        f.table_mult(x, y) == exp_at((f.gf_log@[x as int] + f.gf_log@[y as int]) as nat, prim, 1usize << pow),
        f.table_mult(x, y) != 0,
{
    let max = 1usize << pow;
    lemma_tables(f, pow, prim);
    let lx = f.gf_log@[x as int] as nat;
    let ly = f.gf_log@[y as int] as nat;
    lemma_log_exp(x, pow, prim);
    lemma_log_exp(y, pow, prim);
    let p = (max - 1) as nat;
    assert(((lx + ly) % p) < max);
    lemma_exp_mod(lx + ly, pow, prim);
    lemma_exp_nonzero(lx + ly, pow, prim);
}

/// Law: multiplication commutes, on every input.
pub proof fn law_mult_commutes(f: &GaloisField, x: usize, y: usize)
    ensures
        f.mult_out(x, y) == f.mult_out(y, x),
{
    assert(f.gf_log@[x as int] + f.gf_log@[y as int] == f.gf_log@[y as int] + f.gf_log@[x as int]);
}

/// Law: multiplying by zero gives zero, for arguments up to the table size.
pub proof fn law_mult_zero(f: &GaloisField, x: usize)
    requires
        x <= f.size(),
    ensures
        f.mult_out(x, 0) == Outcome::Val(0usize),
{
}

/// Law: the field is closed under multiplication.
pub proof fn law_mult_closed(f: &GaloisField, x: usize, y: usize)
    requires
        f.wf(),
        x < f.size(),
        y < f.size(),
    ensures
        f.mult_out(x, y) == Outcome::Val(f.table_mult(x, y)),
        f.table_mult(x, y) < f.size(),
{
}

/// Law: arguments above the table size are rejected.
pub proof fn law_mult_rejects(f: &GaloisField, x: usize, y: usize)
    requires
        x > f.size() || y > f.size(),
    ensures
        f.mult_out(x, y) == Outcome::<usize>::Rejected("args out of bounds"),
        f.sum_out(x, y) == Outcome::<usize>::Rejected("args out of bounds"),
        f.div_out(x, y) == Outcome::<usize>::Rejected("args out of bounds"),
{
}

/// Law: 1 is the multiplicative identity.
pub proof fn law_mult_one(f: &GaloisField, pow: usize, prim: usize, x: usize)
    requires
        f.built_from(pow, prim),
        primitive(pow, prim),
        x < f.size(),
    ensures
        f.mult_out(x, 1) == Outcome::Val(x),
{
    let max = 1usize << pow;
    lemma_tables(f, pow, prim);
    if x != 0 {
        lemma_table_mult_xtime(f, pow, prim, x, 1);
        lemma_log_exp(x, pow, prim);
        lemma_exp_add(0, f.gf_log@[x as int] as nat, prim, max);
    }
}

/// Law: addition is XOR for arguments up to the table size.
pub proof fn law_sum_xor(f: &GaloisField, x: usize, y: usize)
    requires
        x <= f.size(),
        y <= f.size(),
    ensures
        f.sum_out(x, y) == Outcome::Val(x ^ y),
{
}

/// Law: every element is its own additive inverse, 0 is the identity, and
/// the field is closed under addition.
pub proof fn law_sum_inverse(f: &GaloisField, x: usize, y: usize)
    requires
        f.wf(),
        x < f.size(),
        y < f.size(),
    ensures
        x ^ y < f.size(),
        f.sum_out(x ^ y, y) == Outcome::Val(x),
        f.sum_out(x, 0) == Outcome::Val(x),
{
    lemma_xor_bound(x, y, f.size() as usize);
    lemma_xor(x, y, 0, 0);
    lemma_xor(x, 0, 0, 0);
}

/// Law: multiplication distributes over addition.
pub proof fn law_mult_distributes(f: &GaloisField, pow: usize, prim: usize, a: usize, b: usize, c: usize)
    requires
        f.built_from(pow, prim),
        primitive(pow, prim),
        a < f.size(),
        b < f.size(),
        c < f.size(),
    ensures
        f.sum_out(b, c) == Outcome::Val(b ^ c),
        f.mult_out(a, b ^ c) == Outcome::Val(f.table_mult(a, b) ^ f.table_mult(a, c)),
{
    let max = 1usize << pow;
    lemma_tables(f, pow, prim);
    lemma_xor_bound(b, c, f.size() as usize);
    if a == 0 {
        lemma_xor(0, 0, 0, 0);
    } else {
        lemma_table_mult_xtime(f, pow, prim, a, b);
        lemma_table_mult_xtime(f, pow, prim, a, c);
        lemma_table_mult_xtime(f, pow, prim, a, b ^ c);
        lemma_xtime_n_linear(b, c, f.gf_log@[a as int] as nat, pow, prim);
    }
}

/// Law: multiplication is associative.
pub proof fn law_mult_assoc(f: &GaloisField, pow: usize, prim: usize, a: usize, b: usize, c: usize)
    requires
        f.built_from(pow, prim),
        primitive(pow, prim),
        a < f.size(),
        b < f.size(),
        c < f.size(),
    ensures
        f.table_mult(f.table_mult(a, b), c) == f.table_mult(a, f.table_mult(b, c)),
{
    let max = 1usize << pow;
    lemma_tables(f, pow, prim);
    if a != 0 && b != 0 && c != 0 {
        let la = f.gf_log@[a as int] as nat;
        let lb = f.gf_log@[b as int] as nat;
        let lc = f.gf_log@[c as int] as nat;
        lemma_table_mult_exp(f, pow, prim, a, b);
        lemma_table_mult_exp(f, pow, prim, b, c);
        let ab = f.table_mult(a, b);
        let bc = f.table_mult(b, c);
        lemma_table_mult_exp(f, pow, prim, ab, c);
        lemma_table_mult_exp(f, pow, prim, a, bc);
        let lab = f.gf_log@[ab as int] as nat;
        let lbc = f.gf_log@[bc as int] as nat;
        lemma_log_exp(ab, pow, prim);
        lemma_log_exp(bc, pow, prim);
        lemma_exp_shift(lab, la + lb, lc, prim, max);
        lemma_exp_shift(lbc, lb + lc, la, prim, max);
        assert(la + lb + lc == lb + lc + la);
        assert(la + lbc == lbc + la);
    }
}

/// Law: division undoes multiplication by a nonzero element, and the other
/// way round.
pub proof fn law_div_mult(f: &GaloisField, pow: usize, prim: usize, x: usize, y: usize)
    requires
        f.built_from(pow, prim),
        primitive(pow, prim),
        x < f.size(),
        1 <= y < f.size(),
    ensures
        f.div_out(f.table_mult(x, y), y) == Outcome::Val(x),
        f.mult_out(f.table_div(x, y), y) == Outcome::Val(x),
{
    let max = 1usize << pow;
    lemma_tables(f, pow, prim);
    let p = (max - 1) as nat;
    let ly = f.gf_log@[y as int] as nat;
    lemma_log_exp(y, pow, prim);
    if x != 0 {
        let lx = f.gf_log@[x as int] as nat;
        lemma_log_exp(x, pow, prim);
        let m = f.table_mult(x, y);
        lemma_table_mult_exp(f, pow, prim, x, y);
        lemma_log_exp(m, pow, prim);
        let lm = f.gf_log@[m as int] as nat;
        lemma_exp_shift(lm, lx + ly, (p - ly) as nat, prim, max);
        lemma_exp_mod((p + lm - ly) as nat, pow, prim);
        lemma_exp_shift(p, 0, lx, prim, max);
        assert(lx + ly + (p - ly) == p + lx);
        let q = f.table_div(x, y);
        lemma_exp_mod((p + lx - ly) as nat, pow, prim);
        lemma_exp_nonzero((p + lx - ly) as nat, pow, prim);
        assert(q == exp_at((p + lx - ly) as nat, prim, max));
        lemma_table_mult_exp(f, pow, prim, q, y);
        lemma_log_exp(q, pow, prim);
        let lq = f.gf_log@[q as int] as nat;
        lemma_exp_shift(lq, (p + lx - ly) as nat, ly, prim, max);
        assert((p + lx - ly) + ly == p + lx);
    }
}

/// Law: division by zero is rejected.
pub proof fn law_div_zero(f: &GaloisField, x: usize)
    requires
        x <= f.size(),
    ensures
        f.div_out(x, 0) == Outcome::<usize>::Rejected("Division by zero"),
{
}

/// The inverse search finds an inverse once one exists at or after `start`.
pub proof fn lemma_first_inverse_found(f: &GaloisField, x: usize, start: nat, t: usize)
    requires
        start <= t < f.size(),
        f.mult_out(x, t) == Outcome::Val(1usize),
    ensures
        f.first_inverse(x, start) matches Some(u) && start <= u < f.size()
            && f.mult_out(x, u) == Outcome::Val(1usize),
    decreases f.size() - start,
{
    if f.mult_out(x, start as usize) != Outcome::Val(1usize) {
        lemma_first_inverse_found(f, x, start + 1, t);
    }
}

/// Law: every nonzero element has a multiplicative inverse, which
/// `mult_inverse` finds.
pub proof fn law_inverse(f: &GaloisField, pow: usize, prim: usize, x: usize)
    requires
        f.built_from(pow, prim),
        primitive(pow, prim),
        1 <= x < f.size(),
    ensures
        f.first_inverse(x, 1) matches Some(t) && 1 <= t < f.size() && f.mult_out(x, t) == Outcome::Val(1usize),
{
    lemma_tables(f, pow, prim);
    law_div_mult(f, pow, prim, 1, x);
    let t = f.table_div(1, x);
    law_mult_commutes(f, t, x);
    lemma_first_inverse_found(f, x, 1, t);
}

/// The logarithm table sends 0 to 0 and no other element to 0.
pub proof fn lemma_log_zero(f: &GaloisField, pow: usize, prim: usize, v: usize)
    requires
        f.built_from(pow, prim),
        primitive(pow, prim),
        v < f.size(),
    ensures
        (f.gf_log@[v as int] == 0) <==> (v == 0),
{
    let max = 1usize << pow;
    lemma_tables(f, pow, prim);
    lemma_last_pos_bound(v, max as nat, prim, max);
    if v == 0 {
        if let Some(k) = last_pos(0, max as nat, prim, max) {
            lemma_exp_nonzero(k, pow, prim);
        }
    } else if v == 1 {
        assert(exp_at((max - 1) as nat, prim, max) == 1);
        assert(last_pos(1, max as nat, prim, max) == Some((max - 1) as nat));
    } else {
        lemma_log_exp(v, pow, prim);
        assert(exp_at(0, prim, max) == 1);
    }
}

/// Law: no two elements share a logarithm, and no two exponents share a
/// power except the exponents 0 and `2^pow - 1`, which both give 1.
pub proof fn law_tables_distinct(f: &GaloisField, pow: usize, prim: usize, i: usize, j: usize)
    requires
        f.built_from(pow, prim),
        primitive(pow, prim),
        i < f.size(),
        j < f.size(),
        i != j,
    ensures
        f.gf_log@[i as int] != f.gf_log@[j as int],
        f.gf_ilog@[i as int] != f.gf_ilog@[j as int] || f.gf_ilog@[i as int] == 1,
{
    let max = 1usize << pow;
    lemma_tables(f, pow, prim);
    lemma_log_zero(f, pow, prim, i);
    lemma_log_zero(f, pow, prim, j);
    if i != 0 && j != 0 {
        lemma_log_exp(i, pow, prim);
        lemma_log_exp(j, pow, prim);
    }
    let ei = exp_at(i as nat, prim, max);
    let ej = exp_at(j as nat, prim, max);
    if i < j && j < max - 1 {
        assert(ei != ej);
    } else if j < i && i < max - 1 {
        assert(ej != ei);
    } else if i == max - 1 {
        assert(ei == 1);
    } else {
        assert(j == max - 1);
        assert(ej == 1);
    }
}

/// Multiplication by `x` in GF(16) modulo `X^4 + X + 1`, on each power of `x`.
proof fn lemma_gf16_xtime()
    by (bit_vector)
    ensures
        xtime(1, 19, 16) == 2,
        xtime(2, 19, 16) == 4,
        xtime(4, 19, 16) == 8,
        xtime(8, 19, 16) == 3,
        xtime(3, 19, 16) == 6,
        xtime(6, 19, 16) == 12,
        xtime(12, 19, 16) == 11,
        xtime(11, 19, 16) == 5,
        xtime(5, 19, 16) == 10,
        xtime(10, 19, 16) == 7,
        xtime(7, 19, 16) == 14,
        xtime(14, 19, 16) == 15,
        xtime(15, 19, 16) == 13,
        xtime(13, 19, 16) == 9,
        xtime(9, 19, 16) == 1,
{
}

/// `X^4 + X + 1` is primitive: the laws hold of the field GF(16) built from it.
pub proof fn lemma_gf16_primitive()
    ensures
        primitive(4, 0b10011),
{
    let max = 16usize;
    assert((1usize << 4usize) == 16usize) by (bit_vector);
    assert(valid_params(4, 0b10011));
    lemma_gf16_xtime();
    assert(exp_at(0, 19, 16) == 1);
    assert(exp_at(1, 19, 16) == 2);
    assert(exp_at(2, 19, 16) == 4);
    assert(exp_at(3, 19, 16) == 8);
    assert(exp_at(4, 19, 16) == 3);
    assert(exp_at(5, 19, 16) == 6);
    assert(exp_at(6, 19, 16) == 12);
    assert(exp_at(7, 19, 16) == 11);
    assert(exp_at(8, 19, 16) == 5);
    assert(exp_at(9, 19, 16) == 10);
    assert(exp_at(10, 19, 16) == 7);
    assert(exp_at(11, 19, 16) == 14);
    assert(exp_at(12, 19, 16) == 15);
    assert(exp_at(13, 19, 16) == 13);
    assert(exp_at(14, 19, 16) == 9);
    assert(exp_at(15, 19, 16) == 1);
    assert forall|i: nat, j: nat| i < j < 15 implies #[trigger] exp_at(i, 19, 16) != #[trigger] exp_at(j, 19, 16) by {
        assert(i <= 14 && j <= 14);
    }
    assert forall|v: usize| 1 <= v < 16 implies #[trigger] is_power(v, 19, 16) by {
        let k: nat = if v == 1 { 0 } else if v == 2 { 1 } else if v == 4 { 2 } else if v == 8 { 3 }
            else if v == 3 { 4 } else if v == 6 { 5 } else if v == 12 { 6 } else if v == 11 { 7 }
            else if v == 5 { 8 } else if v == 10 { 9 } else if v == 7 { 10 } else if v == 14 { 11 }
            else if v == 15 { 12 } else if v == 13 { 13 } else { 14 };
        assert(exp_at(k, 19, 16) == v);
    }
}

} // verus!
