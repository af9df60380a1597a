//! A Reed-Solomon code over a `GaloisField`: encoding by division by the
//! generator polynomial, decoding by syndromes, the Berlekamp iteration for
//! the error locator, and Gauss-Jordan elimination for the error values.
use vstd::prelude::*;
use crate::outcome::{Outcome, agrees};
use crate::gf::GaloisField;
use crate::poly::{Poly, deg_of, mono_seq, lemma_deg_of};
use crate::rref::rows;

verus! {

/// The coefficient sequences of a sequence of polynomials.
pub open spec fn polys(s: Seq<Poly>) -> Seq<Seq<usize>> {
    Seq::new(s.len(), |i: int| s[i].coeffs@)
}

/// A Reed-Solomon code of length `n` with `k` message symbols.
pub struct ReedSolomon {
    pub n: usize,
    pub k: usize,
    pub field: GaloisField,
}

/// The value of `o` if it is one, `d` otherwise.
pub open spec fn or_keep<T>(o: Outcome<T>, d: T) -> T {
    match o {
        Outcome::Val(v) => v,
        _ => d,
    }
}

impl ReedSolomon {
    /// The generator polynomial after `t` factors, with the next root:
    /// each step multiplies by `(root + X)` and the root by the generator;
    /// a rejected step keeps the old value.
    pub open spec fn gen_state(&self, t: nat) -> Outcome<(Seq<usize>, usize)>
        decreases t,
    {
        let g = self.field.generator;
        if t == 0 {
            Outcome::Val((mono_seq(1, 0), g))
        } else {
            match self.gen_state((t - 1) as nat) {
                Outcome::Val((res, c)) => {
                    let o1 = self.field.mult_poly_out(res, seq![c, 1usize]);
                    let o2 = self.field.mult_out(g, c);
                    if o1 is Panics || o2 is Panics {
                        Outcome::Panics
                    } else {
                        Outcome::Val((or_keep(o1, res), or_keep(o2, c)))
                    }
                },
                other => other,
            }
        }
    }

    /// What `generator_poly` does: the product of `(g^i + X)` for `i` from 1
    /// to `n - k`, as far as the field's operations accept the factors.
    pub open spec fn gen_poly_out(&self) -> Outcome<Seq<usize>> {
        if self.n < self.k {
            Outcome::Panics
        } else {
            match self.gen_state((self.n - self.k) as nat) {
                Outcome::Val((res, _)) => Outcome::Val(res),
                Outcome::Rejected(m) => Outcome::Rejected(m),
                Outcome::Panics => Outcome::Panics,
            }
        }
    }

    pub proof fn lemma_gen_state_not_rejected(&self, t: nat)
        ensures
            !(self.gen_state(t) is Rejected),
        decreases t,
    {
        if t > 0 {
            self.lemma_gen_state_not_rejected((t - 1) as nat);
        }
    }

    pub proof fn lemma_gen_state_panics(&self, t: nat, u: nat)
        requires
            t <= u,
            self.gen_state(t) is Panics,
        ensures
            self.gen_state(u) is Panics,
        decreases u - t,
    {
        if t < u {
            self.lemma_gen_state_panics(t, (u - 1) as nat);
        }
    }

    /// The generator polynomial `(g + X)(g^2 + X)...(g^(n-k) + X)`.
    pub fn generator_poly(&self) -> (p: Poly)
        requires
            self.field.wf(),
            self.gen_poly_out() != Outcome::<Seq<usize>>::Panics,
        ensures
            self.gen_poly_out() == Outcome::Val(p.coeffs@),
    {
        let mut result = Poly::mononomial(1, 0);
        let mut temp = Poly { coeffs: vec![self.field.generator, 1] };
        let nk = self.n - self.k;
        let mut i: usize = 0;
        proof {
            self.lemma_gen_state_not_rejected(nk as nat);
            assert(temp.coeffs@ =~= seq![self.field.generator, 1usize]);
        }
        while i < nk
            invariant
                self.field.wf(),
                nk == self.n - self.k,
                i <= nk,
                temp.coeffs@.len() == 2,
                temp.coeffs@[1] == 1,
                self.gen_state(i as nat) == Outcome::Val((result.coeffs@, temp.coeffs@[0])),
                self.gen_poly_out() != Outcome::<Seq<usize>>::Panics,
            decreases nk - i,
        {
            proof {
                assert(temp.coeffs@ =~= seq![temp.coeffs@[0], 1usize]);
                if self.gen_state((i + 1) as nat) is Panics {
                    self.lemma_gen_state_panics((i + 1) as nat, nk as nat);
                }
            }
            if let Ok(t) = self.field.mult_poly(&result, &temp) {
                result = t;
            }
            if let Ok(t) = self.field.mult(self.field.generator, temp.coeffs[0]) {
                temp.coeffs.set(0, t);
            }
            i = i + 1;
        }
        result
    }

    /// What `encode(msg)` does: the message shifted up by `n - k` places, plus
    /// the remainder of its division by the generator polynomial.
    pub open spec fn encode_out(&self, msg: Seq<usize>) -> Outcome<Seq<usize>> {
        if self.n < self.k {
            Outcome::Panics
        } else {
            let m = Seq::new((self.n - self.k) as nat, |i: int| 0usize) + msg;
            match self.gen_poly_out() {
                Outcome::Val(gp) => match self.field.div_poly_out(m, gp) {
                    Outcome::Val((_, ck)) => self.field.sum_poly_out(m, ck),
                    Outcome::Rejected(e) => Outcome::Rejected(e),
                    Outcome::Panics => Outcome::Panics,
                },
                Outcome::Rejected(e) => Outcome::Rejected(e),
                Outcome::Panics => Outcome::Panics,
            }
        }
    }

    /// Systematic encoding: the message times `X^(n-k)`, plus its remainder
    /// modulo the generator polynomial.
    pub fn encode(&self, message: Poly) -> (r: Result<Poly, &'static str>)
        requires
            self.field.wf(),
            self.encode_out(message.coeffs@) != Outcome::<Seq<usize>>::Panics,
        ensures
            match self.encode_out(message.coeffs@) {
                Outcome::Val(v) => r matches Ok(p) && p.coeffs@ == v,
                Outcome::Rejected(m) => r matches Err(e) && e == m,
                Outcome::Panics => false,
            },
    {
        let ghost msg = message.coeffs@;
        let shifted = message.shift(self.n - self.k);
        proof {
            self.lemma_gen_state_not_rejected((self.n - self.k) as nat);
        }
        let gp = self.generator_poly();
        let (_, ck) = match self.field.div_poly(&shifted, &gp) {
            Ok(v) => v,
            Err(e) => return Err(e),
        };
        self.field.sum_poly(&shifted, &ck)
    }

    /// The syndromes after `t` evaluations, and the next evaluation point:
    /// `received` at `g, g^2, ...`; a rejection there panics.
    pub open spec fn synd_state(&self, r: Seq<usize>, t: nat) -> Outcome<(Seq<usize>, usize)>
        decreases t,
    {
        if t == 0 {
            Outcome::Val((Seq::empty(), self.field.generator))
        } else {
            match self.synd_state(r, (t - 1) as nat) {
                Outcome::Val((s, c)) => match self.field.eval_out(r, c) {
                    Outcome::Val(v) => match self.field.mult_out(c, self.field.generator) {
                        Outcome::Val(c2) => Outcome::Val((s.push(v), c2)),
                        _ => Outcome::Panics,
                    },
                    _ => Outcome::Panics,
                },
                _ => Outcome::Panics,
            }
        }
    }

    /// What `syndrome_components(r)` returns: `r(g^i)` for `i` from 1 to `n - k`.
    pub open spec fn synd_out(&self, r: Seq<usize>) -> Outcome<Seq<usize>> {
        if self.n < self.k {
            Outcome::Panics
        } else {
            match self.synd_state(r, (self.n - self.k) as nat) {
                Outcome::Val((s, _)) => Outcome::Val(s),
                _ => Outcome::Panics,
            }
        }
    }

    pub proof fn lemma_synd_state_panics(&self, r: Seq<usize>, t: nat, u: nat)
        requires
            t <= u,
            !(self.synd_state(r, t) is Val),
        ensures
            !(self.synd_state(r, u) is Val),
        decreases u - t,
    {
        if t < u {
            self.lemma_synd_state_panics(r, t, (u - 1) as nat);
        }
    }

    /// The syndromes of `received`: its values at `g, g^2, ..., g^(n-k)`.
    pub fn syndrome_components(&self, received: &Poly) -> (s: Vec<usize>)
        requires
            self.field.wf(),
            self.synd_out(received.coeffs@) != Outcome::<Seq<usize>>::Panics,
        ensures
            self.synd_out(received.coeffs@) == Outcome::Val(s@),
    {
        let nk = self.n - self.k;
        let mut to_ret: Vec<usize> = Vec::new();
        let mut curr = self.field.generator;
        let mut i: usize = 0;
        while i < nk
            invariant
                self.field.wf(),
                nk == self.n - self.k,
                i <= nk,
                self.synd_state(received.coeffs@, i as nat) == Outcome::Val((to_ret@, curr)),
                self.synd_out(received.coeffs@) != Outcome::<Seq<usize>>::Panics,
            decreases nk - i,
        {
            proof {
                if !(self.synd_state(received.coeffs@, (i + 1) as nat) is Val) {
                    self.lemma_synd_state_panics(received.coeffs@, (i + 1) as nat, nk as nat);
                }
            }
            to_ret.push(self.field.eval_poly_at(received, curr).unwrap());
            curr = self.field.mult(curr, self.field.generator).unwrap();
            i = i + 1;
        }
        to_ret
    }

    /// The search, over the earlier steps `j` from `j` to `i`, for the step
    /// `rho` with a nonzero discrepancy maximizing `j - h[j]` (the last one on
    /// ties), starting from `rho`.
    pub open spec fn rho_from(&self, d: Seq<usize>, h: Seq<usize>, j: nat, i: nat, rho: (nat, nat)) -> Outcome<(nat, nat)>
        decreases i - j,
    {
        if j >= i {
            Outcome::Val(rho)
        } else if d[j as int] != 0 {
            if h[j as int] > j {
                Outcome::Panics
            } else if j - h[j as int] >= rho.1 {
                self.rho_from(d, h, j + 1, i, (j, (j - h[j as int]) as nat))
            } else {
                self.rho_from(d, h, j + 1, i, rho)
            }
        } else {
            self.rho_from(d, h, j + 1, i, rho)
        }
    }

    /// The multiplier `1 / d[rho]` of the correction, 1 when there is no
    /// earlier step to correct with; a missing inverse panics.
    pub open spec fn rho_inverse(&self, x: usize, special: bool) -> Outcome<usize> {
        if special {
            Outcome::Val(1usize)
        } else if x == self.field.size() {
            Outcome::Panics
        } else {
            match self.field.first_inverse(x, 1) {
                Some(v) => Outcome::Val(v),
                None => Outcome::Panics,
            }
        }
    }

    /// The correction of step `i` with nonzero discrepancy, once `rho` is known:
    /// `sigma[i] + (d[i] / d[rho]) * X^(i - rho) * sigma[rho]`, or with
    /// `X^(i+1)` and `sigma = 1` when there is no earlier step to use.
    pub open spec fn bm_correct(&self, d: Seq<usize>, sigma: Seq<Seq<usize>>, i: nat, rho0: nat) -> Outcome<Seq<usize>> {
        let special = d[rho0 as int] == 0 || i == 0;
        let sigma_rho = if special { mono_seq(1, 0) } else { sigma[rho0 as int] };
        let x_pow: nat = if special { i + 1 } else { (i - rho0) as nat };
        if x_pow >= usize::MAX {
            Outcome::Panics
        } else {
        match self.rho_inverse(d[rho0 as int], special) {
            Outcome::Val(inv) => match self.field.mult_out(d[i as int], inv) {
                Outcome::Val(c) => match self.field.mult_poly_out(mono_seq(c, x_pow), sigma_rho) {
                    Outcome::Val(prod) => match self.field.sum_poly_out(sigma[i as int], prod) {
                        Outcome::Val(nxt) => Outcome::Val(nxt),
                        _ => Outcome::Panics,
                    },
                    _ => Outcome::Panics,
                },
                _ => Outcome::Panics,
            },
            _ => Outcome::Panics,
        }
        }
    }

    /// Step `i` of the Berlekamp iteration on the locators and degrees.
    pub open spec fn bm_update(&self, d: Seq<usize>, sigma: Seq<Seq<usize>>, h: Seq<usize>, i: nat) -> Outcome<(Seq<Seq<usize>>, Seq<usize>)> {
        if d[i as int] == 0 {
            Outcome::Val((sigma.push(sigma[i as int]), h.push(h[i as int])))
        } else {
            match self.rho_from(d, h, 0, i, (0, 0)) {
                Outcome::Val((r0, r1)) => {
                    let special = d[r0 as int] == 0 || i == 0;
                    let temp: nat = if special { i + 1 } else { (i - r1) as nat };
                    let hn: usize = if temp > h[i as int] { temp as usize } else { h[i as int] };
                    match self.bm_correct(d, sigma, i, r0) {
                        Outcome::Val(nxt) => Outcome::Val((sigma.push(nxt), h.push(hn))),
                        _ => Outcome::Panics,
                    }
                },
                _ => Outcome::Panics,
            }
        }
    }

    /// The discrepancy of the locator `sig` at step `i + 1`, from term `j` on:
    /// `S[i+1] + sum of sig[j] * S[i+1-j]`.
    pub open spec fn disc_from(&self, syn: Seq<usize>, sig: Seq<usize>, i: nat, j: nat, acc: usize) -> Outcome<usize>
        decreases sig.len() - j,
    {
        if j >= sig.len() {
            Outcome::Val(acc)
        } else if j > i + 1 {
            Outcome::Panics
        } else {
            match self.field.mult_out(sig[j as int], syn[i + 1 - j]) {
                Outcome::Val(m) => match self.field.sum_out(acc, m) {
                    Outcome::Val(s) => self.disc_from(syn, sig, i, j + 1, s),
                    _ => Outcome::Panics,
                },
                _ => Outcome::Panics,
            }
        }
    }

    /// The Berlekamp state (discrepancies, locators, degrees) after `t` steps.
    pub open spec fn bm_state(&self, syn: Seq<usize>, nk: nat, t: nat) -> Outcome<(Seq<usize>, Seq<Seq<usize>>, Seq<usize>)>
        decreases t,
    {
        if t == 0 {
            if syn.len() == 0 {
                Outcome::Panics
            } else {
                Outcome::Val((seq![syn[0]], seq![mono_seq(1, 0)], seq![0usize]))
            }
        } else {
            match self.bm_state(syn, nk, (t - 1) as nat) {
                Outcome::Val((d, sigma, h)) => {
                    let i = (t - 1) as nat;
                    match self.bm_update(d, sigma, h, i) {
                        Outcome::Val((sigma2, h2)) => {
                            if i + 1 != nk {
                                if i + 1 >= syn.len() {
                                    Outcome::Panics
                                } else {
                                    match self.disc_from(syn, sigma2[(i + 1) as int], i, 1, syn[(i + 1) as int]) {
                                        Outcome::Val(dn) => Outcome::Val((d.push(dn), sigma2, h2)),
                                        _ => Outcome::Panics,
                                    }
                                }
                            } else {
                                Outcome::Val((d, sigma2, h2))
                            }
                        },
                        _ => Outcome::Panics,
                    }
                },
                other => other,
            }
        }
    }

    /// What `berlekamp(S)` returns: the last locator of the iteration.
    pub open spec fn berlekamp_out(&self, syn: Seq<usize>) -> Outcome<Seq<usize>> {
        if self.n < self.k {
            Outcome::Panics
        } else {
            match self.bm_state(syn, (self.n - self.k) as nat, (self.n - self.k) as nat) {
                Outcome::Val((_, sigma, _)) => Outcome::Val(sigma.last()),
                _ => Outcome::Panics,
            }
        }
    }

    fn rho_search(&self, d: &Vec<usize>, h: &Vec<usize>, i: usize) -> (r: (usize, usize))
        requires
            i <= d@.len(),
            i <= h@.len(),
            self.rho_from(d@, h@, 0, i as nat, (0, 0)) != Outcome::<(nat, nat)>::Panics,
        ensures
            self.rho_from(d@, h@, 0, i as nat, (0, 0)) == Outcome::Val((r.0 as nat, r.1 as nat)),
            r.0 < d@.len() || i == 0,
            r.1 <= r.0,
    {
        let mut rho: (usize, usize) = (0, 0);
        let mut j: usize = 0;
        while j < i
            invariant
                i <= d@.len(),
                i <= h@.len(),
                j <= i,
                rho.1 <= rho.0,
                rho.0 < d@.len() || i == 0,
                self.rho_from(d@, h@, 0, i as nat, (0, 0)) == self.rho_from(d@, h@, j as nat, i as nat, (rho.0 as nat, rho.1 as nat)),
                self.rho_from(d@, h@, 0, i as nat, (0, 0)) != Outcome::<(nat, nat)>::Panics,
            decreases i - j,
        {
            if d[j] != 0 && j - h[j] >= rho.1 {
                rho = (j, j - h[j]);
            }
            j = j + 1;
        }
        rho
    }

    fn discrepancy(&self, syn: &Vec<usize>, sig: &Poly, i: usize) -> (r: usize)
        requires
            self.field.wf(),
            i + 1 < syn.len(),
            self.disc_from(syn@, sig.coeffs@, i as nat, 1, syn@[i + 1]) != Outcome::<usize>::Panics,
        ensures
            self.disc_from(syn@, sig.coeffs@, i as nat, 1, syn@[i + 1]) == Outcome::Val(r),
    {
        let mut d_next = syn[i + 1];
        let mut j: usize = 1;
        while j < sig.coeffs.len()
            invariant
                self.field.wf(),
                i + 1 < syn.len(),
                1 <= j,
                self.disc_from(syn@, sig.coeffs@, i as nat, 1, syn@[i + 1])
                    == self.disc_from(syn@, sig.coeffs@, i as nat, j as nat, d_next),
                self.disc_from(syn@, sig.coeffs@, i as nat, 1, syn@[i + 1]) != Outcome::<usize>::Panics,
            decreases sig.coeffs@.len() - j,
        {
            let m = self.field.mult(sig.coeffs[j], syn[(i + 1) - j]).unwrap();
            d_next = self.field.sum(d_next, m).unwrap();
            j = j + 1;
        }
        d_next
    }

    /// The Berlekamp iteration on the syndromes: the error locator polynomial.
    /// At a step with a nonzero discrepancy and no earlier step to correct
    /// with (the step "-1" of the iteration, whose length is 0), the new
    /// length is `i + 1`.
    pub fn berlekamp(&self, syndrome_components: &Vec<usize>) -> (p: Poly)
        requires
            self.field.wf(),
            self.berlekamp_out(syndrome_components@) != Outcome::<Seq<usize>>::Panics,
        ensures
            self.berlekamp_out(syndrome_components@) == Outcome::Val(p.coeffs@),
    {
        let ghost syn = syndrome_components@;
        let nk = self.n - self.k;
        proof {
            if !(self.bm_state(syn, nk as nat, 0) is Val) {
                self.lemma_bm_state_stops(syn, nk as nat, 0, nk as nat);
            }
        }
        let mut d: Vec<usize> = Vec::new();
        d.push(syndrome_components[0]);
        let mut sigma: Vec<Poly> = Vec::new();
        sigma.push(Poly::mononomial(1, 0));
        let mut h: Vec<usize> = Vec::new();
        h.push(0);
        proof {
            assert(d@ =~= seq![syn[0]]);
            assert(polys(sigma@) =~= seq![mono_seq(1, 0)]);
            assert(h@ =~= seq![0usize]);
        }
        let mut i: usize = 0;
        while i < nk
            invariant
                self.field.wf(),
                syn == syndrome_components@,
                nk == self.n - self.k,
                i <= nk,
                self.bm_state(syn, nk as nat, i as nat) == Outcome::Val((d@, polys(sigma@), h@)),
                sigma@.len() == i + 1,
                h@.len() == i + 1,
                i < nk ==> d@.len() == i + 1,
                self.berlekamp_out(syn) != Outcome::<Seq<usize>>::Panics,
            decreases nk - i,
        {
            proof {
                if !(self.bm_state(syn, nk as nat, (i + 1) as nat) is Val) {
                    self.lemma_bm_state_stops(syn, nk as nat, (i + 1) as nat, nk as nat);
                }
            }
            let ghost d0 = d@;
            let ghost s0 = polys(sigma@);
            let ghost h0 = h@;
            if d[i] == 0 {
                let c = Poly { coeffs: sigma[i].coeffs.clone() };
                proof {
                    assert(c.coeffs@ =~= sigma@[i as int].coeffs@);
                }
                sigma.push(c);
                let hi = h[i];
                h.push(hi);
            } else {
                let (r0, r1) = self.rho_search(&d, &h, i);
                let special = d[r0] == 0 || i == 0;
                let temp = if special { i + 1 } else { i - r1 };
                let hn = if temp > h[i] { temp } else { h[i] };
                h.push(hn);
                let inv = if special { 1 } else { self.field.mult_inverse(d[r0]).unwrap() };
                let x_pow = if special { i + 1 } else { i - r0 };
                let c = self.field.mult(d[i], inv).unwrap();
                let mono = Poly::mononomial(c, x_pow);
                let prod = if special {
                    let unit = Poly::mononomial(1, 0);
                    self.field.mult_poly(&mono, &unit).unwrap()
                } else {
                    self.field.mult_poly(&mono, &sigma[r0]).unwrap()
                };
                let nxt = self.field.sum_poly(&sigma[i], &prod).unwrap();
                sigma.push(nxt);
            }
            proof {
                assert(polys(sigma@) =~= s0.push(sigma@[i + 1].coeffs@));
            }
            if i != nk - 1 {
                let dn = self.discrepancy(syndrome_components, &sigma[i + 1], i);
                d.push(dn);
            }
            i = i + 1;
        }
        let p = sigma.pop().unwrap();
        p
    }

    pub proof fn lemma_bm_state_stops(&self, syn: Seq<usize>, nk: nat, t: nat, u: nat)
        requires
            t <= u,
            !(self.bm_state(syn, nk, t) is Val),
        ensures
            !(self.bm_state(syn, nk, u) is Val),
        decreases u - t,
    {
        if t < u {
            self.lemma_bm_state_stops(syn, nk, t, (u - 1) as nat);
        }
    }

    /// The position that a root `y` stands for: the first exponent `k` from
    /// `k` on, below `2^m - 1`, with `g^k = y` for the code's generator `g`,
    /// where `cur` is `g^k`; `2^m - 1` when there is none.
    pub open spec fn dlog_from(&self, y: usize, k: nat, cur: usize) -> nat
        decreases self.field.size() - 1 - k,
    {
        if k >= self.field.size() - 1 || cur == y {
            k
        } else {
            self.dlog_from(y, k + 1, self.field.table_mult(cur, self.field.generator))
        }
    }

    /// What `error_locs(elp)` does: the roots of `elp`, each replaced by its
    /// logarithm to the base of the generator (the error position it stands for).
    /// The logarithms step through the powers of the generator, which must
    /// therefore be a field element.
    pub open spec fn error_locs_out(&self, s: Seq<usize>) -> Outcome<Seq<usize>> {
        if self.field.generator >= self.field.size() {
            Outcome::Panics
        } else {
            match self.field.roots_out(s) {
                Outcome::Val(rs) => Outcome::Val(Seq::new(rs.len(), |i: int| self.dlog_from(rs[i], 0, 1) as usize)),
                Outcome::Rejected(m) => Outcome::Rejected(m),
                Outcome::Panics => Outcome::Panics,
            }
        }
    }

    /// The logarithm of `y` to the base of the generator, by stepping
    /// through its powers.
    fn dlog(&self, y: usize) -> (r: usize)
        requires
            self.field.wf(),
            self.field.generator < self.field.size(),
        ensures
            r == self.dlog_from(y, 0, 1),
    {
        let last = self.field.gf_log.len() - 1;
        let mut k: usize = 0;
        let mut cur: usize = 1;
        while k < last && cur != y
            invariant
                self.field.wf(),
                self.field.generator < self.field.size(),
                last == self.field.size() - 1,
                k <= last,
                cur < self.field.size(),
                self.dlog_from(y, 0, 1) == self.dlog_from(y, k as nat, cur),
            decreases last - k,
        {
            proof {
                crate::field_laws::law_mult_closed(&self.field, cur, self.field.generator);
            }
            cur = self.field.mult(cur, self.field.generator).unwrap();
            k = k + 1;
        }
        k
    }

    /// The error positions: the logarithms, to the base of the generator, of
    /// the roots of the reversed locator. Taking them to the base of the
    /// code's generator (rather than of `x`) makes the root 1 stand for
    /// position 0 and keeps positions right for any primitive generator.
    pub fn error_locs(&self, elp_r: &Poly) -> (r: Result<Vec<usize>, &'static str>)
        requires
            self.field.wf(),
            self.field.generator < self.field.size(),
            self.error_locs_out(elp_r.coeffs@) != Outcome::<Seq<usize>>::Panics,
        ensures
            match self.error_locs_out(elp_r.coeffs@) {
                Outcome::Val(v) => r matches Ok(w) && w@ == v,
                Outcome::Rejected(m) => r matches Err(e) && e == m,
                Outcome::Panics => false,
            },
    {
        let mut to_ret = match self.field.roots(elp_r) {
            Ok(v) => v,
            Err(e) => return Err(e),
        };
        let ghost rs = to_ret@;
        let mut i: usize = 0;
        while i < to_ret.len()
            invariant
                self.field.wf(),
                self.field.generator < self.field.size(),
                to_ret@.len() == rs.len(),
                i <= rs.len(),
                forall|k: int| 0 <= k < i ==> #[trigger] to_ret@[k] == self.dlog_from(rs[k], 0, 1) as usize,
                forall|k: int| i <= k < rs.len() ==> #[trigger] to_ret@[k] == rs[k],
            decreases rs.len() - i,
        {
            let l = self.dlog(to_ret[i]);
            to_ret.set(i, l);
            i = i + 1;
        }
        proof {
            assert(to_ret@ =~= Seq::new(rs.len(), |i: int| self.dlog_from(rs[i], 0, 1) as usize));
        }
        Ok(to_ret)
    }

    /// The powers `g^e` for the error positions `e`; a rejected power panics.
    pub open spec fn first_row_out(&self, elc: Seq<usize>) -> Outcome<Seq<usize>> {
        if exists|j: int| 0 <= j < elc.len() && !(#[trigger] self.field.pow_out(self.field.generator, elc[j] as nat) is Val) {
            Outcome::Panics
        } else {
            Outcome::Val(Seq::new(elc.len(), |j: int| or_keep(self.field.pow_out(self.field.generator, elc[j] as nat), 0usize)))
        }
    }

    /// `prev` with its entries below the last, from `j` on, multiplied by
    /// the entries of `r0`.
    pub open spec fn mult_row(&self, prev: Seq<usize>, r0: Seq<usize>, j: nat) -> Outcome<Seq<usize>>
        decreases prev.len() - j,
    {
        if j + 1 >= prev.len() {
            Outcome::Val(prev)
        } else {
            match self.field.mult_out(prev[j as int], r0[j as int]) {
                Outcome::Val(v) => self.mult_row(prev.update(j as int, v), r0, j + 1),
                Outcome::Rejected(m) => Outcome::Rejected(m),
                Outcome::Panics => Outcome::Panics,
            }
        }
    }

    /// The first `t` rows of the system for the error values: row `i` holds
    /// the powers `g^(e (i+1))` and the syndrome `S[i]`.
    pub open spec fn ev_rows(&self, elc: Seq<usize>, synd: Seq<usize>, t: nat) -> Outcome<Seq<Seq<usize>>>
        decreases t,
    {
        if t <= 1 {
            match self.first_row_out(elc) {
                Outcome::Val(r) => if synd.len() == 0 {
                    Outcome::Panics
                } else {
                    Outcome::Val(seq![r.push(synd[0])])
                },
                Outcome::Rejected(m) => Outcome::Rejected(m),
                Outcome::Panics => Outcome::Panics,
            }
        } else {
            match self.ev_rows(elc, synd, (t - 1) as nat) {
                Outcome::Val(m) => match self.mult_row(m[t - 2], m[0], 0) {
                    Outcome::Val(r) => if t - 1 >= synd.len() {
                        Outcome::Panics
                    } else {
                        Outcome::Val(m.push(r.update(r.len() - 1, synd[t - 1])))
                    },
                    Outcome::Rejected(e) => Outcome::Rejected(e),
                    Outcome::Panics => Outcome::Panics,
                },
                other => other,
            }
        }
    }

    /// What `error_vals(elc, synd)` does: solves the system by `rref` and
    /// reads the last column.
    pub open spec fn error_vals_out(&self, elc: Seq<usize>, synd: Seq<usize>) -> Outcome<Seq<usize>> {
        match self.ev_rows(elc, synd, elc.len()) {
            Outcome::Val(m) => match self.field.rref_out(m) {
                Outcome::Val(mm) => if exists|i: int| 0 <= i < mm.len() && #[trigger] mm[i].len() == 0 {
                    Outcome::Panics
                } else {
                    Outcome::Val(Seq::new(mm.len(), |i: int| mm[i].last()))
                },
                Outcome::Rejected(e) => Outcome::Rejected(e),
                Outcome::Panics => Outcome::Panics,
            },
            Outcome::Rejected(e) => Outcome::Rejected(e),
            Outcome::Panics => Outcome::Panics,
        }
    }

    pub proof fn lemma_ev_rows(&self, elc: Seq<usize>, synd: Seq<usize>, t: nat, u: nat)
        requires
            1 <= t <= u,
            !(self.ev_rows(elc, synd, t) is Val),
        ensures
            self.ev_rows(elc, synd, u) == self.ev_rows(elc, synd, t),
        decreases u - t,
    {
        if t < u {
            self.lemma_ev_rows(elc, synd, t, (u - 1) as nat);
        }
    }

    pub proof fn lemma_ev_rows_len(&self, elc: Seq<usize>, synd: Seq<usize>, t: nat)
        requires
            self.ev_rows(elc, synd, t) is Val,
        ensures
            self.ev_rows(elc, synd, t)->Val_0.len() == (if t == 0 { 1 } else { t }),
            forall|i: int| 0 <= i < self.ev_rows(elc, synd, t)->Val_0.len()
                ==> #[trigger] self.ev_rows(elc, synd, t)->Val_0[i].len() == elc.len() + 1,
        decreases t,
    {
        if t > 1 {
            self.lemma_ev_rows_len(elc, synd, (t - 1) as nat);
            let m = self.ev_rows(elc, synd, (t - 1) as nat)->Val_0;
            self.lemma_mult_row_len(m[t - 2], m[0], 0);
        }
    }

    pub proof fn lemma_mult_row_len(&self, prev: Seq<usize>, r0: Seq<usize>, j: nat)
        ensures
            self.mult_row(prev, r0, j) matches Outcome::Val(r) ==> r.len() == prev.len(),
        decreases prev.len() - j,
    {
        if j + 1 < prev.len() {
            if self.field.mult_out(prev[j as int], r0[j as int]) is Val {
                self.lemma_mult_row_len(prev.update(j as int, self.field.mult_out(prev[j as int], r0[j as int])->Val_0), r0, j + 1);
            }
        }
    }

    /// The error values: the solution of the system whose row `i` holds the
    /// powers `g^(e (i+1))` of the error positions and the syndrome `S[i]`.
    pub fn error_vals(&self, elc: &Vec<usize>, synd: &Vec<usize>) -> (r: Result<Vec<usize>, &'static str>)
        requires
            self.field.wf(),
            self.error_vals_out(elc@, synd@) != Outcome::<Seq<usize>>::Panics,
        ensures
            match self.error_vals_out(elc@, synd@) {
                Outcome::Val(v) => r matches Ok(w) && w@ == v,
                Outcome::Rejected(m) => r matches Err(e) && e == m,
                Outcome::Panics => false,
            },
    {
        let ghost e = elc@;
        let ghost s = synd@;
        let ghost g = self.field.generator;
        proof {
            if !(self.ev_rows(e, s, 1) is Val) {
                self.lemma_ev_rows(e, s, 1, if e.len() == 0 { 1 } else { e.len() });
            }
        }
        let mut mat: Vec<Vec<usize>> = Vec::new();
        let mut first_row: Vec<usize> = Vec::new();
        let mut i: usize = 0;
        while i < elc.len()
            invariant
                self.field.wf(),
                e == elc@,
                g == self.field.generator,
                i <= e.len(),
                first_row@.len() == i,
                !(self.first_row_out(e) is Panics),
                forall|j: int| 0 <= j < i ==> self.field.pow_out(g, e[j] as nat) == Outcome::Val(#[trigger] first_row@[j]),
            decreases e.len() - i,
        {
            assert(self.field.pow_out(self.field.generator, elc@[i as int] as nat) is Val);
            proof {
                if elc[i as int] > 0 && self.field.generator == self.field.size() {
                    assert(self.field.pow_out(g, 0) == Outcome::Val(1usize));
                    assert(self.field.pow_out(g, 1) is Panics);
                    self.field.lemma_pow_out_stops(g, 1, e[i as int] as nat);
                }
            }
            let v = self.field.pow(self.field.generator, elc[i]).unwrap();
            first_row.push(v);
            i = i + 1;
        }
        proof {
            assert(first_row@ =~= self.first_row_out(e)->Val_0);
        }
        first_row.push(synd[0]);
        mat.push(first_row);
        proof {
            assert(rows(mat@) =~= self.ev_rows(e, s, 1)->Val_0);
        }
        let mut i: usize = 1;
        while i < elc.len()
            invariant
                self.field.wf(),
                e == elc@,
                s == synd@,
                1 <= i,
                i <= e.len() || i == 1,
                self.ev_rows(e, s, i as nat) == Outcome::Val(rows(mat@)),
                self.error_vals_out(e, s) != Outcome::<Seq<usize>>::Panics,
            decreases e.len() - i,
        {
            proof {
                self.lemma_ev_rows_len(e, s, i as nat);
                if !(self.ev_rows(e, s, (i + 1) as nat) is Val) {
                    self.lemma_ev_rows(e, s, (i + 1) as nat, e.len());
                }
            }
            let mut row = mat[i - 1].clone();
            let ghost r0 = rows(mat@)[0];
            assert(row@ =~= rows(mat@)[i - 1]);
            let mut j: usize = 0;
            while j + 1 < row.len()
                invariant
                    self.field.wf(),
                    rows(mat@)[0] == r0,
                    r0.len() == e.len() + 1,
                    row@.len() == e.len() + 1,
                    self.mult_row(rows(mat@)[i - 1], r0, 0) == self.mult_row(row@, r0, j as nat),
                    !(self.mult_row(rows(mat@)[i - 1], r0, 0) is Panics),
                    mat@.len() == i,
                    1 <= i,
                    i < e.len(),
                    j < row.len(),
                    e == elc@,
                    s == synd@,
                    self.ev_rows(e, s, i as nat) == Outcome::Val(rows(mat@)),
                decreases row@.len() - j,
            {
                assert(rows(mat@)[0] == mat@[0]@);
                let v = match self.field.mult(row[j], mat[0][j]) {
                    Ok(v) => v,
                    Err(err) => {
                        proof {
                            assert(self.ev_rows(e, s, (i + 1) as nat) == Outcome::<Seq<Seq<usize>>>::Rejected(err));
                            self.lemma_ev_rows(e, s, (i + 1) as nat, e.len());
                        }
                        return Err(err);
                    },
                };
                row.set(j, v);
                j = j + 1;
            }
            let last = row.len() - 1;
            row.set(last, synd[i]);
            mat.push(row);
            proof {
                assert(rows(mat@) =~= self.ev_rows(e, s, (i + 1) as nat)->Val_0);
            }
            i = i + 1;
        }
        let m = match self.field.rref(mat) {
            Ok(m) => m,
            Err(err) => return Err(err),
        };
        let mut to_ret: Vec<usize> = Vec::new();
        let mut i: usize = 0;
        while i < m.len()
            invariant
                to_ret@.len() == i,
                i <= m@.len(),
                !(exists|k: int| 0 <= k < rows(m@).len() && #[trigger] rows(m@)[k].len() == 0),
                forall|k: int| 0 <= k < i ==> #[trigger] to_ret@[k] == rows(m@)[k].last(),
            decreases m@.len() - i,
        {
            assert(rows(m@)[i as int] == m@[i as int]@);
            assert(m@[i as int]@.len() > 0);
            let l = m[i].len() - 1;
            to_ret.push(m[i][l]);
            i = i + 1;
        }
        proof {
            assert(to_ret@ =~= Seq::new(rows(m@).len(), |k: int| rows(m@)[k].last()));
        }
        Ok(to_ret)
    }

    /// The error polynomial after its first `t` terms `vals[i] * X^locs[i]`.
    pub open spec fn err_poly(&self, locs: Seq<usize>, vals: Seq<usize>, t: nat) -> Outcome<Seq<usize>>
        decreases t,
    {
        if t == 0 {
            Outcome::Val(mono_seq(0, 0))
        } else {
            match self.err_poly(locs, vals, (t - 1) as nat) {
                Outcome::Val(ep) => if t - 1 >= vals.len() || locs[t - 1] >= usize::MAX {
                    Outcome::Panics
                } else {
                    self.field.sum_poly_out(ep, mono_seq(vals[t - 1], locs[t - 1] as nat))
                },
                other => other,
            }
        }
    }

    /// What `decode(r)` does: syndromes, locator, positions and values of
    /// the errors, and the received word with the error polynomial added.
    pub open spec fn decode_out(&self, r: Seq<usize>) -> Outcome<Seq<usize>> {
        match self.synd_out(r) {
            Outcome::Val(syn) => match self.berlekamp_out(syn) {
                Outcome::Val(elp) => if deg_of(elp) == 0 {
                    Outcome::Val(r)
                } else {
                    match self.error_locs_out(elp.reverse()) {
                        Outcome::Val(locs) => match self.error_vals_out(locs, syn) {
                            Outcome::Val(vals) => match self.err_poly(locs, vals, locs.len()) {
                                Outcome::Val(ep) => self.field.sum_poly_out(r, ep),
                                Outcome::Rejected(m) => Outcome::Rejected(m),
                                Outcome::Panics => Outcome::Panics,
                            },
                            Outcome::Rejected(m) => Outcome::Rejected(m),
                            Outcome::Panics => Outcome::Panics,
                        },
                        Outcome::Rejected(m) => Outcome::Rejected(m),
                        Outcome::Panics => Outcome::Panics,
                    }
                },
                _ => Outcome::Panics,
            },
            _ => Outcome::Panics,
        }
    }

    pub proof fn lemma_err_poly_stops(&self, locs: Seq<usize>, vals: Seq<usize>, t: nat, u: nat)
        requires
            t <= u,
            !(self.err_poly(locs, vals, t) is Val),
        ensures
            self.err_poly(locs, vals, u) == self.err_poly(locs, vals, t),
        decreases u - t,
    {
        if t < u {
            self.lemma_err_poly_stops(locs, vals, t, (u - 1) as nat);
        }
    }

    /// Corrects the errors in `received`.
    pub fn decode(&self, received: Poly) -> (res: Result<Poly, &'static str>)
        requires
            self.field.wf(),
            self.decode_out(received.coeffs@) != Outcome::<Seq<usize>>::Panics,
        ensures
            match self.decode_out(received.coeffs@) {
                Outcome::Val(v) => res matches Ok(p) && p.coeffs@ == v,
                Outcome::Rejected(m) => res matches Err(e) && e == m,
                Outcome::Panics => false,
            },
    {
        let ghost r = received.coeffs@;
        let syndrome_components = self.syndrome_components(&received);
        let elp = self.berlekamp(&syndrome_components);
        if elp.deg() == 0 {
            return Ok(received);
        }
        let ghost e0 = elp.coeffs@;
        let mut coeffs = elp.coeffs;
        let len = coeffs.len();
        let mut i: usize = 0;
        while i < len / 2
            invariant
                coeffs@.len() == len,
                e0.len() == len,
                i <= len / 2,
                forall|k: int| 0 <= k < i ==> #[trigger] coeffs@[k] == e0[len - 1 - k],
                forall|k: int| 0 <= k < i ==> #[trigger] coeffs@[len - 1 - k] == e0[k],
                forall|k: int| i <= k < len - i ==> #[trigger] coeffs@[k] == e0[k],
            decreases len / 2 - i,
        {
            let a = coeffs[i];
            let b = coeffs[len - 1 - i];
            coeffs.set(i, b);
            coeffs.set(len - 1 - i, a);
            i = i + 1;
        }
        let err_loc_poly_r = Poly { coeffs };
        proof {
            assert forall|k: int| 0 <= k < len implies #[trigger] err_loc_poly_r.coeffs@[k] == e0.reverse()[k] by {
                if k < i {
                } else if k >= len - i {
                    let k2 = len - 1 - k;
                    assert(coeffs@[len - 1 - k2] == e0[k2]);
                } else {
                }
            }
            assert(err_loc_poly_r.coeffs@ =~= e0.reverse());
        }
        let err_locs = match self.error_locs(&err_loc_poly_r) {
            Ok(v) => v,
            Err(e) => return Err(e),
        };
        let error_vals = match self.error_vals(&err_locs, &syndrome_components) {
            Ok(v) => v,
            Err(e) => return Err(e),
        };
        let mut error_poly = Poly::mononomial(0, 0);
        let mut i: usize = 0;
        while i < err_locs.len()
            invariant
                self.field.wf(),
                r == received.coeffs@,
                i <= err_locs@.len(),
                self.decode_out(r) == match self.err_poly(err_locs@, error_vals@, err_locs@.len()) {
                    Outcome::Val(ep) => self.field.sum_poly_out(r, ep),
                    Outcome::Rejected(m) => Outcome::Rejected(m),
                    Outcome::Panics => Outcome::Panics,
                },
                self.err_poly(err_locs@, error_vals@, i as nat) == Outcome::Val(error_poly.coeffs@),
                !(self.err_poly(err_locs@, error_vals@, err_locs@.len()) is Panics),
            decreases err_locs@.len() - i,
        {
            proof {
                if !(self.err_poly(err_locs@, error_vals@, (i + 1) as nat) is Val) {
                    self.lemma_err_poly_stops(err_locs@, error_vals@, (i + 1) as nat, err_locs@.len());
                }
            }
            let m = Poly::mononomial(error_vals[i], err_locs[i]);
            error_poly = match self.field.sum_poly(&error_poly, &m) {
                Ok(p) => p,
                Err(e) => return Err(e),
            };
            i = i + 1;
        }
        self.field.sum_poly(&received, &error_poly)
    }
}

} // verus!
