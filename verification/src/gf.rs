//! Arithmetic in GF(2^m) through exponential and logarithm tables.
use vstd::prelude::*;
use crate::outcome::{Outcome, agrees};

verus! {

/// Multiplication by the generator `x` of a field element `b` represented
/// as a bit vector, reducing by the primitive polynomial when bit `m` is set.
pub open spec fn xtime(b: usize, prim: usize, max: usize) -> usize {
    let c = (b << 1usize) as usize;
    if c & max != 0 { (c ^ prim) as usize } else { c }
}

/// The table entry `x^k` built by `GaloisField::new`.
pub open spec fn exp_at(k: nat, prim: usize, max: usize) -> usize
    decreases k,
{
    if k == 0 { 1 } else { xtime(exp_at((k - 1) as nat, prim, max), prim, max) }
}

/// The last position `k < t` with `exp_at(k) == v`, if any.
pub open spec fn last_pos(v: usize, t: nat, prim: usize, max: usize) -> Option<nat>
    decreases t,
{
    if t == 0 {
        None
    } else if exp_at((t - 1) as nat, prim, max) == v {
        Some((t - 1) as nat)
    } else {
        last_pos(v, (t - 1) as nat, prim, max)
    }
}

/// The logarithm table entry of `v`: the last power that produced `v`, or 0.
pub open spec fn log_entry(v: usize, prim: usize, max: usize) -> usize {
    match last_pos(v, max as nat, prim, max) {
        Some(k) => k as usize,
        None => 0,
    }
}

/// The parameters that `GaloisField::new` accepts: `1 <= pow <= 30` and a
/// reduction polynomial of degree exactly `pow`.
pub open spec fn valid_params(pow: usize, prim: usize) -> bool {
    &&& 1 <= pow <= 30
    &&& (1usize << pow) <= prim
    &&& prim < 2 * (1usize << pow)
}

/// Multiplying by `x` keeps a value below `2^pow`.
pub proof fn lemma_xtime_bound(b: usize, prim: usize, pow: usize)
    requires
        valid_params(pow, prim),
        b < (1usize << pow),
    ensures
        xtime(b, prim, 1usize << pow) < (1usize << pow),
{
    let max = 1usize << pow;
    assert(xtime(b, prim, max) < max) by (bit_vector)
        requires
            1 <= pow <= 30,
            max == 1usize << pow,
            max <= prim,
            prim < 2 * max,
            b < max,
    ;
}

/// Every table power is below `2^pow`.
pub proof fn lemma_exp_bound(k: nat, prim: usize, pow: usize)
    requires
        valid_params(pow, prim),
    ensures
        exp_at(k, prim, 1usize << pow) < (1usize << pow),
    decreases k,
{
    assert(1usize < (1usize << pow)) by (bit_vector)
        requires 1 <= pow <= 30;
    if k > 0 {
        lemma_exp_bound((k - 1) as nat, prim, pow);
        lemma_xtime_bound(exp_at((k - 1) as nat, prim, 1usize << pow), prim, pow);
    }
}

/// The field GF(2^pow): `gf_ilog[k]` is `x^k` and `gf_log` is its inverse.
pub struct GaloisField {
    pub gf_log: Vec<usize>,
    pub gf_ilog: Vec<usize>,
    pub generator: usize,
}

impl GaloisField {
    /// The number of table entries, `2^pow`.
    pub open spec fn size(&self) -> nat {
        self.gf_log@.len()
    }

    /// Tables of equal power-of-two length whose entries index into them.
    pub open spec fn wf(&self) -> bool {
        &&& self.gf_ilog@.len() == self.gf_log@.len()
        &&& 2 <= self.size() <= 0x4000_0000
        &&& (self.size() as usize) & ((self.size() - 1) as usize) == 0
        &&& forall|i: int| 0 <= i < self.size() ==> #[trigger] self.gf_log@[i] < self.size()
        &&& forall|i: int| 0 <= i < self.size() ==> #[trigger] self.gf_ilog@[i] < self.size()
    }

    /// The tables are those that `new(pow, prim, _)` builds.
    pub open spec fn built_from(&self, pow: usize, prim: usize) -> bool {
        &&& valid_params(pow, prim)
        &&& self.gf_ilog@ == Seq::new((1usize << pow) as nat, |k: int| exp_at(k as nat, prim, 1usize << pow))
        &&& self.gf_log@ == Seq::new((1usize << pow) as nat, |v: int| log_entry(v as usize, prim, 1usize << pow))
    }

    /// Builds the tables of GF(2^pow) for the reduction polynomial `prim_poly`.
    pub fn new(pow: usize, prim_poly: usize, generator: usize) -> (f: Self)
        requires
            valid_params(pow, prim_poly),
        ensures
            f.built_from(pow, prim_poly),
            f.generator == generator,
            f.wf(),
    {
        let max: usize = 1 << pow;
        proof {
            assert(2 <= max <= 0x4000_0000 && max & ((max - 1) as usize) == 0) by (bit_vector)
                requires 1 <= pow <= 30, max == 1usize << pow;
        }
        let mut gf_log: Vec<usize> = Vec::new();
        let mut gf_ilog: Vec<usize> = Vec::new();
        let mut i: usize = 0;
        while i < max
            invariant
                i <= max,
                gf_log@ == Seq::new(i as nat, |v: int| 0usize),
                gf_ilog@ == Seq::new(i as nat, |v: int| 0usize),
            decreases max - i,
        {
            gf_log.push(0);
            gf_ilog.push(0);
            i = i + 1;
        }
        let mut b: usize = 1;
        let mut log: usize = 0;
        while log < max
            invariant
                valid_params(pow, prim_poly),
                max == 1usize << pow,
                2 <= max <= 0x4000_0000,
                log <= max,
                b == exp_at(log as nat, prim_poly, max),
                gf_log@.len() == max,
                gf_ilog@.len() == max,
                forall|k: int| 0 <= k < log ==> #[trigger] gf_ilog@[k] == exp_at(k as nat, prim_poly, max),
                forall|k: int| log <= k < max ==> #[trigger] gf_ilog@[k] == 0,
                forall|v: int| 0 <= v < max ==> #[trigger] gf_log@[v] == match last_pos(v as usize, log as nat, prim_poly, max) {
                    Some(k) => k as usize,
                    None => 0usize,
                },
            decreases max - log,
        {
            proof {
                lemma_exp_bound(log as nat, prim_poly, pow);
            }
            gf_log.set(b, log);
            gf_ilog.set(log, b);
            b = b << 1;
            if b & max != 0 {
                b = b ^ prim_poly;
            }
            log = log + 1;
        }
        let f = GaloisField { gf_log, gf_ilog, generator };
        proof {
            assert(f.gf_ilog@ =~= Seq::new(max as nat, |k: int| exp_at(k as nat, prim_poly, max)));
            assert(f.gf_log@ =~= Seq::new(max as nat, |v: int| log_entry(v as usize, prim_poly, max)));
            assert forall|i: int| 0 <= i < f.size() implies #[trigger] f.gf_ilog@[i] < f.size() by {
                lemma_exp_bound(i as nat, prim_poly, pow);
            }
            assert forall|i: int| 0 <= i < f.size() implies #[trigger] f.gf_log@[i] < f.size() by {
                lemma_last_pos_bound(i as usize, max as nat, prim_poly, max);
            }
        }
        f
    }
}

impl GaloisField {
    /// The product that the tables give for two nonzero entries.
    pub open spec fn table_mult(&self, x: usize, y: usize) -> usize {
        if x == 0 || y == 0 {
            0
        } else {
            self.gf_ilog@[((self.gf_log@[x as int] + self.gf_log@[y as int]) % (self.size() - 1)) as int]
        }
    }

    /// The quotient that the tables give for a nonzero divisor.
    pub open spec fn table_div(&self, x: usize, y: usize) -> usize {
        if x == 0 {
            0
        } else {
            self.gf_ilog@[(((self.size() - 1) + self.gf_log@[x as int] - self.gf_log@[y as int]) % (self.size() - 1)) as int]
        }
    }

    /// `sum` rejects arguments above the table size and otherwise adds by XOR.
    pub open spec fn sum_out(&self, x: usize, y: usize) -> Outcome<usize> {
        if x > self.size() || y > self.size() {
            Outcome::Rejected("args out of bounds")
        } else {
            Outcome::Val(x ^ y)
        }
    }

    /// `mult` rejects arguments above the table size; an argument equal to
    /// the table size with a nonzero partner falls off the tables.
    pub open spec fn mult_out(&self, x: usize, y: usize) -> Outcome<usize> {
        if x > self.size() || y > self.size() {
            Outcome::Rejected("args out of bounds")
        } else if x == 0 || y == 0 {
            Outcome::Val(0)
        } else if x == self.size() || y == self.size() {
            Outcome::Panics
        } else {
            Outcome::Val(self.table_mult(x, y))
        }
    }

    /// `div` rejects arguments above the table size and a zero divisor.
    pub open spec fn div_out(&self, x: usize, y: usize) -> Outcome<usize> {
        if x > self.size() || y > self.size() {
            Outcome::Rejected("args out of bounds")
        } else if y == 0 {
            Outcome::Rejected("Division by zero")
        } else if x == 0 {
            Outcome::Val(0)
        } else if x == self.size() || y == self.size() {
            Outcome::Panics
        } else {
            Outcome::Val(self.table_div(x, y))
        }
    }

    /// The first `i` in `[start, size)` whose product with `x` is 1.
    pub open spec fn first_inverse(&self, x: usize, start: nat) -> Option<usize>
        decreases self.size() - start,
    {
        if start >= self.size() {
            None
        } else if self.mult_out(x, start as usize) == Outcome::Val(1usize) {
            Some(start as usize)
        } else {
            self.first_inverse(x, start + 1)
        }
    }

    /// `pow(x, e)`: `e` successive multiplications of an accumulator, from 1, by `x`.
    pub open spec fn pow_out(&self, x: usize, e: nat) -> Outcome<usize>
        decreases e,
    {
        if e == 0 {
            Outcome::Val(1usize)
        } else {
            match self.pow_out(x, (e - 1) as nat) {
                Outcome::Val(a) => self.mult_out(a, x),
                other => other,
            }
        }
    }

    /// Once `pow_out` stops on a rejection, further factors keep it.
    pub proof fn lemma_pow_out_stops(&self, x: usize, e: nat, e2: nat)
        requires
            e <= e2,
            !(self.pow_out(x, e) is Val),
        ensures
            self.pow_out(x, e2) == self.pow_out(x, e),
        decreases e2 - e,
    {
        if e < e2 {
            self.lemma_pow_out_stops(x, e, (e2 - 1) as nat);
        }
    }

    /// Field addition: XOR, for arguments up to the table size.
    pub fn sum(&self, x: usize, y: usize) -> (r: Result<usize, &'static str>)
        requires
            self.wf(),
        ensures
            agrees(r, self.sum_out(x, y)),
    {
        if x > self.gf_log.len() || y > self.gf_log.len() {
            return Err("args out of bounds");
        }
        Ok(x ^ y)
    }

    /// Field multiplication through the logarithm tables.
    pub fn mult(&self, x: usize, y: usize) -> (r: Result<usize, &'static str>)
        requires
            self.wf(),
            self.mult_out(x, y) != Outcome::<usize>::Panics,
        ensures
            agrees(r, self.mult_out(x, y)),
    {
        if x > self.gf_log.len() || y > self.gf_log.len() {
            return Err("args out of bounds");
        }
        if x == 0 || y == 0 {
            return Ok(0);
        }
        let lx = self.gf_log[x];
        let ly = self.gf_log[y];
        Ok(self.gf_ilog[(lx + ly) % (self.gf_ilog.len() - 1)])
    }

    /// Field division through the logarithm tables.
    pub fn div(&self, x: usize, y: usize) -> (r: Result<usize, &'static str>)
        requires
            self.wf(),
            self.div_out(x, y) != Outcome::<usize>::Panics,
        ensures
            agrees(r, self.div_out(x, y)),
    {
        if x > self.gf_log.len() || y > self.gf_log.len() {
            return Err("args out of bounds");
        }
        if y == 0 {
            return Err("Division by zero");
        }
        if x == 0 {
            return Ok(0);
        }
        let lx = self.gf_log[x];
        let ly = self.gf_log[y];
        Ok(self.gf_ilog[((self.gf_ilog.len() - 1) + lx - ly) % (self.gf_ilog.len() - 1)])
    }

    /// The smallest `i >= 1` whose product with `x` is 1, if any.
    pub fn mult_inverse(&self, x: usize) -> (r: Option<usize>)
        requires
            self.wf(),
            x != self.size(),
        ensures
            r == (if x == 0 { None } else { self.first_inverse(x, 1) }),
    {
        if x == 0 {
            return None;
        }
        let mut i: usize = 1;
        while i < self.gf_log.len()
            invariant
                self.wf(),
                x != 0,
                x != self.size(),
                1 <= i <= self.size(),
                self.first_inverse(x, 1) == self.first_inverse(x, i as nat),
            decreases self.size() - i,
        {
            match self.mult(x, i) {
                Ok(1) => return Some(i),
                _ => (),
            }
            i = i + 1;
        }
        None
    }

    /// `x` to the power `n`, by repeated multiplication.
    pub fn pow(&self, x: usize, n: usize) -> (r: Result<usize, &'static str>)
        requires
            self.wf(),
            n > 0 ==> x != self.size(),
        ensures
            agrees(r, self.pow_out(x, n as nat)),
    {
        let mut to_ret: usize = 1;
        let mut i: usize = 0;
        while i < n
            invariant
                self.wf(),
                n > 0 ==> x != self.size(),
                i <= n,
                self.pow_out(x, i as nat) == Outcome::Val(to_ret),
                to_ret < self.size(),
            decreases n - i,
        {
            match self.mult(to_ret, x) {
                Ok(v) => to_ret = v,
                Err(e) => {
                    proof {
                        self.lemma_pow_out_stops(x, (i + 1) as nat, n as nat);
                    }
                    return Err(e);
                },
            }
            i = i + 1;
        }
        Ok(to_ret)
    }
}

/// A last position that is found is a position that gives `v`.
pub proof fn lemma_last_pos_bound(v: usize, t: nat, prim: usize, max: usize)
    ensures
        last_pos(v, t, prim, max) matches Some(k) ==> k < t && exp_at(k, prim, max) == v,
    decreases t,
{
    if t > 0 {
        lemma_last_pos_bound(v, (t - 1) as nat, prim, max);
    }
}

} // verus!
