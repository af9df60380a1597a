//! Polynomials over GF(2^m), stored as coefficient vectors, lowest power first.
use vstd::prelude::*;

verus! {

/// The index of the last nonzero entry among the first `t`, or 0.
pub open spec fn deg_upto(s: Seq<usize>, t: nat) -> nat
    decreases t,
{
    if t == 0 {
        0
    } else if s[t - 1] != 0 {
        (t - 1) as nat
    } else {
        deg_upto(s, (t - 1) as nat)
    }
}

/// The degree of a coefficient sequence: the index of its last nonzero
/// coefficient, and 0 for the zero polynomial.
pub open spec fn deg_of(s: Seq<usize>) -> nat {
    deg_upto(s, s.len())
}

/// The coefficients of `coeff * X^deg`.
pub open spec fn mono_seq(coeff: usize, deg: nat) -> Seq<usize> {
    Seq::new(deg + 1, |i: int| if i == deg { coeff } else { 0usize })
}

/// `deg_upto` is an index below `t` past which the entries are zero.
pub proof fn lemma_deg_upto(s: Seq<usize>, t: nat)
    requires
        t <= s.len(),
    ensures
        t == 0 ==> deg_upto(s, t) == 0,
        t > 0 ==> deg_upto(s, t) < t,
        forall|i: int| deg_upto(s, t) < i < t ==> s[i] == 0,
        deg_upto(s, t) > 0 ==> s[deg_upto(s, t) as int] != 0,
        t > 0 && s[0] != 0 ==> s[deg_upto(s, t) as int] != 0,
    decreases t,
{
    if t > 0 {
        lemma_deg_upto(s, (t - 1) as nat);
    }
}

/// The degree indexes the last nonzero coefficient; the entries past it are zero.
pub proof fn lemma_deg_of(s: Seq<usize>)
    ensures
        s.len() == 0 ==> deg_of(s) == 0,
        s.len() > 0 ==> deg_of(s) < s.len(),
        forall|i: int| deg_of(s) < i < s.len() ==> s[i] == 0,
        deg_of(s) > 0 ==> s[deg_of(s) as int] != 0,
        s.len() > 0 && s[0] != 0 ==> s[deg_of(s) as int] != 0,
{
    lemma_deg_upto(s, s.len());
}

/// A polynomial over GF(2^m); `coeffs[i]` is the coefficient of `X^i`.
#[derive(Clone, Debug)]
pub struct Poly {
    pub coeffs: Vec<usize>,
}

impl Poly {
    /// The degree: the index of the last nonzero coefficient, 0 if there is none.
    pub fn deg(&self) -> (d: usize)
        ensures
            d == deg_of(self.coeffs@),
    {
        let len = self.coeffs.len();
        let mut i: usize = len;
        while i > 0
            invariant
                i <= len,
                len == self.coeffs@.len(),
                deg_of(self.coeffs@) == deg_upto(self.coeffs@, i as nat),
            decreases i,
        {
            if self.coeffs[i - 1] != 0 {
                return i - 1;
            }
            i = i - 1;
        }
        0
    }

    /// The polynomial `coeff * X^deg`, with `deg + 1` coefficients.
    pub fn mononomial(coeff: usize, deg: usize) -> (p: Self)
        requires
            deg < usize::MAX,
        ensures
            p.coeffs@ == mono_seq(coeff, deg as nat),
    {
        let mut coeffs: Vec<usize> = Vec::new();
        let mut i: usize = 0;
        while i < deg
            invariant
                i <= deg,
                coeffs@ == Seq::new(i as nat, |j: int| 0usize),
            decreases deg - i,
        {
            coeffs.push(0);
            i = i + 1;
        }
        coeffs.push(coeff);
        proof {
            assert(coeffs@ =~= mono_seq(coeff, deg as nat));
        }
        Poly { coeffs }
    }

    /// Multiplication by `X^count`: `count` zero coefficients in front.
    pub fn shift(self, count: usize) -> (p: Self)
        ensures
            p.coeffs@ == Seq::new(count as nat, |j: int| 0usize) + self.coeffs@,
    {
        let mut prepend: Vec<usize> = Vec::new();
        let mut i: usize = 0;
        while i < count
            invariant
                i <= count,
                prepend@ == Seq::new(i as nat, |j: int| 0usize),
            decreases count - i,
        {
            prepend.push(0);
            i = i + 1;
        }
        let mut rest = self.coeffs;
        prepend.append(&mut rest);
        Poly { coeffs: prepend }
    }
}

} // verus!
