//! Polynomial arithmetic with coefficients in a `GaloisField`.
use vstd::prelude::*;
use crate::outcome::{Outcome, agrees};
use crate::gf::GaloisField;
use crate::poly::{Poly, deg_of, mono_seq, lemma_deg_of};

verus! {

/// XOR of two values below a power of two stays below it.
pub proof fn lemma_xor_bound(a: usize, b: usize, n: usize)
    requires
        a < n,
        b < n,
        n & ((n - 1) as usize) == 0,
        n > 0,
    ensures
        a ^ b < n,
{
    assert(a ^ b < n) by (bit_vector)
        requires a < n, b < n, n & ((n - 1) as usize) == 0, n > 0;
}

/// The XOR identities that the proofs use.
pub proof fn lemma_xor(a: usize, b: usize, c: usize, d: usize)
    by (bit_vector)
    ensures
        a ^ 0 == a,
        0 ^ a == a,
        a ^ a == 0,
        (a ^ b) ^ b == a,
        (a ^ b) ^ a == b,
        (a ^ b) ^ (c ^ d) == (a ^ c) ^ (b ^ d),
        (a ^ b) ^ (c ^ b) == a ^ c,
        a ^ b == b ^ a,
{
}

impl GaloisField {
    /// Horner-free evaluation as `eval_poly_at` performs it: after the
    /// coefficients below `i` (`i >= 1`), the accumulated value and the
    /// current power of `x`.
    pub open spec fn eval_state(&self, s: Seq<usize>, x: usize, i: nat) -> Outcome<(usize, usize)>
        decreases i,
    {
        if i <= 1 {
            Outcome::Val((s[0], x))
        } else {
            match self.eval_state(s, x, (i - 1) as nat) {
                Outcome::Val((acc, xc)) => match self.mult_out(s[i - 1], xc) {
                    Outcome::Val(t) => match self.sum_out(acc, t) {
                        Outcome::Val(a2) => match self.mult_out(xc, x) {
                            Outcome::Val(x2) => Outcome::Val((a2, x2)),
                            Outcome::Rejected(m) => Outcome::Rejected(m),
                            Outcome::Panics => Outcome::Panics,
                        },
                        Outcome::Rejected(m) => Outcome::Rejected(m),
                        Outcome::Panics => Outcome::Panics,
                    },
                    Outcome::Rejected(m) => Outcome::Rejected(m),
                    Outcome::Panics => Outcome::Panics,
                },
                Outcome::Rejected(m) => Outcome::Rejected(m),
                Outcome::Panics => Outcome::Panics,
            }
        }
    }

    /// What `eval_poly_at(f, x)` does for coefficients `s`.
    pub open spec fn eval_out(&self, s: Seq<usize>, x: usize) -> Outcome<usize> {
        if s.len() == 0 {
            Outcome::Panics
        } else {
            match self.eval_state(s, x, s.len()) {
                Outcome::Val((acc, _)) => Outcome::Val(acc),
                Outcome::Rejected(m) => Outcome::Rejected(m),
                Outcome::Panics => Outcome::Panics,
            }
        }
    }

    pub proof fn lemma_eval_state_stops(&self, s: Seq<usize>, x: usize, i: nat, j: nat)
        requires
            1 <= i <= j,
            !(self.eval_state(s, x, i) is Val),
        ensures
            self.eval_state(s, x, j) == self.eval_state(s, x, i),
        decreases j - i,
    {
        if i < j {
            self.lemma_eval_state_stops(s, x, i, (j - 1) as nat);
        }
    }

    /// Evaluates `f` at `x`, summing `f[i] * x^i`.
    pub fn eval_poly_at(&self, f: &Poly, x: usize) -> (r: Result<usize, &'static str>)
        requires
            self.wf(),
            self.eval_out(f.coeffs@, x) != Outcome::<usize>::Panics,
        ensures
            agrees(r, self.eval_out(f.coeffs@, x)),
    {
        let ghost s = f.coeffs@;
        let mut to_ret = f.coeffs[0];
        let mut x_curr = x;
        let mut i: usize = 1;
        while i < f.coeffs.len()
            invariant
                self.wf(),
                s == f.coeffs@,
                s.len() > 0,
                1 <= i <= s.len(),
                self.eval_out(s, x) != Outcome::<usize>::Panics,
                self.eval_state(s, x, i as nat) == Outcome::Val((to_ret, x_curr)),
            decreases s.len() - i,
        {
            proof {
                if !(self.eval_state(s, x, (i + 1) as nat) is Val) {
                    self.lemma_eval_state_stops(s, x, (i + 1) as nat, s.len());
                }
            }
            let t = match self.mult(f.coeffs[i], x_curr) {
                Ok(v) => v,
                Err(e) => return Err(e),
            };
            to_ret = match self.sum(to_ret, t) {
                Ok(v) => v,
                Err(e) => return Err(e),
            };
            x_curr = match self.mult(x_curr, x) {
                Ok(v) => v,
                Err(e) => return Err(e),
            };
            i = i + 1;
        }
        Ok(to_ret)
    }

    /// What `roots` does from candidate `i` on, with the zeros `acc` found so far.
    pub open spec fn roots_from(&self, s: Seq<usize>, d: nat, i: nat, acc: Seq<usize>) -> Outcome<Seq<usize>>
        decreases self.size() - i,
    {
        if i >= self.size() {
            Outcome::Val(acc)
        } else {
            match self.eval_out(s, i as usize) {
                Outcome::Val(v) => {
                    let acc2 = if v == 0 { acc.push(i as usize) } else { acc };
                    if acc2.len() == d {
                        Outcome::Val(acc2)
                    } else {
                        self.roots_from(s, d, i + 1, acc2)
                    }
                },
                Outcome::Rejected(m) => Outcome::Rejected(m),
                Outcome::Panics => Outcome::Panics,
            }
        }
    }

    pub proof fn lemma_roots_from_bound(&self, s: Seq<usize>, d: nat, i: nat, acc: Seq<usize>)
        requires
            forall|k: int| 0 <= k < acc.len() ==> acc[k] < self.size(),
        ensures
            self.roots_from(s, d, i, acc) matches Outcome::Val(v) ==> forall|k: int| 0 <= k < v.len() ==> v[k] < self.size(),
        decreases self.size() - i,
    {
        if i < self.size() {
            match self.eval_out(s, i as usize) {
                Outcome::Val(v) => {
                    let acc2 = if v == 0 { acc.push(i as usize) } else { acc };
                    assert forall|k: int| 0 <= k < acc2.len() implies acc2[k] < self.size() by {
                        if k == acc.len() {
                        }
                    }
                    if acc2.len() != d {
                        self.lemma_roots_from_bound(s, d, i + 1, acc2);
                    }
                },
                _ => {},
            }
        }
    }

    /// What `roots(f)` does: the zeros of `f` in increasing order, stopping
    /// once as many as its degree are found.
    pub open spec fn roots_out(&self, s: Seq<usize>) -> Outcome<Seq<usize>> {
        self.roots_from(s, deg_of(s), 0, Seq::empty())
    }

    /// The field elements at which `f` evaluates to zero, in increasing order,
    /// stopping after `deg(f)` of them.
    pub fn roots(&self, f: &Poly) -> (r: Result<Vec<usize>, &'static str>)
        requires
            self.wf(),
            self.roots_out(f.coeffs@) != Outcome::<Seq<usize>>::Panics,
        ensures
            match self.roots_out(f.coeffs@) {
                Outcome::Val(v) => r matches Ok(w) && w@ == v,
                Outcome::Rejected(m) => r == Err::<Vec<usize>, &'static str>(m),
                Outcome::Panics => false,
            },
    {
        let deg = f.deg();
        let mut to_ret: Vec<usize> = Vec::new();
        let mut i: usize = 0;
        while i < self.gf_log.len()
            invariant
                self.wf(),
                deg == deg_of(f.coeffs@),
                i <= self.size(),
                self.roots_out(f.coeffs@) == self.roots_from(f.coeffs@, deg as nat, i as nat, to_ret@),
                self.roots_out(f.coeffs@) != Outcome::<Seq<usize>>::Panics,
            decreases self.size() - i,
        {
            let v = match self.eval_poly_at(f, i) {
                Ok(v) => v,
                Err(e) => return Err(e),
            };
            if v == 0 {
                to_ret.push(i);
            }
            if to_ret.len() == deg {
                return Ok(to_ret);
            }
            i = i + 1;
        }
        Ok(to_ret)
    }

    /// Some coefficient below `min` of `a` or `b` is above the table size.
    pub open spec fn some_out_of_range(&self, a: Seq<usize>, b: Seq<usize>, min: nat) -> bool {
        exists|i: int| 0 <= i < min && (a[i] > self.size() || b[i] > self.size())
    }

    /// What `sum_poly(a, b)` does: adds coefficientwise up to the smaller
    /// degree and copies the rest of the polynomial of larger degree.
    pub open spec fn sum_poly_out(&self, a: Seq<usize>, b: Seq<usize>) -> Outcome<Seq<usize>> {
        if a.len() == 0 || b.len() == 0 {
            Outcome::Panics
        } else {
            let da = deg_of(a);
            let db = deg_of(b);
            let min = if da > db { db + 1 } else { da + 1 };
            let max = if da > db { da + 1 } else { db + 1 };
            let longest = if da > db { a } else { b };
            if self.some_out_of_range(a, b, min) {
                Outcome::Rejected("args out of bounds")
            } else {
                Outcome::Val(Seq::new(max, |i: int| if i < min { a[i] ^ b[i] } else { longest[i] }))
            }
        }
    }

    /// The sum of two polynomials.
    pub fn sum_poly(&self, first: &Poly, second: &Poly) -> (r: Result<Poly, &'static str>)
        requires
            self.wf(),
            first.coeffs.len() > 0,
            second.coeffs.len() > 0,
        ensures
            match self.sum_poly_out(first.coeffs@, second.coeffs@) {
                Outcome::Val(v) => r matches Ok(p) && p.coeffs@ == v,
                Outcome::Rejected(m) => r matches Err(e) && e == m,
                Outcome::Panics => false,
            },
    {
        let fd = first.deg();
        let sd = second.deg();
        proof {
            lemma_deg_of(first.coeffs@);
            lemma_deg_of(second.coeffs@);
        }
        let (min, max, longest) = if fd > sd {
            (sd + 1, fd + 1, first)
        } else {
            (fd + 1, sd + 1, second)
        };
        let mut new_coeffs: Vec<usize> = Vec::new();
        let mut i: usize = 0;
        while i < min
            invariant
                self.wf(),
                fd == deg_of(first.coeffs@),
                sd == deg_of(second.coeffs@),
                min == (if fd > sd { sd + 1 } else { fd + 1 }),
                min <= first.coeffs@.len(),
                min <= second.coeffs@.len(),
                i <= min,
                new_coeffs@.len() == i,
                forall|k: int| 0 <= k < i ==> first.coeffs@[k] <= self.size() && second.coeffs@[k] <= self.size(),
                forall|k: int| 0 <= k < i ==> #[trigger] new_coeffs@[k] == first.coeffs@[k] ^ second.coeffs@[k],
            decreases min - i,
        {
            let v = match self.sum(first.coeffs[i], second.coeffs[i]) {
                Ok(v) => v,
                Err(e) => {
                    proof {
                        let a = first.coeffs@;
                        let b = second.coeffs@;
                        assert(0 <= i < min && (a[i as int] > self.size() || b[i as int] > self.size()));
                        assert(self.some_out_of_range(a, b, min as nat));

                    }
                    return Err(e);
                },
            };
            new_coeffs.push(v);
            i = i + 1;
        }
        let mut j: usize = min;
        while j < max
            invariant
                min <= j <= max,
                max <= longest.coeffs@.len(),
                min <= first.coeffs@.len(),
                min <= second.coeffs@.len(),
                new_coeffs@.len() == j,
                forall|k: int| 0 <= k < min ==> #[trigger] new_coeffs@[k] == first.coeffs@[k] ^ second.coeffs@[k],
                forall|k: int| min <= k < j ==> #[trigger] new_coeffs@[k] == longest.coeffs@[k],
            decreases max - j,
        {
            new_coeffs.push(longest.coeffs[j]);
            j = j + 1;
        }
        let p = Poly { coeffs: new_coeffs };
        proof {
            let a = first.coeffs@;
            let b = second.coeffs@;
            assert(!self.some_out_of_range(a, b, min as nat));
            assert(p.coeffs@ =~= Seq::new(max as nat, |i: int| if i < min { a[i] ^ b[i] } else { longest.coeffs@[i] }));
        }
        Ok(p)
    }

    /// The pairs `(i, j)` that `mult_poly` multiplies, row by row from `(i, j)`
    /// on: the first rejection or panic among them, if any.
    pub open spec fn mult_scan(&self, a: Seq<usize>, b: Seq<usize>, fd: nat, sd: nat, i: nat, j: nat) -> Outcome<()>
        decreases fd + 1 - i, sd + 1 - j,
    {
        if i > fd {
            Outcome::Val(())
        } else if j > sd {
            self.mult_scan(a, b, fd, sd, i + 1, 0)
        } else {
            match self.mult_out(a[i as int], b[j as int]) {
                Outcome::Val(_) => self.mult_scan(a, b, fd, sd, i, j + 1),
                Outcome::Rejected(m) => Outcome::Rejected(m),
                Outcome::Panics => Outcome::Panics,
            }
        }
    }

    /// The contribution of row `i` (the coefficient `a[i]`) to `X^k` in `a * b`.
    pub open spec fn conv_term(&self, a: Seq<usize>, b: Seq<usize>, sd: nat, i: nat, k: nat) -> usize {
        if i <= k && k - i <= sd {
            self.table_mult(a[i as int], b[k - i])
        } else {
            0
        }
    }

    /// The coefficient of `X^k` in `a * b` over the rows below `rows`, summed
    /// (XOR) in row order.
    pub open spec fn conv_rows(&self, a: Seq<usize>, b: Seq<usize>, sd: nat, rows: nat, k: nat) -> usize
        decreases rows,
    {
        if rows == 0 {
            0
        } else {
            self.conv_rows(a, b, sd, (rows - 1) as nat, k) ^ self.conv_term(a, b, sd, (rows - 1) as nat, k)
        }
    }

    /// The product coefficients of `a` and `b`, up to their degrees.
    pub open spec fn conv(&self, a: Seq<usize>, b: Seq<usize>) -> Seq<usize> {
        Seq::new(deg_of(a) + deg_of(b) + 1, |k: int| self.conv_rows(a, b, deg_of(b), deg_of(a) + 1, k as nat))
    }

    /// What `mult_poly(a, b)` does.
    pub open spec fn mult_poly_out(&self, a: Seq<usize>, b: Seq<usize>) -> Outcome<Seq<usize>> {
        if a.len() == 0 || b.len() == 0 {
            Outcome::Panics
        } else {
            match self.mult_scan(a, b, deg_of(a), deg_of(b), 0, 0) {
                Outcome::Val(_) => Outcome::Val(self.conv(a, b)),
                Outcome::Rejected(m) => Outcome::Rejected(m),
                Outcome::Panics => Outcome::Panics,
            }
        }
    }

    pub proof fn lemma_mult_scan_step(&self, a: Seq<usize>, b: Seq<usize>, fd: nat, sd: nat, i: nat, j: nat)
        requires
            i <= fd,
            j <= sd,
            self.mult_out(a[i as int], b[j as int]) is Val,
        ensures
            self.mult_scan(a, b, fd, sd, i, j) == self.mult_scan(a, b, fd, sd, i, j + 1),
    {
    }

    /// A product that `mult` returns is the table product, below the table size.
    pub proof fn lemma_mult_val(&self, x: usize, y: usize)
        requires
            self.wf(),
            self.mult_out(x, y) is Val,
        ensures
            self.mult_out(x, y) == Outcome::Val(self.table_mult(x, y)),
            self.table_mult(x, y) < self.size(),
    {
    }

    pub proof fn lemma_conv_rows_bound(&self, a: Seq<usize>, b: Seq<usize>, sd: nat, rows: nat, k: nat)
        requires
            self.wf(),
            forall|r: int, c: int| 0 <= r < rows && 0 <= c <= sd ==> (#[trigger] self.mult_out(a[r], b[c])) is Val,
        ensures
            self.conv_rows(a, b, sd, rows, k) < self.size(),
            k + 1 > rows + sd ==> self.conv_rows(a, b, sd, rows, k) == 0,
        decreases rows,
    {
        let n = self.size() as usize;
        if rows > 0 {
            self.lemma_conv_rows_bound(a, b, sd, (rows - 1) as nat, k);
            let prev = self.conv_rows(a, b, sd, (rows - 1) as nat, k);
            let t = self.conv_term(a, b, sd, (rows - 1) as nat, k);
            if (rows - 1) as nat <= k && k - (rows - 1) <= sd {
                self.lemma_mult_val(a[rows - 1], b[k - (rows - 1)]);
            }
            assert(t < self.size());
            lemma_xor_bound(prev, t, n);
            if k + 1 > rows + sd {
                assert(t == 0);
                lemma_xor(0, 0, 0, 0);
            }
        } else {
            assert(0 < self.size());
        }
    }

    /// The product of two polynomials.
    pub fn mult_poly(&self, first: &Poly, second: &Poly) -> (r: Result<Poly, &'static str>)
        requires
            self.wf(),
            self.mult_poly_out(first.coeffs@, second.coeffs@) != Outcome::<Seq<usize>>::Panics,
        ensures
            match self.mult_poly_out(first.coeffs@, second.coeffs@) {
                Outcome::Val(v) => r matches Ok(p) && p.coeffs@ == v,
                Outcome::Rejected(m) => r matches Err(e) && e == m,
                Outcome::Panics => false,
            },
    {
        let ghost a = first.coeffs@;
        let ghost b = second.coeffs@;
        let f_deg = first.deg();
        let s_deg = second.deg();
        proof {
            lemma_deg_of(a);
            lemma_deg_of(b);
        }
        let ghost n = self.size() as usize;
        let mut new_coeffs: Vec<usize> = Vec::new();
        let mut i: usize = 0;
        while i < f_deg + 1
            invariant
                self.wf(),
                n == self.size(),
                a == first.coeffs@,
                b == second.coeffs@,
                first.coeffs@.len() == a.len(),
                second.coeffs@.len() == b.len(),
                a.len() > 0,
                b.len() > 0,
                f_deg == deg_of(a),
                s_deg == deg_of(b),
                f_deg < a.len(),
                s_deg < b.len(),
                f_deg < first.coeffs.len(),
                s_deg < second.coeffs.len(),
                i <= f_deg + 1,
                self.mult_poly_out(a, b) != Outcome::<Seq<usize>>::Panics,
                i <= f_deg ==> self.mult_scan(a, b, f_deg as nat, s_deg as nat, 0, 0)
                    == self.mult_scan(a, b, f_deg as nat, s_deg as nat, i as nat, 0),
                i > f_deg ==> self.mult_scan(a, b, f_deg as nat, s_deg as nat, 0, 0) is Val,
                forall|r: int, c: int| 0 <= r < i && 0 <= c <= s_deg ==> (#[trigger] self.mult_out(a[r], b[c])) is Val,
                new_coeffs@.len() == (if i == 0 { 0int } else { i + s_deg }),
                forall|k: int| 0 <= k < new_coeffs@.len() ==> #[trigger] new_coeffs@[k]
                    == self.conv_rows(a, b, s_deg as nat, i as nat, k as nat),
            decreases f_deg + 1 - i,
        {
            proof {
                assert forall|k: int| 0 <= k < new_coeffs@.len() implies #[trigger] new_coeffs@[k]
                    == (self.conv_rows(a, b, s_deg as nat, i as nat, k as nat)
                        ^ (if i <= k < i + 0 { self.conv_term(a, b, s_deg as nat, i as nat, k as nat) } else { 0usize })) by {
                    let c = self.conv_rows(a, b, s_deg as nat, i as nat, k as nat);
                    lemma_xor(c, 0, 0, 0);
                }
            }
            let mut j: usize = 0;
            while j < s_deg + 1
                invariant
                    self.wf(),
                    n == self.size(),
                    a == first.coeffs@,
                    b == second.coeffs@,
                    first.coeffs@.len() == a.len(),
                    second.coeffs@.len() == b.len(),
                    f_deg == deg_of(a),
                    s_deg == deg_of(b),
                    f_deg < a.len(),
                    s_deg < b.len(),
                    f_deg < first.coeffs.len(),
                    s_deg < second.coeffs.len(),
                    i <= f_deg,
                    j <= s_deg + 1,
                    self.mult_poly_out(a, b) != Outcome::<Seq<usize>>::Panics,
                    self.mult_scan(a, b, f_deg as nat, s_deg as nat, 0, 0)
                        == self.mult_scan(a, b, f_deg as nat, s_deg as nat, i as nat, j as nat),
                    forall|r: int, c: int| 0 <= r < i && 0 <= c <= s_deg ==> (#[trigger] self.mult_out(a[r], b[c])) is Val,
                    forall|c: int| 0 <= c < j ==> (#[trigger] self.mult_out(a[i as int], b[c])) is Val,
                    new_coeffs@.len() == (if i == 0 { j as int } else if j <= s_deg { i + s_deg } else { i + s_deg + 1 }),
                    forall|k: int| 0 <= k < new_coeffs@.len() ==> #[trigger] new_coeffs@[k]
                        == (self.conv_rows(a, b, s_deg as nat, i as nat, k as nat)
                            ^ (if i <= k < i + j { self.conv_term(a, b, s_deg as nat, i as nat, k as nat) } else { 0usize })),
                decreases s_deg + 1 - j,
            {
                let m = match self.mult(first.coeffs[i], second.coeffs[j]) {
                    Ok(v) => v,
                    Err(e) => {
                        proof {
                            assert(self.mult_poly_out(a, b) == Outcome::<Seq<usize>>::Rejected(e));
                        }
                        return Err(e);
                    },
                };
                proof {
                    self.lemma_mult_scan_step(a, b, f_deg as nat, s_deg as nat, i as nat, j as nat);
                    self.lemma_mult_val(a[i as int], b[j as int]);
                    assert(m == self.conv_term(a, b, s_deg as nat, i as nat, (i + j) as nat));
                    assert(m < self.size());
                }
                if new_coeffs.len() <= i + j {
                    proof {
                        self.lemma_conv_rows_bound(a, b, s_deg as nat, i as nat, (i + j) as nat);
                        lemma_xor(m, 0, 0, 0);
                    }
                    new_coeffs.push(m);
                } else {
                    let old = new_coeffs[i + j];
                    proof {
                        self.lemma_conv_rows_bound(a, b, s_deg as nat, i as nat, (i + j) as nat);
                        let c = self.conv_rows(a, b, s_deg as nat, i as nat, (i + j) as nat);
                        assert(old == c ^ 0usize);
                        lemma_xor(c, 0, 0, 0);
                        lemma_xor_bound(c, m, n);
                    }
                    let s = match self.sum(old, m) {
                        Ok(v) => v,
                        Err(e) => return Err(e),
                    };
                    new_coeffs.set(i + j, s);
                }
                proof {
                    assert forall|k: int| 0 <= k < new_coeffs@.len() implies #[trigger] new_coeffs@[k]
                        == (self.conv_rows(a, b, s_deg as nat, i as nat, k as nat)
                            ^ (if i <= k < i + j + 1 { self.conv_term(a, b, s_deg as nat, i as nat, k as nat) } else { 0usize })) by {
                        if k != i + j {
                            assert(!(i <= k < i + j) ==> !(i <= k < i + j + 1));
                        } else {
                            let c = self.conv_rows(a, b, s_deg as nat, i as nat, k as nat);
                            lemma_xor(c, 0, 0, 0);
                        }
                    }
                }
                j = j + 1;
            }
            proof {
                assert forall|k: int| 0 <= k < new_coeffs@.len() implies #[trigger] new_coeffs@[k]
                    == self.conv_rows(a, b, s_deg as nat, (i + 1) as nat, k as nat) by {
                    let c = self.conv_rows(a, b, s_deg as nat, i as nat, k as nat);
                    if !(i <= k < i + s_deg + 1) {
                        assert(self.conv_term(a, b, s_deg as nat, i as nat, k as nat) == 0);
                        lemma_xor(c, 0, 0, 0);
                    }
                }
                if i + 1 > f_deg {
                    assert(self.mult_scan(a, b, f_deg as nat, s_deg as nat, i as nat, (s_deg + 1) as nat)
                        == self.mult_scan(a, b, f_deg as nat, s_deg as nat, (i + 1) as nat, 0));
                }
            }
            i = i + 1;
        }
        let p = Poly { coeffs: new_coeffs };
        proof {
            assert(p.coeffs@ =~= self.conv(a, b));
        }
        Ok(p)
    }

    /// The divisions by `y` of the coefficients `i..len` of `p`, in order:
    /// the first rejection or panic among them, if any.
    pub open spec fn div_scan(&self, p: Seq<usize>, y: usize, i: nat, len: nat) -> Outcome<()>
        decreases len - i,
    {
        if i >= len {
            Outcome::Val(())
        } else {
            match self.div_out(p[i as int], y) {
                Outcome::Val(_) => self.div_scan(p, y, i + 1, len),
                Outcome::Rejected(m) => Outcome::Rejected(m),
                Outcome::Panics => Outcome::Panics,
            }
        }
    }

    /// Long division from remainder `rem` and quotient so far `q`: while the
    /// remainder's degree is at least the divisor's, cancel its leading term
    /// with `(lead(rem) / lead(d)) * X^(deg rem - deg d) * d`. A step that does
    /// not lower the degree is counted as not returning.
    pub open spec fn div_loop(&self, rem: Seq<usize>, q: Seq<usize>, d: Seq<usize>) -> Outcome<(Seq<usize>, Seq<usize>)>
        decreases deg_of(rem),
    {
        let rd = deg_of(rem);
        let dd = deg_of(d);
        if rd < dd {
            Outcome::Val((q, rem))
        } else {
            match self.div_out(rem[rd as int], d[dd as int]) {
                Outcome::Val(c) => match self.mult_poly_out(d, mono_seq(c, (rd - dd) as nat)) {
                    Outcome::Val(prod) => match self.sum_poly_out(rem, prod) {
                        Outcome::Val(nr) => if deg_of(nr) < rd {
                            self.div_loop(nr, q.update(rd - dd, c), d)
                        } else {
                            Outcome::Panics
                        },
                        Outcome::Rejected(m) => Outcome::Rejected(m),
                        Outcome::Panics => Outcome::Panics,
                    },
                    Outcome::Rejected(m) => Outcome::Rejected(m),
                    Outcome::Panics => Outcome::Panics,
                },
                Outcome::Rejected(m) => Outcome::Rejected(m),
                Outcome::Panics => Outcome::Panics,
            }
        }
    }

    /// What `div_poly(p, d)` does: the quotient and the remainder.
    pub open spec fn div_poly_out(&self, p: Seq<usize>, d: Seq<usize>) -> Outcome<(Seq<usize>, Seq<usize>)> {
        if p.len() == 0 || d.len() == 0 || deg_of(p) < deg_of(d) {
            Outcome::Panics
        } else if deg_of(d) == 0 {
            match self.div_scan(p, d[0], 0, deg_of(p) + 1) {
                Outcome::Val(_) => Outcome::Val((
                    Seq::new(deg_of(p) + 1, |i: int| self.table_div(p[i], d[0])),
                    mono_seq(0, 0),
                )),
                Outcome::Rejected(m) => Outcome::Rejected(m),
                Outcome::Panics => Outcome::Panics,
            }
        } else {
            self.div_loop(p, Seq::new((deg_of(p) - deg_of(d) + 1) as nat, |i: int| 0usize), d)
        }
    }

    pub proof fn lemma_div_scan_stops(&self, p: Seq<usize>, y: usize, i: nat, len: nat)
        requires
            i < len,
            !(self.div_out(p[i as int], y) is Val),
        ensures
            self.div_scan(p, y, i, len) == match self.div_out(p[i as int], y) {
                Outcome::Rejected(m) => Outcome::Rejected(m),
                _ => Outcome::<()>::Panics,
            },
    {
    }

    /// Polynomial long division: the quotient and the remainder.
    pub fn div_poly(&self, dividend: &Poly, divisor: &Poly) -> (r: Result<(Poly, Poly), &'static str>)
        requires
            self.wf(),
            self.div_poly_out(dividend.coeffs@, divisor.coeffs@) != Outcome::<(Seq<usize>, Seq<usize>)>::Panics,
        ensures
            match self.div_poly_out(dividend.coeffs@, divisor.coeffs@) {
                Outcome::Val((q, rem)) => r matches Ok((pq, pr)) && pq.coeffs@ == q && pr.coeffs@ == rem,
                Outcome::Rejected(m) => r matches Err(e) && e == m,
                Outcome::Panics => false,
            },
    {
        let ghost p = dividend.coeffs@;
        let ghost d = divisor.coeffs@;
        let dp = dividend.deg();
        let dd = divisor.deg();
        proof {
            lemma_deg_of(p);
            lemma_deg_of(d);
        }
        assert(dp < dividend.coeffs.len());
        let qlen = dp - dd + 1;
        let mut result: Vec<usize> = Vec::new();
        let mut i: usize = 0;
        while i < qlen
            invariant
                i <= qlen,
                result@ == Seq::new(i as nat, |k: int| 0usize),
            decreases qlen - i,
        {
            result.push(0);
            i = i + 1;
        }
        if dd == 0 {
            let mut i: usize = 0;
            while i < qlen
                invariant
                    self.wf(),
                    p == dividend.coeffs@,
                    d == divisor.coeffs@,
                    dd == 0,
                    dd == deg_of(d),
                    dp == deg_of(p),
                    qlen == dp + 1,
                    qlen <= p.len(),
                    d.len() > 0,
                    i <= qlen,
                    result@.len() == qlen,
                    self.div_poly_out(p, d) != Outcome::<(Seq<usize>, Seq<usize>)>::Panics,
                    self.div_scan(p, d[0], 0, qlen as nat) == self.div_scan(p, d[0], i as nat, qlen as nat),
                    forall|k: int| 0 <= k < i ==> #[trigger] result@[k] == self.table_div(p[k], d[0]),
                decreases qlen - i,
            {
                let v = match self.div(dividend.coeffs[i], divisor.coeffs[0]) {
                    Ok(v) => v,
                    Err(e) => {
                        proof {
                            self.lemma_div_scan_stops(p, d[0], i as nat, qlen as nat);
                        }
                        return Err(e);
                    },
                };
                result.set(i, v);
                i = i + 1;
            }
            let q = Poly { coeffs: result };
            let z = Poly::mononomial(0, 0);
            proof {
                assert(q.coeffs@ =~= Seq::new(deg_of(p) + 1, |i: int| self.table_div(p[i], d[0])));
            }
            return Ok((q, z));
        }
        let mut remainder = Poly { coeffs: dividend.coeffs.clone() };
        proof {
            assert(remainder.coeffs@ =~= p);
            assert(result@ =~= Seq::new((deg_of(p) - deg_of(d) + 1) as nat, |i: int| 0usize));
        }
        while remainder.deg() >= dd
            invariant
                self.wf(),
                p == dividend.coeffs@,
                d == divisor.coeffs@,
                dd == deg_of(d),
                dd > 0,
                dp >= dd,
                dd < divisor.coeffs.len(),
                d.len() > 0,
                result@.len() == dp - dd + 1,
                remainder.coeffs@.len() > 0,
                deg_of(remainder.coeffs@) <= dp,
                self.div_poly_out(p, d) == self.div_loop(remainder.coeffs@, result@, d),
                self.div_poly_out(p, d) != Outcome::<(Seq<usize>, Seq<usize>)>::Panics,
            decreases deg_of(remainder.coeffs@),
        {
            let rd = remainder.deg();
            proof {
                lemma_deg_of(remainder.coeffs@);
            }
            let coeff = match self.div(remainder.coeffs[rd], divisor.coeffs[dd]) {
                Ok(v) => v,
                Err(e) => {
                    return Err(e);
                },
            };
            let deg = rd - dd;
            let mono = Poly::mononomial(coeff, deg);
            let prod = match self.mult_poly(divisor, &mono) {
                Ok(v) => v,
                Err(e) => return Err(e),
            };
            let ghost old_rem = remainder.coeffs@;
            proof {
                lemma_deg_of(prod.coeffs@);
                assert(prod.coeffs@.len() > 0);
            }
            remainder = match self.sum_poly(&remainder, &prod) {
                Ok(v) => v,
                Err(e) => return Err(e),
            };
            result.set(deg, coeff);
            proof {
                assert(deg_of(remainder.coeffs@) < rd);
            }
        }
        let q = Poly { coeffs: result };
        Ok((q, remainder))
    }
}

} // verus!
