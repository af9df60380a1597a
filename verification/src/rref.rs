//! Gauss-Jordan elimination of a matrix over a `GaloisField`.
use vstd::prelude::*;
use crate::outcome::{Outcome, agrees};
use crate::gf::GaloisField;

verus! {

/// The rows of a matrix held as a vector of row vectors.
pub open spec fn rows(m: Seq<Vec<usize>>) -> Seq<Seq<usize>> {
    Seq::new(m.len(), |i: int| m[i]@)
}

/// Exchanges rows `a` and `b`.
fn swap_mat_rows(mat: &mut Vec<Vec<usize>>, a: usize, b: usize)
    requires
        a < old(mat)@.len(),
        b < old(mat)@.len(),
        a != b,
    ensures
        rows(final(mat)@) == swap_rows(rows(old(mat)@), a as int, b as int),
        final(mat)@.len() == old(mat)@.len(),
{
    let mut ra: Vec<usize> = Vec::new();
    mat.set_and_swap(a, &mut ra);
    let mut rb: Vec<usize> = ra;
    mat.set_and_swap(b, &mut rb);
    mat.set_and_swap(a, &mut rb);
    proof {
        assert(rows(mat@) =~= swap_rows(rows(old(mat)@), a as int, b as int));
    }
}

/// `m` with rows `a` and `b` exchanged.
pub open spec fn swap_rows(m: Seq<Seq<usize>>, a: int, b: int) -> Seq<Seq<usize>> {
    m.update(a, m[b]).update(b, m[a])
}

impl GaloisField {
    /// The search below row `i`, from row `j` on, for a row with a nonzero
    /// entry in column `i`; the first one found is swapped with row `i`.
    pub open spec fn swap_scan(&self, m: Seq<Seq<usize>>, i: nat, j: nat) -> Outcome<Seq<Seq<usize>>>
        decreases m.len() - j,
    {
        if j >= m.len() {
            Outcome::Val(m)
        } else if m[j as int].len() <= i {
            Outcome::Panics
        } else if m[j as int][i as int] != 0 {
            Outcome::Val(swap_rows(m, i as int, j as int))
        } else {
            self.swap_scan(m, i, j + 1)
        }
    }

    /// The search for the pivot of row `i` from column `lc` on: the matrix,
    /// the pivot column, and whether the columns ran out (elimination ends).
    pub open spec fn pivot(&self, m: Seq<Seq<usize>>, i: nat, lc: nat) -> Outcome<(Seq<Seq<usize>>, nat, bool)> {
        self.pivot_in(m, m.len(), i, lc)
    }

    /// `pivot` for a matrix of `n` rows.
    pub open spec fn pivot_in(&self, m: Seq<Seq<usize>>, n: nat, i: nat, lc: nat) -> Outcome<(Seq<Seq<usize>>, nat, bool)>
        decreases n - lc,
    {
        if i >= m.len() || m[i as int].len() <= lc {
            Outcome::Panics
        } else if m[i as int][lc as int] != 0 {
            Outcome::Val((m, lc, false))
        } else {
            match self.swap_scan(m, i, i + 1) {
                Outcome::Val(m2) => if m2[i as int].len() <= lc {
                    Outcome::Panics
                } else if m2[i as int][lc as int] != 0 {
                    Outcome::Val((m2, lc, false))
                } else if lc + 1 >= n {
                    Outcome::Val((m2, lc + 1, true))
                } else {
                    self.pivot_in(m2, n, i, lc + 1)
                },
                Outcome::Rejected(msg) => Outcome::Rejected(msg),
                Outcome::Panics => Outcome::Panics,
            }
        }
    }

    /// Division of the entries of `row` from column `k` on by `t`.
    pub open spec fn scale_row(&self, row: Seq<usize>, t: usize, k: nat) -> Outcome<Seq<usize>>
        decreases row.len() - k,
    {
        if k >= row.len() {
            Outcome::Val(row)
        } else {
            match self.div_out(row[k as int], t) {
                Outcome::Val(v) => self.scale_row(row.update(k as int, v), t, k + 1),
                Outcome::Rejected(msg) => Outcome::Rejected(msg),
                Outcome::Panics => Outcome::Panics,
            }
        }
    }

    /// Adding `f` times the pivot row `p` to `row`, from column `k` on.
    pub open spec fn elim_row(&self, row: Seq<usize>, p: Seq<usize>, f: usize, k: nat) -> Outcome<Seq<usize>>
        decreases row.len() - k,
    {
        if k >= row.len() {
            Outcome::Val(row)
        } else if p.len() <= k {
            Outcome::Panics
        } else {
            match self.mult_out(f, p[k as int]) {
                Outcome::Val(v) => match self.sum_out(row[k as int], v) {
                    Outcome::Val(s) => self.elim_row(row.update(k as int, s), p, f, k + 1),
                    Outcome::Rejected(msg) => Outcome::Rejected(msg),
                    Outcome::Panics => Outcome::Panics,
                },
                Outcome::Rejected(msg) => Outcome::Rejected(msg),
                Outcome::Panics => Outcome::Panics,
            }
        }
    }

    /// Clearing column `lc` of every row from `j` on but the pivot row `i`.
    pub open spec fn elim_rows(&self, m: Seq<Seq<usize>>, i: nat, lc: nat, j: nat) -> Outcome<Seq<Seq<usize>>>
        decreases m.len() - j,
    {
        if j >= m.len() {
            Outcome::Val(m)
        } else if j == i {
            self.elim_rows(m, i, lc, j + 1)
        } else if m[j as int].len() <= lc {
            Outcome::Panics
        } else {
            match self.elim_row(m[j as int], m[i as int], m[j as int][lc as int], lc) {
                Outcome::Val(r) => self.elim_rows(m.update(j as int, r), i, lc, j + 1),
                Outcome::Rejected(msg) => Outcome::Rejected(msg),
                Outcome::Panics => Outcome::Panics,
            }
        }
    }

    /// Scaling pivot row `i` at pivot column `lc` and clearing that column in
    /// the other rows.
    pub open spec fn reduce_at(&self, m: Seq<Seq<usize>>, i: nat, lc: nat) -> Outcome<Seq<Seq<usize>>> {
        match self.scale_row(m[i as int], m[i as int][lc as int], lc) {
            Outcome::Val(row) => self.elim_rows(m.update(i as int, row), i, lc, 0),
            Outcome::Rejected(msg) => Outcome::Rejected(msg),
            Outcome::Panics => Outcome::Panics,
        }
    }

    /// Gauss-Jordan elimination from row `i` and column `lc` on.
    pub open spec fn rref_from(&self, m: Seq<Seq<usize>>, n: nat, i: nat, lc: nat) -> Outcome<Seq<Seq<usize>>>
        decreases n - i,
    {
        if i >= n {
            Outcome::Val(m)
        } else {
            match self.pivot(m, i, lc) {
                Outcome::Val((m2, lc2, done)) => {
                    if done {
                        Outcome::Val(m2)
                    } else {
                        match self.reduce_at(m2, i, lc2) {
                            Outcome::Val(m4) => {
                                if lc2 + 1 >= n {
                                    Outcome::Val(m4)
                                } else {
                                    self.rref_from(m4, n, i + 1, lc2 + 1)
                                }
                            },
                            Outcome::Rejected(msg) => Outcome::Rejected(msg),
                            Outcome::Panics => Outcome::Panics,
                        }
                    }
                },
                Outcome::Rejected(msg) => Outcome::Rejected(msg),
                Outcome::Panics => Outcome::Panics,
            }
        }
    }

    /// What `rref(mat)` does.
    pub open spec fn rref_out(&self, m: Seq<Seq<usize>>) -> Outcome<Seq<Seq<usize>>> {
        self.rref_from(m, m.len(), 0, 0)
    }

    /// Swaps row `i` with the first row below it that has a nonzero entry in column `i`.
    fn swap_first(&self, mat: &mut Vec<Vec<usize>>, i: usize)
        requires
            i < old(mat)@.len(),
            self.swap_scan(rows(old(mat)@), i as nat, (i + 1) as nat) != Outcome::<Seq<Seq<usize>>>::Panics,
        ensures
            self.swap_scan(rows(old(mat)@), i as nat, (i + 1) as nat) == Outcome::Val(rows(final(mat)@)),
            final(mat)@.len() == old(mat)@.len(),
    {
        let n = mat.len();
        let mut j: usize = i + 1;
        while j < n
            invariant
                n == mat@.len(),
                i < n,
                i + 1 <= j <= n,
                rows(mat@) == rows(old(mat)@),
                self.swap_scan(rows(old(mat)@), i as nat, (i + 1) as nat)
                    == self.swap_scan(rows(mat@), i as nat, j as nat),
                self.swap_scan(rows(old(mat)@), i as nat, (i + 1) as nat) != Outcome::<Seq<Seq<usize>>>::Panics,
            decreases n - j,
        {
            assert(rows(mat@)[j as int] == mat@[j as int]@);
            if mat[j][i] != 0 {
                swap_mat_rows(mat, i, j);
                return;
            }
            j = j + 1;
        }
    }

    /// Looks for the pivot of row `i` from column `lc` on, swapping rows as
    /// `rref` does; returns the pivot column and whether the columns ran out.
    fn find_pivot(&self, mat: &mut Vec<Vec<usize>>, i: usize, start: usize) -> (res: (usize, bool))
        requires
            i < old(mat)@.len(),
            start < old(mat)@.len(),
            self.pivot(rows(old(mat)@), i as nat, start as nat) != Outcome::<(Seq<Seq<usize>>, nat, bool)>::Panics,
        ensures
            self.pivot(rows(old(mat)@), i as nat, start as nat) == Outcome::Val((rows(final(mat)@), res.0 as nat, res.1)),
            final(mat)@.len() == old(mat)@.len(),
            !res.1 ==> res.0 < final(mat)@.len() && res.0 < final(mat)@[i as int]@.len()
                && final(mat)@[i as int]@[res.0 as int] != 0,
    {
        let n = mat.len();
        let mut lc = start;
        assert(rows(mat@)[i as int] == mat@[i as int]@);
        while mat[i][lc] == 0
            invariant
                n == mat@.len(),
                n == old(mat)@.len(),
                i < n,
                lc < n,
                self.pivot(rows(old(mat)@), i as nat, start as nat)
                    == self.pivot_in(rows(mat@), n as nat, i as nat, lc as nat),
                self.pivot(rows(old(mat)@), i as nat, start as nat) != Outcome::<(Seq<Seq<usize>>, nat, bool)>::Panics,
                lc < mat@[i as int]@.len(),
            decreases n - lc,
        {
            proof {
                assert(rows(mat@)[i as int] == mat@[i as int]@);
            }
            let ghost before = rows(mat@);
            self.swap_first(mat, i);
            assert(rows(mat@)[i as int] == mat@[i as int]@);
            if mat[i][lc] == 0 {
                lc = lc + 1;
                if lc == n {
                    return (lc, true);
                }
                assert(rows(mat@)[i as int] == mat@[i as int]@);
            } else {
                return (lc, false);
            }
        }
        assert(rows(mat@)[i as int] == mat@[i as int]@);
        (lc, false)
    }

    /// Divides the entries of `row` from column `k` on by `t`.
    fn scale_row_exec(&self, row_in: Vec<usize>, t: usize, k: usize) -> (r: Result<Vec<usize>, &'static str>)
        requires
            self.wf(),
            self.scale_row(row_in@, t, k as nat) != Outcome::<Seq<usize>>::Panics,
        ensures
            match self.scale_row(row_in@, t, k as nat) {
                Outcome::Val(v) => r matches Ok(w) && w@ == v,
                Outcome::Rejected(m) => r matches Err(e) && e == m,
                Outcome::Panics => false,
            },
    {
        let ghost row0 = row_in@;
        let mut row = row_in;
        let mut j = k;
        while j < row.len()
            invariant
                self.wf(),
                row0 == row_in@,
                self.scale_row(row0, t, k as nat) == self.scale_row(row@, t, j as nat),
                self.scale_row(row0, t, k as nat) != Outcome::<Seq<usize>>::Panics,
            decreases row@.len() - j,
        {
            let v = match self.div(row[j], t) {
                Ok(v) => v,
                Err(e) => return Err(e),
            };
            row.set(j, v);
            j = j + 1;
        }
        Ok(row)
    }

    /// Adds `f` times the pivot row `p` to `row`, from column `k` on.
    fn elim_row_exec(&self, row_in: Vec<usize>, p: &Vec<usize>, f: usize, k: usize) -> (r: Result<Vec<usize>, &'static str>)
        requires
            self.wf(),
            self.elim_row(row_in@, p@, f, k as nat) != Outcome::<Seq<usize>>::Panics,
        ensures
            match self.elim_row(row_in@, p@, f, k as nat) {
                Outcome::Val(v) => r matches Ok(w) && w@ == v,
                Outcome::Rejected(m) => r matches Err(e) && e == m,
                Outcome::Panics => false,
            },
    {
        let ghost row0 = row_in@;
        let mut row = row_in;
        let mut j = k;
        while j < row.len()
            invariant
                self.wf(),
                row0 == row_in@,
                self.elim_row(row0, p@, f, k as nat) == self.elim_row(row@, p@, f, j as nat),
                self.elim_row(row0, p@, f, k as nat) != Outcome::<Seq<usize>>::Panics,
            decreases row@.len() - j,
        {
            let v = match self.mult(f, p[j]) {
                Ok(v) => v,
                Err(e) => return Err(e),
            };
            let s = match self.sum(row[j], v) {
                Ok(s) => s,
                Err(e) => return Err(e),
            };
            row.set(j, s);
            j = j + 1;
        }
        Ok(row)
    }

    /// Clears column `lc` in every row but the pivot row `i`.
    fn elim_rows_exec(&self, mat: &mut Vec<Vec<usize>>, i: usize, lc: usize) -> (r: Result<(), &'static str>)
        requires
            self.wf(),
            i < old(mat)@.len(),
            self.elim_rows(rows(old(mat)@), i as nat, lc as nat, 0) != Outcome::<Seq<Seq<usize>>>::Panics,
        ensures
            final(mat)@.len() == old(mat)@.len(),
            match self.elim_rows(rows(old(mat)@), i as nat, lc as nat, 0) {
                Outcome::Val(v) => r is Ok && rows(final(mat)@) == v,
                Outcome::Rejected(m) => r matches Err(e) && e == m,
                Outcome::Panics => false,
            },
    {
        let n = mat.len();
        let mut j: usize = 0;
        while j < n
            invariant
                self.wf(),
                n == mat@.len(),
                n == old(mat)@.len(),
                i < n,
                j <= n,
                rows(mat@)[i as int] == rows(old(mat)@)[i as int],
                self.elim_rows(rows(old(mat)@), i as nat, lc as nat, 0)
                    == self.elim_rows(rows(mat@), i as nat, lc as nat, j as nat),
                self.elim_rows(rows(old(mat)@), i as nat, lc as nat, 0) != Outcome::<Seq<Seq<usize>>>::Panics,
            decreases n - j,
        {
            if j != i {
                let ghost m_prev = rows(mat@);
                assert(rows(mat@)[j as int] == mat@[j as int]@);
                assert(rows(mat@)[i as int] == mat@[i as int]@);
                let f = mat[j][lc];
                let mut row: Vec<usize> = Vec::new();
                mat.set_and_swap(j, &mut row);
                let ghost m_before = mat@;
                let new_row = match self.elim_row_exec(row, &mat[i], f, lc) {
                    Ok(v) => v,
                    Err(e) => return Err(e),
                };
                let mut nr = new_row;
                mat.set_and_swap(j, &mut nr);
                proof {
                    assert(rows(mat@) =~= m_prev.update(j as int, new_row@));
                }
            }
            j = j + 1;
        }
        Ok(())
    }

    /// Gauss-Jordan elimination of `mat` over the field: each row in turn gets
    /// a pivot (swapping rows when its entry is zero), is scaled so that the
    /// pivot is 1, and the pivot column is cleared in every other row.
    pub fn rref(&self, mat_in: Vec<Vec<usize>>) -> (r: Result<Vec<Vec<usize>>, &'static str>)
        requires
            self.wf(),
            self.rref_out(rows(mat_in@)) != Outcome::<Seq<Seq<usize>>>::Panics,
        ensures
            match self.rref_out(rows(mat_in@)) {
                Outcome::Val(v) => r matches Ok(w) && rows(w@) == v,
                Outcome::Rejected(m) => r matches Err(e) && e == m,
                Outcome::Panics => false,
            },
    {
        let mut mat = mat_in;
        let n = mat.len();
        let mut leading_coeff: usize = 0;
        let mut i: usize = 0;
        while i < n
            invariant
                self.wf(),
                n == mat@.len(),
                i <= n,
                i < n ==> leading_coeff < n,
                self.rref_out(rows(mat_in@)) == self.rref_from(rows(mat@), n as nat, i as nat, leading_coeff as nat),
                self.rref_out(rows(mat_in@)) != Outcome::<Seq<Seq<usize>>>::Panics,
            decreases n - i,
        {
            let ghost m1 = rows(mat@);
            let (lc2, done) = self.find_pivot(&mut mat, i, leading_coeff);
            if done {
                return Ok(mat);
            }
            leading_coeff = lc2;
            let ghost m2 = rows(mat@);
            assert(m2[i as int] == mat@[i as int]@);
            let temp = mat[i][leading_coeff];
            let mut row: Vec<usize> = Vec::new();
            mat.set_and_swap(i, &mut row);
            let scaled = match self.scale_row_exec(row, temp, leading_coeff) {
                Ok(v) => v,
                Err(e) => return Err(e),
            };
            let mut sc = scaled;
            mat.set_and_swap(i, &mut sc);
            proof {
                assert(rows(mat@) =~= m2.update(i as int, scaled@));
            }
            match self.elim_rows_exec(&mut mat, i, leading_coeff) {
                Ok(_) => (),
                Err(e) => return Err(e),
            }
            leading_coeff = leading_coeff + 1;
            if leading_coeff == n {
                return Ok(mat);
            }
            i = i + 1;
        }
        Ok(mat)
    }
}

} // verus!
