use vstd::prelude::*;
use vstd::string::StringExecFns;

use crate::arithmetic::Arithmetic;
use crate::errors::GridError;
use crate::polynomial::coeff_views;

verus! {

/// A dense matrix: `rows * cols` entries of an arithmetic type in
/// row-major order. The entry at row `r` and column `c` sits at offset
/// `r * cols + c` of the buffer.
pub struct Matrix<T: Arithmetic> {
    rows: usize,
    cols: usize,
    data: Vec<T>,
}

impl<T: Arithmetic> View for Matrix<T> {
    type V = Seq<T::V>;

    closed spec fn view(&self) -> Seq<T::V> {
        coeff_views(self.data@)
    }
}

/// Position-wise sum of two equally shaped buffers.
pub open spec fn mat_add<T: Arithmetic>(a: Seq<T::V>, b: Seq<T::V>) -> Seq<T::V> {
    Seq::new(a.len(), |i: int| T::add_model(a[i], b[i]))
}

/// Position-wise difference of two equally shaped buffers.
pub open spec fn mat_sub<T: Arithmetic>(a: Seq<T::V>, b: Seq<T::V>) -> Seq<T::V> {
    Seq::new(a.len(), |i: int| T::sub_model(a[i], b[i]))
}

/// Adding and then subtracting the same matrix restores the original:
/// `(A + B) - B == A`, entry by entry, over well-formed entries.
pub proof fn lemma_mat_add_sub_cancel<T: Arithmetic>(a: Seq<T::V>, b: Seq<T::V>)
    requires
        a.len() == b.len(),
        forall|i: int| 0 <= i < a.len() ==> T::wf_model(#[trigger] a[i]),
        forall|i: int| 0 <= i < b.len() ==> T::wf_model(#[trigger] b[i]),
    ensures
        mat_sub::<T>(mat_add::<T>(a, b), b) == a,
{
    assert forall|i: int| 0 <= i < a.len() implies mat_sub::<T>(mat_add::<T>(a, b), b)[i]
        == a[i] by {
        T::lemma_laws(a[i], b[i]);
    }
    assert(mat_sub::<T>(mat_add::<T>(a, b), b) =~= a);
}

/// The printed cells of row `r`, first `j` columns, separated by commas.
pub open spec fn row_cells<T: Arithmetic>(m: Seq<T::V>, cols: int, r: int, j: int) -> Seq<char>
    decreases j,
{
    if j <= 0 {
        Seq::empty()
    } else {
        row_cells::<T>(m, cols, r, j - 1) + (if j - 1 > 0 {
            ", "@
        } else {
            Seq::<char>::empty()
        }) + T::display_model(m[r * cols + (j - 1)])
    }
}

/// The first `r` printed rows: each row is parenthesized, and rows after
/// the first are set off by a newline and a space.
pub open spec fn rows_text<T: Arithmetic>(m: Seq<T::V>, cols: int, r: int) -> Seq<char>
    decreases r,
{
    if r <= 0 {
        Seq::empty()
    } else {
        rows_text::<T>(m, cols, r - 1) + (if r - 1 > 0 {
            "\n ("@
        } else {
            "("@
        }) + row_cells::<T>(m, cols, r - 1, cols) + ")"@
    }
}

/// The full rendering: the rows between an outer pair of parentheses; a
/// matrix with no entries prints as `()`.
pub open spec fn mat_str<T: Arithmetic>(m: Seq<T::V>, rows: int, cols: int) -> Seq<char> {
    if m.len() == 0 {
        "()"@
    } else {
        "("@ + rows_text::<T>(m, cols, rows) + ")"@
    }
}

/// A flat row-major buffer read as a square grid of side `n`.
pub open spec fn grid_of<T: Arithmetic>(data: Seq<T::V>, n: int) -> Seq<Seq<T::V>> {
    Seq::new(n as nat, |r: int| Seq::new(n as nat, |c: int| data[r * n + c]))
}

/// One entry after the Bareiss pivot step `i`: entries below and right of
/// the pivot become `m[r][c]*m[i][i] - m[r][i]*m[i][c]`, divided exactly by
/// the previous pivot once there is one; the previous pivot's row and
/// column are zeroed (bookkeeping only); everything else is untouched.
pub open spec fn bstep_val<T: Arithmetic>(g: Seq<Seq<T::V>>, i: int, r: int, c: int) -> T::V {
    if r > i && c > i {
        let v = T::sub_model(T::mul_model(g[r][c], g[i][i]), T::mul_model(g[r][i], g[i][c]));
        if i > 0 {
            T::div_model(v, g[i - 1][i - 1])
        } else {
            v
        }
    } else if i > 0 && (r == i - 1 || c == i - 1) {
        T::zero_model()
    } else {
        g[r][c]
    }
}

/// The whole grid after Bareiss pivot step `i`.
pub open spec fn bstep<T: Arithmetic>(g: Seq<Seq<T::V>>, i: int) -> Seq<Seq<T::V>> {
    Seq::new(g.len(), |r: int| Seq::new(g.len(), |c: int| bstep_val::<T>(g, i, r, c)))
}

/// The grid after the first `i` Bareiss pivot steps.
pub open spec fn bstate<T: Arithmetic>(g: Seq<Seq<T::V>>, i: int) -> Seq<Seq<T::V>>
    decreases i,
{
    if i <= 0 {
        g
    } else {
        bstep::<T>(bstate::<T>(g, i - 1), i - 1)
    }
}

/// Every pivot step before `upto` finds an acceptable previous pivot to
/// divide by.
pub open spec fn bareiss_div_ok<T: Arithmetic>(g: Seq<Seq<T::V>>, upto: int) -> bool {
    forall|t: int| 1 <= t < upto ==> T::divisor_ok(#[trigger] bstate::<T>(g, t)[t - 1][t - 1])
}

/// The Bareiss determinant of a square grid: the last entry after the
/// final pivot step.
pub open spec fn bareiss_result<T: Arithmetic>(g: Seq<Seq<T::V>>) -> T::V {
    bstate::<T>(g, g.len() - 1)[g.len() - 1][g.len() - 1]
}

/// The grid during the update phase of pivot step `i`: rows above `j`
/// are fully rewritten right of the pivot, row `j` is rewritten up to
/// column `k`, and everything else still holds the values of the step's
/// starting grid `g`.
pub open spec fn update_phase_val<T: Arithmetic>(
    g: Seq<Seq<T::V>>,
    i: int,
    j: int,
    k: int,
    rr: int,
    cc: int,
) -> T::V {
    if (i < rr < j && cc > i) || (rr == j && i < cc < k) {
        bstep_val::<T>(g, i, rr, cc)
    } else {
        g[rr][cc]
    }
}

/// The grid during the zeroing phase of pivot step `i` (for `i > 0`):
/// below-right entries are rewritten, the previous pivot's column is
/// zeroed down to row `z1` and its row out to column `z2`, and everything
/// else still holds the values of the step's starting grid `g`.
pub open spec fn zero_phase_val<T: Arithmetic>(
    g: Seq<Seq<T::V>>,
    i: int,
    z1: int,
    z2: int,
    rr: int,
    cc: int,
) -> T::V {
    if rr > i && cc > i {
        bstep_val::<T>(g, i, rr, cc)
    } else if (cc == i - 1 && rr < z1) || (rr == i - 1 && cc < z2) {
        T::zero_model()
    } else {
        g[rr][cc]
    }
}

/// Pivot steps keep the grid square of the same side.
proof fn lemma_bstate_len<T: Arithmetic>(g: Seq<Seq<T::V>>, i: int)
    ensures
        bstate::<T>(g, i).len() == g.len(),
        forall|r: int|
            0 <= r < g.len() && i > 0 ==> (#[trigger] bstate::<T>(g, i)[r]).len() == g.len(),
    decreases i,
{
    if i > 0 {
        lemma_bstate_len::<T>(g, i - 1);
    }
}

/// Row-major offsets of in-range positions stay inside the buffer.
proof fn lemma_rm_bound(n_rows: int, n_cols: int, r: int, c: int)
    by (nonlinear_arith)
    requires
        0 <= r < n_rows,
        0 <= c < n_cols,
    ensures
        0 <= r * n_cols + c < n_rows * n_cols,
{
}

/// The row-major offset determines the position: distinct positions never
/// share an offset.
proof fn lemma_rm_inj(n_cols: int, r1: int, c1: int, r2: int, c2: int)
    by (nonlinear_arith)
    requires
        0 <= c1 < n_cols,
        0 <= c2 < n_cols,
        r1 >= 0,
        r2 >= 0,
        r1 * n_cols + c1 == r2 * n_cols + c2,
    ensures
        r1 == r2,
        c1 == c2,
{
}

/// The row-major offset of a position, computed without overflow.
fn rm_index(rows: usize, cols: usize, r: usize, c: usize) -> (idx: usize)
    requires
        r < rows,
        c < cols,
        rows * cols <= usize::MAX,
    ensures
        idx == r * cols + c,
        idx < rows * cols,
{
    proof {
        lemma_rm_bound(rows as int, cols as int, r as int, c as int);
    }
    r * cols + c
}

impl<T: Arithmetic> Matrix<T> {
    /// The shape invariant: the buffer holds exactly `rows * cols` entries.
    pub open spec fn wf(&self) -> bool {
        self@.len() == self.spec_rows() * self.spec_cols()
    }

    pub closed spec fn spec_rows(&self) -> int {
        self.rows as int
    }

    pub closed spec fn spec_cols(&self) -> int {
        self.cols as int
    }

    /// The model of the entry at row `r`, column `c`.
    pub open spec fn entry(&self, r: int, c: int) -> T::V {
        self@[r * self.spec_cols() + c]
    }

    pub fn rows(&self) -> (r: usize)
        ensures
            r == self.spec_rows(),
    {
        self.rows
    }

    pub fn cols(&self) -> (r: usize)
        ensures
            r == self.spec_cols(),
    {
        self.cols
    }

    /// Wraps an explicit row-major buffer of the stated shape.
    pub fn from_data(rows: usize, cols: usize, data: Vec<T>) -> (r: Matrix<T>)
        requires
            data@.len() == rows * cols,
        ensures
            r.wf(),
            r.spec_rows() == rows,
            r.spec_cols() == cols,
            r@ == coeff_views(data@),
    {
        Matrix { rows, cols, data }
    }

    /// A square matrix with every entry a copy of `value`.
    pub fn new(size: usize, value: &T) -> (r: Matrix<T>)
        ensures
            r.wf(),
            r.spec_rows() == size,
            r.spec_cols() == size,
            forall|i: int| 0 <= i < r@.len() ==> r@[i] == value@,
    {
        let mut data: Vec<T> = Vec::new();
        let mut i: usize = 0;
        while i < size
            invariant
                i <= size,
                data@.len() == i * size,
                forall|t: int| 0 <= t < data@.len() ==> data@[t]@ == value@,
            decreases size - i,
        {
            let mut j: usize = 0;
            while j < size
                invariant
                    i < size,
                    j <= size,
                    data@.len() == i * size + j,
                    forall|t: int| 0 <= t < data@.len() ==> data@[t]@ == value@,
                decreases size - j,
            {
                data.push(value.clone_val());
                j = j + 1;
            }
            proof {
                assert(i * size + size == (i + 1) * size) by (nonlinear_arith);
            }
            i = i + 1;
        }
        let r = Matrix { rows: size, cols: size, data };
        proof {
            assert forall|t: int| 0 <= t < r@.len() implies r@[t] == value@ by {
                assert(r@[t] == r.data@[t]@);
            }
        }
        r
    }

    /// An independent deep copy.
    pub fn clone_matrix(&self) -> (r: Matrix<T>)
        ensures
            r@ == self@,
            r.spec_rows() == self.spec_rows(),
            r.spec_cols() == self.spec_cols(),
    {
        let r = Matrix {
            rows: self.rows,
            cols: self.cols,
            data: crate::arithmetic::clone_values(&self.data),
        };
        proof {
            assert(r@ =~= self@);
        }
        r
    }

    pub fn is_square(&self) -> (r: bool)
        ensures
            r == (self.spec_rows() == self.spec_cols()),
    {
        self.rows == self.cols
    }

    /// The entry at `row` and `col`; positions past either bound are
    /// reported, and are the only failure.
    pub fn get(&self, row: usize, col: usize) -> (r: Result<&T, GridError>)
        requires
            self.wf(),
        ensures
            r is Ok <==> row < self.spec_rows() && col < self.spec_cols(),
            r matches Ok(v) ==> v@ == self.entry(row as int, col as int),
            r is Err ==> r == Err::<&T, GridError>(GridError::IndexOutOfBounds),
    {
        if row >= self.rows || col >= self.cols {
            return Err(GridError::IndexOutOfBounds);
        }
        let len = self.data.len();
        assert(self.rows * self.cols <= usize::MAX) by {
            assert(len == self.data@.len());
        }
        let idx = rm_index(self.rows, self.cols, row, col);
        Ok(&self.data[idx])
    }

    /// Replaces the entry at `row` and `col`; positions past either bound
    /// are reported, and are the only failure (the matrix is then
    /// unchanged).
    pub fn set(&mut self, row: usize, col: usize, value: T) -> (r: Result<(), GridError>)
        requires
            old(self).wf(),
        ensures
            final(self).wf(),
            final(self).spec_rows() == old(self).spec_rows(),
            final(self).spec_cols() == old(self).spec_cols(),
            r is Ok <==> row < old(self).spec_rows() && col < old(self).spec_cols(),
            r is Ok ==> final(self)@ == old(self)@.update(
                row * old(self).spec_cols() + col,
                value@,
            ),
            r is Err ==> r == Err::<(), GridError>(GridError::IndexOutOfBounds) && final(self)@
                == old(self)@,
    {
        if row >= self.rows || col >= self.cols {
            return Err(GridError::IndexOutOfBounds);
        }
        let len = self.data.len();
        assert(self.rows * self.cols <= usize::MAX) by {
            assert(len == self.data@.len());
        }
        let idx = rm_index(self.rows, self.cols, row, col);
        let e = &mut self.data[idx];
        *e = value;
        proof {
            assert(self@ =~= old(self)@.update(row * old(self).spec_cols() + col, value@));
        }
        Ok(())
    }

    /// The determinant, by Bareiss fraction-free elimination: exact for
    /// any entry type with exact division. A non-square matrix is
    /// reported as such; an elimination step whose previous pivot cannot
    /// serve as a divisor is reported as a division by zero. Otherwise
    /// the result is the final entry of the elimination, `bareiss_result`.
    pub fn det(&self) -> (r: Result<T, GridError>)
        requires
            self.wf(),
            self.spec_rows() == self.spec_cols() ==> self.spec_rows() >= 1,
        ensures
            self.spec_rows() != self.spec_cols() ==> r == Err::<T, GridError>(
                GridError::NonSquareMatrix,
            ),
            self.spec_rows() == self.spec_cols() && bareiss_div_ok::<T>(
                grid_of::<T>(self@, self.spec_rows()),
                self.spec_rows() - 1,
            ) ==> (r matches Ok(v) && v@ == bareiss_result::<T>(
                grid_of::<T>(self@, self.spec_rows()),
            )),
            self.spec_rows() == self.spec_cols() && !bareiss_div_ok::<T>(
                grid_of::<T>(self@, self.spec_rows()),
                self.spec_rows() - 1,
            ) ==> r == Err::<T, GridError>(GridError::DivisionByZero),
    {
        if self.rows != self.cols {
            return Err(GridError::NonSquareMatrix);
        }
        let n = self.rows;
        let len = self.data.len();
        let mut data = crate::arithmetic::clone_values(&self.data);
        let ghost g0 = grid_of::<T>(self@, n as int);
        proof {
            lemma_bstate_len::<T>(g0, 0);
            assert forall|rr: int, cc: int|
                0 <= rr < n && 0 <= cc < n implies data@[rr * (n as int) + cc]@
                == #[trigger] bstate::<T>(g0, 0)[rr][cc] by {
                lemma_rm_bound(n as int, n as int, rr, cc);
            }
        }
        let mut i: usize = 0;
        while i < n - 1
            invariant
                n >= 1,
                n == self.spec_rows(),
                self.spec_rows() == self.spec_cols(),
                len == n * n,
                data@.len() == len,
                g0 == grid_of::<T>(self@, n as int),
                g0.len() == n,
                i <= n - 1,
                bareiss_div_ok::<T>(g0, i as int),
                forall|rr: int, cc: int|
                    0 <= rr < n && 0 <= cc < n ==> data@[rr * (n as int) + cc]@
                        == #[trigger] bstate::<T>(g0, i as int)[rr][cc],
            decreases n - 1 - i,
        {
            let ghost cur = bstate::<T>(g0, i as int);
            proof {
                lemma_bstate_len::<T>(g0, i as int);
            }
            if i > 0 {
                let pidx = rm_index(n, n, i - 1, i - 1);
                if !data[pidx].is_divisor_ok() {
                    proof {
                        assert(!T::divisor_ok(bstate::<T>(g0, i as int)[i as int - 1][i as int
                            - 1]));
                        assert(!bareiss_div_ok::<T>(g0, n as int - 1));
                    }
                    return Err(GridError::DivisionByZero);
                }
            }
            proof {
                if i > 0 {
                    assert(T::divisor_ok(bstate::<T>(g0, i as int)[i as int - 1][i as int - 1]));
                }
                assert forall|t: int| 1 <= t < i as int + 1 implies T::divisor_ok(
                    #[trigger] bstate::<T>(g0, t)[t - 1][t - 1],
                ) by {
                    if t < i as int {
                        assert(T::divisor_ok(bstate::<T>(g0, t)[t - 1][t - 1]));
                    }
                }
            }
            let mut j: usize = i + 1;
            while j < n
                invariant
                    n >= 1,
                    len == n * n,
                    data@.len() == len,
                    i < n - 1,
                    i < j,
                    j <= n,
                    cur == bstate::<T>(g0, i as int),
                    cur.len() == n,
                    forall|rr: int| 0 <= rr < n ==> (#[trigger] cur[rr]).len() == n,
                    i > 0 ==> T::divisor_ok(cur[i as int - 1][i as int - 1]),
                    forall|rr: int, cc: int|
                        0 <= rr < n && 0 <= cc < n ==> data@[rr * (n as int) + cc]@
                            == #[trigger] update_phase_val::<T>(
                            cur,
                            i as int,
                            j as int,
                            i as int + 1,
                            rr,
                            cc,
                        ),
                decreases n - j,
            {
                let mut k: usize = i + 1;
                while k < n
                    invariant
                        n >= 1,
                        len == n * n,
                        data@.len() == len,
                        i < n - 1,
                        i < j < n,
                        i < k,
                        k <= n,
                        cur == bstate::<T>(g0, i as int),
                        cur.len() == n,
                        forall|rr: int| 0 <= rr < n ==> (#[trigger] cur[rr]).len() == n,
                        i > 0 ==> T::divisor_ok(cur[i as int - 1][i as int - 1]),
                        forall|rr: int, cc: int|
                            0 <= rr < n && 0 <= cc < n ==> data@[rr * (n as int) + cc]@
                                == #[trigger] update_phase_val::<T>(
                                cur,
                                i as int,
                                j as int,
                                k as int,
                                rr,
                                cc,
                            ),
                    decreases n - k,
                {
                    let idx_jk = rm_index(n, n, j, k);
                    let idx_ii = rm_index(n, n, i, i);
                    let idx_ji = rm_index(n, n, j, i);
                    let idx_ik = rm_index(n, n, i, k);
                    proof {
                        assert(data@[idx_jk as int]@ == update_phase_val::<T>(
                            cur,
                            i as int,
                            j as int,
                            k as int,
                            j as int,
                            k as int,
                        ));
                        assert(data@[idx_ii as int]@ == update_phase_val::<T>(
                            cur,
                            i as int,
                            j as int,
                            k as int,
                            i as int,
                            i as int,
                        ));
                        assert(data@[idx_ji as int]@ == update_phase_val::<T>(
                            cur,
                            i as int,
                            j as int,
                            k as int,
                            j as int,
                            i as int,
                        ));
                        assert(data@[idx_ik as int]@ == update_phase_val::<T>(
                            cur,
                            i as int,
                            j as int,
                            k as int,
                            i as int,
                            k as int,
                        ));
                        if i > 0 {
                            assert(data@[(i as int - 1) * (n as int) + (i as int - 1)]@
                                == update_phase_val::<T>(
                                cur,
                                i as int,
                                j as int,
                                k as int,
                                i as int - 1,
                                i as int - 1,
                            ));
                            lemma_rm_bound(n as int, n as int, i as int - 1, i as int - 1);
                        }
                    }
                    let a = &data[idx_jk];
                    let mut v = a.mul_val(&data[idx_ii]);
                    let b = &data[idx_ji];
                    let v2 = b.mul_val(&data[idx_ik]);
                    v.sub_in_place(&v2);
                    if i > 0 {
                        let idx_p = rm_index(n, n, i - 1, i - 1);
                        v.div_in_place(&data[idx_p]);
                    }
                    proof {
                        assert(v@ == bstep_val::<T>(cur, i as int, j as int, k as int));
                    }
                    let ghost dpre = data@;
                    let e = &mut data[idx_jk];
                    *e = v;
                    proof {
                        assert forall|rr: int, cc: int|
                            0 <= rr < n && 0 <= cc < n implies data@[rr * (n as int) + cc]@
                            == #[trigger] update_phase_val::<T>(
                            cur,
                            i as int,
                            j as int,
                            k as int + 1,
                            rr,
                            cc,
                        ) by {
                            lemma_rm_bound(n as int, n as int, rr, cc);
                            let idx = rr * (n as int) + cc;
                            assert(dpre[idx]@ == update_phase_val::<T>(
                                cur,
                                i as int,
                                j as int,
                                k as int,
                                rr,
                                cc,
                            ));
                            if idx == idx_jk as int {
                                lemma_rm_inj(n as int, rr, cc, j as int, k as int);
                            } else {
                                assert(data@[idx] == dpre[idx]);
                            }
                        }
                    }
                    k = k + 1;
                }
                proof {
                    assert forall|rr: int, cc: int|
                        0 <= rr < n && 0 <= cc < n implies data@[rr * (n as int) + cc]@
                        == #[trigger] update_phase_val::<T>(
                        cur,
                        i as int,
                        j as int + 1,
                        i as int + 1,
                        rr,
                        cc,
                    ) by {
                        assert(data@[rr * (n as int) + cc]@ == update_phase_val::<T>(
                            cur,
                            i as int,
                            j as int,
                            n as int,
                            rr,
                            cc,
                        ));
                    }
                }
                j = j + 1;
            }
            if i > 0 {
                proof {
                    assert forall|rr: int, cc: int|
                        0 <= rr < n && 0 <= cc < n implies data@[rr * (n as int) + cc]@
                        == #[trigger] zero_phase_val::<T>(cur, i as int, 0, 0, rr, cc) by {
                        assert(data@[rr * (n as int) + cc]@ == update_phase_val::<T>(
                            cur,
                            i as int,
                            n as int,
                            i as int + 1,
                            rr,
                            cc,
                        ));
                    }
                }
                let mut j2: usize = 0;
                while j2 < n
                    invariant
                        n >= 1,
                        len == n * n,
                        data@.len() == len,
                        0 < i < n - 1,
                        j2 <= n,
                        cur == bstate::<T>(g0, i as int),
                        cur.len() == n,
                        forall|rr: int| 0 <= rr < n ==> (#[trigger] cur[rr]).len() == n,
                        forall|rr: int, cc: int|
                            0 <= rr < n && 0 <= cc < n ==> data@[rr * (n as int) + cc]@
                                == #[trigger] zero_phase_val::<T>(
                                cur,
                                i as int,
                                j2 as int,
                                0,
                                rr,
                                cc,
                            ),
                    decreases n - j2,
                {
                    let za = rm_index(n, n, j2, i - 1);
                    let z = T::zero();
                    let ghost dpre = data@;
                    let e = &mut data[za];
                    *e = z;
                    proof {
                        assert forall|rr: int, cc: int|
                            0 <= rr < n && 0 <= cc < n implies data@[rr * (n as int) + cc]@
                            == #[trigger] zero_phase_val::<T>(
                            cur,
                            i as int,
                            j2 as int + 1,
                            0,
                            rr,
                            cc,
                        ) by {
                            lemma_rm_bound(n as int, n as int, rr, cc);
                            let idx = rr * (n as int) + cc;
                            assert(dpre[idx]@ == zero_phase_val::<T>(
                                cur,
                                i as int,
                                j2 as int,
                                0,
                                rr,
                                cc,
                            ));
                            if idx == za as int {
                                lemma_rm_inj(n as int, rr, cc, j2 as int, i as int - 1);
                            } else {
                                assert(data@[idx] == dpre[idx]);
                            }
                        }
                    }
                    j2 = j2 + 1;
                }
                let mut j3: usize = 0;
                while j3 < n
                    invariant
                        n >= 1,
                        len == n * n,
                        data@.len() == len,
                        0 < i < n - 1,
                        j3 <= n,
                        cur == bstate::<T>(g0, i as int),
                        cur.len() == n,
                        forall|rr: int| 0 <= rr < n ==> (#[trigger] cur[rr]).len() == n,
                        forall|rr: int, cc: int|
                            0 <= rr < n && 0 <= cc < n ==> data@[rr * (n as int) + cc]@
                                == #[trigger] zero_phase_val::<T>(
                                cur,
                                i as int,
                                n as int,
                                j3 as int,
                                rr,
                                cc,
                            ),
                    decreases n - j3,
                {
                    let zb = rm_index(n, n, i - 1, j3);
                    let z = T::zero();
                    let ghost dpre = data@;
                    let e = &mut data[zb];
                    *e = z;
                    proof {
                        assert forall|rr: int, cc: int|
                            0 <= rr < n && 0 <= cc < n implies data@[rr * (n as int) + cc]@
                            == #[trigger] zero_phase_val::<T>(
                            cur,
                            i as int,
                            n as int,
                            j3 as int + 1,
                            rr,
                            cc,
                        ) by {
                            lemma_rm_bound(n as int, n as int, rr, cc);
                            let idx = rr * (n as int) + cc;
                            assert(dpre[idx]@ == zero_phase_val::<T>(
                                cur,
                                i as int,
                                n as int,
                                j3 as int,
                                rr,
                                cc,
                            ));
                            if idx == zb as int {
                                lemma_rm_inj(n as int, rr, cc, i as int - 1, j3 as int);
                            } else {
                                assert(data@[idx] == dpre[idx]);
                            }
                        }
                    }
                    j3 = j3 + 1;
                }
            }
            proof {
                lemma_bstate_len::<T>(g0, i as int + 1);
                assert forall|rr: int, cc: int|
                    0 <= rr < n && 0 <= cc < n implies data@[rr * (n as int) + cc]@
                    == #[trigger] bstate::<T>(g0, i as int + 1)[rr][cc] by {
                    if i > 0 {
                        assert(data@[rr * (n as int) + cc]@ == zero_phase_val::<T>(
                            cur,
                            i as int,
                            n as int,
                            n as int,
                            rr,
                            cc,
                        ));
                    } else {
                        assert(data@[rr * (n as int) + cc]@ == update_phase_val::<T>(
                            cur,
                            i as int,
                            n as int,
                            i as int + 1,
                            rr,
                            cc,
                        ));
                    }
                    assert(bstate::<T>(g0, i as int + 1) == bstep::<T>(cur, i as int));
                    assert(bstep::<T>(cur, i as int)[rr][cc] == bstep_val::<T>(
                        cur,
                        i as int,
                        rr,
                        cc,
                    ));
                }
            }
            i = i + 1;
        }
        let ridx = rm_index(n, n, n - 1, n - 1);
        let out = data[ridx].clone_val();
        proof {
            assert(data@[ridx as int]@ == bstate::<T>(g0, n as int - 1)[n as int - 1][n as int
                - 1]);
            assert(out@ == bareiss_result::<T>(g0));
        }
        Ok(out)
    }

    /// The text form: each row parenthesized with `, ` between entries,
    /// rows separated by a newline and a space, all between an outer pair
    /// of parentheses; a matrix with no entries prints as `()`.
    #[verifier::rlimit(50)]
    pub fn to_string(&self) -> (r: String)
        requires
            self.wf(),
        ensures
            r@ == mat_str::<T>(self@, self.spec_rows(), self.spec_cols()),
    {
        let mut s = String::new();
        let ghost m = self@;
        if self.data.len() == 0 {
            s.append("()");
            proof {
                assert(s@ =~= mat_str::<T>(m, self.spec_rows(), self.spec_cols()));
            }
            return s;
        }
        let rows = self.rows;
        let cols = self.cols;
        proof {
            assert(rows >= 1 && cols >= 1) by (nonlinear_arith)
                requires
                    rows as int * cols as int == m.len(),
                    m.len() > 0,
            ;
        }
        s.append("(");
        proof {
            assert(s@ =~= "("@ + rows_text::<T>(m, cols as int, 0));
        }
        let mut r: usize = 0;
        while r < rows
            invariant
                rows == self.spec_rows(),
                cols == self.spec_cols(),
                self.wf(),
                m == self@,
                rows >= 1,
                cols >= 1,
                r <= rows,
                s@ == "("@ + rows_text::<T>(m, cols as int, r as int),
            decreases rows - r,
        {
            let mut t = String::new();
            if r > 0 {
                t.append("\n (");
            } else {
                t.append("(");
            }
            proof {
                assert(t@ =~= (if r > 0 {
                    "\n ("@
                } else {
                    "("@
                }) + row_cells::<T>(m, cols as int, r as int, 0));
            }
            let mut c: usize = 0;
            while c < cols
                invariant
                    rows == self.spec_rows(),
                    cols == self.spec_cols(),
                    self.wf(),
                    m == self@,
                    r < rows,
                    cols >= 1,
                    c <= cols,
                    t@ == (if r > 0 {
                        "\n ("@
                    } else {
                        "("@
                    }) + row_cells::<T>(m, cols as int, r as int, c as int),
                decreases cols - c,
            {
                if c > 0 {
                    t.append(", ");
                }
                let len = self.data.len();
                assert(rows * cols <= usize::MAX) by {
                    assert(len == self.data@.len());
                }
                let idx = rm_index(rows, cols, r, c);
                let cs = self.data[idx].to_display();
                t.append(cs.as_str());
                proof {
                    assert(row_cells::<T>(m, cols as int, r as int, c as int + 1)
                        == row_cells::<T>(m, cols as int, r as int, c as int) + (if c > 0 {
                        ", "@
                    } else {
                        Seq::<char>::empty()
                    }) + T::display_model(m[r as int * cols as int + c as int]));
                    assert(t@ =~= (if r > 0 {
                        "\n ("@
                    } else {
                        "("@
                    }) + row_cells::<T>(m, cols as int, r as int, c as int + 1));
                }
                c = c + 1;
            }
            t.append(")");
            s.append(t.as_str());
            proof {
                assert(rows_text::<T>(m, cols as int, r as int + 1) == rows_text::<T>(
                    m,
                    cols as int,
                    r as int,
                ) + (if r > 0 {
                    "\n ("@
                } else {
                    "("@
                }) + row_cells::<T>(m, cols as int, r as int, cols as int) + ")"@);
                assert(s@ =~= "("@ + rows_text::<T>(m, cols as int, r as int + 1));
            }
            r = r + 1;
        }
        s.append(")");
        proof {
            assert(s@ =~= mat_str::<T>(m, self.spec_rows(), self.spec_cols()));
        }
        s
    }

    /// Position-wise addition; shapes must match exactly, and a mismatch
    /// is the only failure.
    pub fn add(&self, rhs: &Matrix<T>) -> (r: Result<Matrix<T>, GridError>)
        requires
            self.wf(),
            rhs.wf(),
        ensures
            r is Ok <==> self.spec_rows() == rhs.spec_rows() && self.spec_cols()
                == rhs.spec_cols(),
            r matches Ok(m) ==> m.wf() && m.spec_rows() == self.spec_rows() && m.spec_cols()
                == self.spec_cols() && m@ == mat_add::<T>(self@, rhs@),
            r is Err ==> r == Err::<Matrix<T>, GridError>(GridError::DimensionMismatch),
    {
        if self.rows != rhs.rows || self.cols != rhs.cols {
            return Err(GridError::DimensionMismatch);
        }
        let mut m = self.clone_matrix();
        match m.add_assign(rhs) {
            Ok(_) => {},
            Err(_) => {
                proof {
                    assert(false);
                }
            },
        }
        proof {
            assert(m@ =~= mat_add::<T>(self@, rhs@));
        }
        Ok(m)
    }

    /// Position-wise addition in place; shapes must match exactly, and a
    /// mismatch is the only failure (the matrix is then unchanged).
    pub fn add_assign(&mut self, rhs: &Matrix<T>) -> (r: Result<(), GridError>)
        requires
            old(self).wf(),
            rhs.wf(),
        ensures
            final(self).wf(),
            final(self).spec_rows() == old(self).spec_rows(),
            final(self).spec_cols() == old(self).spec_cols(),
            r is Ok <==> old(self).spec_rows() == rhs.spec_rows() && old(self).spec_cols()
                == rhs.spec_cols(),
            r is Ok ==> final(self)@ == mat_add::<T>(old(self)@, rhs@),
            r is Err ==> r == Err::<(), GridError>(GridError::DimensionMismatch) && final(self)@
                == old(self)@,
    {
        if self.rows != rhs.rows || self.cols != rhs.cols {
            return Err(GridError::DimensionMismatch);
        }
        let n = self.data.len();
        let mut i: usize = 0;
        while i < n
            invariant
                n == self.data@.len(),
                self.data@.len() == old(self).data@.len(),
                self.rows == old(self).rows,
                self.cols == old(self).cols,
                n == rhs.data@.len(),
                i <= n,
                forall|j: int|
                    0 <= j < i ==> self.data@[j]@ == T::add_model(old(self)@[j], rhs@[j]),
                forall|j: int| i <= j < n ==> self.data@[j]@ == old(self)@[j],
            decreases n - i,
        {
            let e = &mut self.data[i];
            e.add_in_place(&rhs.data[i]);
            i = i + 1;
        }
        proof {
            assert(self@ =~= mat_add::<T>(old(self)@, rhs@));
        }
        Ok(())
    }

    /// Position-wise subtraction; shapes must match exactly, and a
    /// mismatch is the only failure.
    pub fn sub(&self, rhs: &Matrix<T>) -> (r: Result<Matrix<T>, GridError>)
        requires
            self.wf(),
            rhs.wf(),
        ensures
            r is Ok <==> self.spec_rows() == rhs.spec_rows() && self.spec_cols()
                == rhs.spec_cols(),
            r matches Ok(m) ==> m.wf() && m.spec_rows() == self.spec_rows() && m.spec_cols()
                == self.spec_cols() && m@ == mat_sub::<T>(self@, rhs@),
            r is Err ==> r == Err::<Matrix<T>, GridError>(GridError::DimensionMismatch),
    {
        if self.rows != rhs.rows || self.cols != rhs.cols {
            return Err(GridError::DimensionMismatch);
        }
        let mut m = self.clone_matrix();
        let n = m.data.len();
        let mut i: usize = 0;
        while i < n
            invariant
                n == m.data@.len(),
                m.rows == self.rows,
                m.cols == self.cols,
                n == rhs.data@.len(),
                n == self.data@.len(),
                i <= n,
                forall|j: int| 0 <= j < i ==> m.data@[j]@ == T::sub_model(self@[j], rhs@[j]),
                forall|j: int| i <= j < n ==> m.data@[j]@ == self@[j],
            decreases n - i,
        {
            let e = &mut m.data[i];
            e.sub_in_place(&rhs.data[i]);
            i = i + 1;
        }
        proof {
            assert(m@ =~= mat_sub::<T>(self@, rhs@));
        }
        Ok(m)
    }
}

} // verus!
