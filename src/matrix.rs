//! Dense matrices over the field: transpose, product, echelon reduction,
//! and the MDS matrix derived from them.

use crate::felt::{all_wf, fmul, fpow, inverse_of, modulus, BaseFelt};
use vstd::prelude::*;

verus! {

/// `m` has `rows` rows of `cols` well-formed entries each.
pub open spec fn is_matrix(m: Seq<Vec<BaseFelt>>, rows: nat, cols: nat) -> bool {
    &&& m.len() == rows
    &&& forall|i: int| 0 <= i < rows ==> (#[trigger] m[i])@.len() == cols && all_wf(m[i]@)
}

/// All rows of `m` are as long as the first.
pub open spec fn is_rectangular(m: Seq<Vec<BaseFelt>>) -> bool {
    m.len() > 0 ==> is_matrix(m, m.len(), m[0]@.len())
}

/// The sum over `t < k` of `a[t] * b[t][j]`, reduced term by term.
pub open spec fn dot(a: Seq<BaseFelt>, b: Seq<Vec<BaseFelt>>, j: int, k: nat) -> int
    decreases k,
{
    if k == 0 {
        0
    } else {
        (dot(a, b, j, (k - 1) as nat) + fmul(a[k - 1]@, b[k - 1]@[j]@)) % modulus()
    }
}


/// The values of a matrix, row by row.
pub open spec fn mview(m: Seq<Vec<BaseFelt>>) -> Seq<Seq<int>> {
    Seq::new(m.len(), |i: int| m[i]@.map_values(|x: BaseFelt| x@))
}

/// The pivot search from row `r` and column `lead`: the first column from
/// `lead` on with a nonzero entry at or below row `r`, and the first such row.
pub open spec fn find_pivot(a: Seq<Seq<int>>, cols: int, r: int, lead: int, i: int) -> Option<
    (int, int),
>
    decreases cols - lead, a.len() - i,
{
    if !(0 <= r <= i < a.len() && 0 <= lead < cols) {
        None
    } else if a[i][lead] != 0 {
        Some((i, lead))
    } else if i + 1 == a.len() {
        if lead + 1 == cols {
            None
        } else {
            find_pivot(a, cols, r, lead + 1, r)
        }
    } else {
        find_pivot(a, cols, r, lead, i + 1)
    }
}

/// Rows `i` and `r` exchanged.
pub open spec fn swap_rows(a: Seq<Seq<int>>, i: int, r: int) -> Seq<Seq<int>> {
    a.update(i, a[r]).update(r, a[i])
}

/// Each entry of `row` times `inv`.
pub open spec fn scale_row(row: Seq<int>, inv: int) -> Seq<int> {
    Seq::new(row.len(), |j: int| fmul(row[j], inv))
}

/// Entries of `row` from column `lead` on overwritten by its value at `lead`
/// times the pivot row.
pub open spec fn overwrite_row(row: Seq<int>, prow: Seq<int>, lead: int) -> Seq<int> {
    Seq::new(row.len(), |j: int| if j >= lead { fmul(row[lead], prow[j]) } else { row[j] })
}

/// Every row but the pivot row `r` overwritten.
pub open spec fn eliminate(a: Seq<Seq<int>>, r: int, lead: int) -> Seq<Seq<int>> {
    Seq::new(a.len(), |k: int| if k == r { a[k] } else { overwrite_row(a[k], a[r], lead) })
}

/// The reduction of `a` from row `r` and column `lead` on.
pub open spec fn echelon_from(a: Seq<Seq<int>>, rows: int, cols: int, r: int, lead: int) -> Seq<
    Seq<int>,
>
    decreases rows - r,
{
    if r >= rows || r < 0 || cols <= lead {
        a
    } else {
        match find_pivot(a, cols, r, lead, r) {
            None => a,
            Some((i, l)) => {
                let b = swap_rows(a, i, r);
                match inverse_of(b[r][l]) {
                    None => b,
                    Some(inv) => {
                        let c = b.update(r, scale_row(b[r], inv));
                        echelon_from(eliminate(c, r, l), rows, cols, r + 1, l + 1)
                    },
                }
            },
        }
    }
}

/// The reduced form of a matrix with `cols` columns.
pub open spec fn echelon(a: Seq<Seq<int>>, cols: int) -> Seq<Seq<int>> {
    echelon_from(a, a.len() as int, cols, 0, 0)
}

/// The `rows x 2 rows` matrix with entry `(i, j)` equal to `g^(i*j)`.
pub open spec fn vandermonde(g: int, rows: nat) -> Seq<Seq<int>> {
    Seq::new(rows, |i: int| Seq::new(2 * rows, |j: int| fpow(g, (i * j) as nat)))
}


/// The MDS matrix of width `m` for generator `g`: entry `(c, k)` is entry
/// `(k, m + c)` of the reduced `vandermonde(g, m)`.
pub open spec fn mds_of(g: int, m: nat) -> Seq<Seq<int>> {
    let e = echelon(vandermonde(g, m), 2 * m as int);
    Seq::new(m, |c: int| Seq::new(m, |k: int| e[k][m + c]))
}

/// The MDS matrix depends on the generator and the width alone, and is
/// square.
pub proof fn lemma_mds_deterministic(g: int, m: nat, a: Seq<Vec<BaseFelt>>, b: Seq<Vec<BaseFelt>>)
    requires
        mview(a) == mds_of(g, m),
        mview(b) == mds_of(g, m),
    ensures
        mview(a) == mview(b),
        mview(a).len() == m,
        forall|c: int| 0 <= c < m ==> (#[trigger] mview(a)[c]).len() == m,
{
}

/// Swaps rows and columns; an empty matrix stays empty.
pub fn transpose(m: &Vec<Vec<BaseFelt>>) -> (r: Vec<Vec<BaseFelt>>)
    requires
        is_rectangular(m@),
    ensures
        m.len() == 0 || m[0].len() == 0 ==> r.len() == 0,
        m.len() > 0 && m[0].len() > 0 ==> {
            &&& is_matrix(r@, m[0].len() as nat, m.len() as nat)
            &&& forall|c: int, k: int|
                0 <= c < m[0].len() && 0 <= k < m.len() ==> (#[trigger] r[c]@[k]) == m[k]@[c]
        },
{
    let rows = m.len();
    if rows == 0 {
        return Vec::new();
    }
    let cols = m[0].len();
    if cols == 0 {
        return Vec::new();
    }
    let mut res: Vec<Vec<BaseFelt>> = Vec::new();
    let mut c: usize = 0;
    while c < cols
        invariant
            rows == m.len(),
            cols == m[0].len(),
            is_matrix(m@, rows as nat, cols as nat),
            c <= cols,
            res.len() == c,
            forall|c2: int| 0 <= c2 < c ==> (#[trigger] res[c2])@.len() == rows,
            forall|c2: int, k: int|
                0 <= c2 < c && 0 <= k < rows ==> (#[trigger] res[c2]@[k]) == m[k]@[c2],
        decreases cols - c,
    {
        let mut col: Vec<BaseFelt> = Vec::new();
        let mut k: usize = 0;
        while k < rows
            invariant
                rows == m.len(),
                cols == m[0].len(),
                is_matrix(m@, rows as nat, cols as nat),
                c < cols,
                k <= rows,
                col.len() == k,
                forall|k2: int| 0 <= k2 < k ==> (#[trigger] col[k2]) == m[k2]@[c as int],
            decreases rows - k,
        {
            assert(m[k as int]@.len() == cols);
            col.push(m[k][c]);
            k += 1;
        }
        res.push(col);
        c += 1;
    }
    proof {
        assert forall|c2: int| 0 <= c2 < cols implies all_wf(#[trigger] res[c2]@) by {
            assert forall|k2: int| 0 <= k2 < rows implies (#[trigger] res[c2]@[k2]).wf() by {
                assert(res[c2]@[k2] == m[k2]@[c2]);
                assert(all_wf(m[k2]@));
            }
        }
    }
    res
}

/// Matrix product; an empty operand gives an empty result.
pub fn matrix_mul(a: &Vec<Vec<BaseFelt>>, b: &Vec<Vec<BaseFelt>>) -> (r: Vec<Vec<BaseFelt>>)
    requires
        is_rectangular(a@),
        is_rectangular(b@),
        a.len() > 0 && a[0].len() > 0 && b.len() > 0 && b[0].len() > 0 ==> a[0].len() == b.len(),
    ensures
        a.len() == 0 || a[0].len() == 0 || b.len() == 0 || b[0].len() == 0 ==> r.len() == 0,
        a.len() > 0 && a[0].len() > 0 && b.len() > 0 && b[0].len() > 0 ==> {
            &&& is_matrix(r@, a.len() as nat, b[0].len() as nat)
            &&& forall|i: int, j: int|
                0 <= i < a.len() && 0 <= j < b[0].len() ==> (#[trigger] r[i]@[j])@ == dot(
                    a[i]@,
                    b@,
                    j,
                    b.len() as nat,
                )
        },
{
    if a.len() == 0 || a[0].len() == 0 || b.len() == 0 || b[0].len() == 0 {
        return Vec::new();
    }
    let n = a.len();
    let inner = b.len();
    let p = b[0].len();
    let mut res: Vec<Vec<BaseFelt>> = Vec::new();
    let mut i: usize = 0;
    while i < n
        invariant
            n == a.len(),
            inner == b.len(),
            p == b[0].len(),
            inner == a[0].len(),
            is_matrix(a@, n as nat, inner as nat),
            is_matrix(b@, inner as nat, p as nat),
            i <= n,
            is_matrix(res@, i as nat, p as nat),
            forall|i2: int, j: int|
                0 <= i2 < i && 0 <= j < p ==> (#[trigger] res[i2]@[j])@ == dot(
                    a[i2]@,
                    b@,
                    j,
                    inner as nat,
                ),
        decreases n - i,
    {
        let mut row: Vec<BaseFelt> = Vec::new();
        let mut j: usize = 0;
        while j < p
            invariant
                n == a.len(),
                inner == b.len(),
                p == b[0].len(),
                inner == a[0].len(),
                is_matrix(a@, n as nat, inner as nat),
                is_matrix(b@, inner as nat, p as nat),
                i < n,
                j <= p,
                row.len() == j,
                all_wf(row@),
                forall|j2: int|
                    0 <= j2 < j ==> (#[trigger] row[j2])@ == dot(a[i as int]@, b@, j2, inner as nat),
            decreases p - j,
        {
            let mut acc = BaseFelt::zero();
            let mut k: usize = 0;
            assert(a[i as int]@.len() == inner && all_wf(a[i as int]@));
            while k < inner
                invariant
                    n == a.len(),
                    inner == b.len(),
                    p == b[0].len(),
                    inner == a[0].len(),
                    is_matrix(a@, n as nat, inner as nat),
                    is_matrix(b@, inner as nat, p as nat),
                    a[i as int]@.len() == inner,
                    all_wf(a[i as int]@),
                    i < n,
                    j < p,
                    k <= inner,
                    acc.wf(),
                    acc@ == dot(a[i as int]@, b@, j as int, k as nat),
                decreases inner - k,
            {
                assert(b[k as int]@.len() == p && all_wf(b[k as int]@));
                let x = a[i][k];
                let y = b[k][j];
                assert(x.wf() && y.wf());
                acc = acc.add(x.mul(y));
                k += 1;
            }
            row.push(acc);
            j += 1;
        }
        res.push(row);
        i += 1;
    }
    res
}


/// An entry-for-entry copy of a row.
pub(crate) fn copy_row(v: &Vec<BaseFelt>) -> (r: Vec<BaseFelt>)
    ensures
        r@ == v@,
{
    let mut r: Vec<BaseFelt> = Vec::new();
    let mut k: usize = 0;
    while k < v.len()
        invariant
            k <= v.len(),
            r@ == v@.subrange(0, k as int),
        decreases v.len() - k,
    {
        r.push(v[k]);
        k += 1;
    }
    assert(r@ =~= v@);
    r
}

/// Row reduction by pivot search down each column, row swap and pivot-row
/// normalisation. Every other row then has its entries from the pivot
/// column on overwritten by its pivot-column value times the pivot row.
pub fn echelon_form(m: &Vec<Vec<BaseFelt>>) -> (r: Vec<Vec<BaseFelt>>)
    requires
        is_rectangular(m@),
    ensures
        m.len() == 0 || m[0].len() == 0 ==> r.len() == 0,
        m.len() > 0 && m[0].len() > 0 ==> {
            &&& is_matrix(r@, m.len() as nat, m[0].len() as nat)
            &&& mview(r@) == echelon(mview(m@), m[0].len() as int)
        },
{
    let rows = m.len();
    if rows == 0 {
        return Vec::new();
    }
    let cols = m[0].len();
    if cols == 0 {
        return Vec::new();
    }
    let mut mat: Vec<Vec<BaseFelt>> = Vec::new();
    let mut k: usize = 0;
    while k < rows
        invariant
            rows == m.len(),
            cols == m[0].len(),
            is_matrix(m@, rows as nat, cols as nat),
            k <= rows,
            is_matrix(mat@, k as nat, cols as nat),
            forall|k2: int| 0 <= k2 < k ==> (#[trigger] mat[k2])@ == m[k2]@,
        decreases rows - k,
    {
        mat.push(copy_row(&m[k]));
        k += 1;
    }
    assert(mview(mat@) =~= mview(m@));
    let ghost goal = echelon(mview(m@), cols as int);
    let mut lead: usize = 0;
    let mut r: usize = 0;
    while r < rows
        invariant
            rows == m.len(),
            cols == m[0].len(),
            0 < rows,
            0 < cols,
            is_matrix(mat@, rows as nat, cols as nat),
            r <= rows,
            goal == echelon(mview(m@), cols as int),
            echelon_from(mview(mat@), rows as int, cols as int, r as int, lead as int) == goal,
        decreases rows - r,
    {
        if cols <= lead {
            assert(echelon_from(mview(mat@), rows as int, cols as int, r as int, lead as int)
                == mview(mat@));
            return mat;
        }
        let ghost a0 = mview(mat@);
        let ghost lead0 = lead as int;
        let mut i: usize = r;
        assert(mat[i as int]@.len() == cols);
        while mat[i][lead].is_zero()
            invariant
                rows == m.len(),
                cols == m[0].len(),
                0 < rows,
                is_matrix(mat@, rows as nat, cols as nat),
                a0 == mview(mat@),
                r <= i < rows,
                lead0 <= lead < cols,
                find_pivot(a0, cols as int, r as int, lead as int, i as int) == find_pivot(
                    a0,
                    cols as int,
                    r as int,
                    lead0,
                    r as int,
                ),
                echelon_from(a0, rows as int, cols as int, r as int, lead0) == goal,
                goal == echelon(mview(m@), cols as int),
            decreases cols - lead, rows - i,
        {
            assert(a0[i as int][lead as int] == mat[i as int]@[lead as int]@);
            i += 1;
            if i == rows {
                i = r;
                lead += 1;
                if lead == cols {
                    assert(find_pivot(a0, cols as int, r as int, lead0, r as int) is None);
                    assert(echelon_from(a0, rows as int, cols as int, r as int, lead0) == a0);
                    return mat;
                }
            }
            assert(mat[i as int]@.len() == cols);
        }
        assert(a0[i as int][lead as int] == mat[i as int]@[lead as int]@);
        let ghost b = swap_rows(a0, i as int, r as int);
        if i != r {
            let row_i = copy_row(&mat[i]);
            let row_r = copy_row(&mat[r]);
            mat.set(i, row_r);
            mat.set(r, row_i);
        }
        assert(mview(mat@) =~= b);
        assert(mat[r as int]@.len() == cols && all_wf(mat[r as int]@));
        let pivot = mat[r][lead];
        assert(pivot@ == b[r as int][lead as int]);
        let inv = match pivot.inverse() {
            Some(inv) => inv,
            None => {
                assert(find_pivot(a0, cols as int, r as int, lead0, r as int) == Some(
                    (i as int, lead as int),
                ));
                assert(echelon_from(a0, rows as int, cols as int, r as int, lead0) == b);
                return mat;
            },
        };
        let mut prow = copy_row(&mat[r]);
        let mut j: usize = 0;
        while j < cols
            invariant
                prow.len() == cols,
                all_wf(prow@),
                inv.wf(),
                j <= cols,
                b[r as int].len() == cols,
                forall|t: int|
                    0 <= t < cols ==> (#[trigger] prow[t])@ == if t < j {
                        fmul(b[r as int][t], inv@)
                    } else {
                        b[r as int][t]
                    },
            decreases cols - j,
        {
            let x = prow[j];
            assert(x.wf());
            prow.set(j, x.mul(inv));
            j += 1;
        }
        let ghost c = b.update(r as int, scale_row(b[r as int], inv@));
        mat.set(r, copy_row(&prow));
        assert(mview(mat@) =~= c) by {
            assert(mview(mat@)[r as int] =~= c[r as int]);
        }
        let mut i2: usize = 0;
        while i2 < rows
            invariant
                rows == m.len(),
                cols == m[0].len(),
                is_matrix(mat@, rows as nat, cols as nat),
                c.len() == rows,
                c[r as int].len() == cols,
                prow.len() == cols,
                all_wf(prow@),
                forall|t: int| 0 <= t < cols ==> (#[trigger] prow[t])@ == c[r as int][t],
                r < rows,
                lead < cols,
                i2 <= rows,
                forall|k2: int|
                    0 <= k2 < rows ==> (#[trigger] mview(mat@)[k2]) == if k2 < i2 && k2 != r {
                        overwrite_row(c[k2], c[r as int], lead as int)
                    } else {
                        c[k2]
                    },
            decreases rows - i2,
        {
            if i2 != r {
                assert(mview(mat@)[i2 as int] == c[i2 as int]);
                let mut row = copy_row(&mat[i2]);
                assert(row@.len() == cols && all_wf(row@));
                let p = row[lead];
                assert(p.wf());
                assert(p@ == c[i2 as int][lead as int]);
                let ghost crow = c[i2 as int];
                let mut j: usize = lead;
                while j < cols
                    invariant
                        row.len() == cols,
                        all_wf(row@),
                        prow.len() == cols,
                        all_wf(prow@),
                        forall|t: int| 0 <= t < cols ==> (#[trigger] prow[t])@ == c[r as int][t],
                        crow.len() == cols,
                        p.wf(),
                        p@ == crow[lead as int],
                        lead <= j <= cols,
                        forall|t: int|
                            0 <= t < cols ==> (#[trigger] row[t])@ == if lead <= t < j {
                                fmul(crow[lead as int], c[r as int][t])
                            } else {
                                crow[t]
                            },
                    decreases cols - j,
                {
                    let y = prow[j];
                    assert(y.wf());
                    row.set(j, p.mul(y));
                    j += 1;
                }
                assert(row@.map_values(|x: BaseFelt| x@) =~= overwrite_row(
                    crow,
                    c[r as int],
                    lead as int,
                ));
                let ghost before = mat@;
                mat.set(i2, row);
                assert forall|k2: int| 0 <= k2 < rows && k2 != i2 implies #[trigger] mview(mat@)[k2]
                    == mview(before)[k2] by {
                    assert(mat@[k2] == before[k2]);
                }
                assert(mview(mat@)[i2 as int] == overwrite_row(crow, c[r as int], lead as int));
            }
            i2 += 1;
        }
        assert(mview(mat@) =~= eliminate(c, r as int, lead as int));
        lead += 1;
        r += 1;
    }
    mat
}

/// The MDS matrix of width `m`: the transpose of the right half of the
/// reduced `m x 2m` matrix whose entry `(i, j)` is `generator^(i*j)`.
pub fn get_mds_matrix(generator: BaseFelt, m: usize) -> (r: Vec<Vec<BaseFelt>>)
    requires
        generator.wf(),
        m <= usize::MAX / 2,
    ensures
        m == 0 ==> r.len() == 0,
        m > 0 ==> is_matrix(r@, m as nat, m as nat),
        m > 0 ==> mview(r@) == mds_of(generator@, m as nat),
{
    let rows = m;
    let cols = 2 * m;
    let mut v: Vec<Vec<BaseFelt>> = Vec::new();
    let mut i: usize = 0;
    while i < rows
        invariant
            cols == 2 * rows,
            generator.wf(),
            i <= rows,
            is_matrix(v@, i as nat, cols as nat),
            forall|i2: int, j2: int|
                0 <= i2 < i && 0 <= j2 < cols ==> (#[trigger] v[i2]@[j2])@ == fpow(
                    generator@,
                    (i2 * j2) as nat,
                ),
        decreases rows - i,
    {
        let mut row: Vec<BaseFelt> = Vec::new();
        let mut j: usize = 0;
        while j < cols
            invariant
                cols == 2 * rows,
                generator.wf(),
                i < rows,
                j <= cols,
                row.len() == j,
                all_wf(row@),
                forall|j2: int| 0 <= j2 < j ==> (#[trigger] row[j2])@ == fpow(generator@, (i * j2) as nat),
            decreases cols - j,
        {
            assert((i as u128) * (j as u128) <= u64::MAX as u128 * u64::MAX as u128)
                by (nonlinear_arith)
                requires
                    i < rows,
                    j < cols,
                    cols <= usize::MAX,
            ;
            row.push(generator.pow(i as u128 * j as u128));
            j += 1;
        }
        v.push(row);
        i += 1;
    }
    if rows == 0 {
        return Vec::new();
    }
    assert(mview(v@) =~= vandermonde(generator@, rows as nat)) by {
        assert forall|i2: int| 0 <= i2 < rows implies #[trigger] mview(v@)[i2] =~= vandermonde(
            generator@,
            rows as nat,
        )[i2] by {
            assert(v[i2]@.len() == cols);
        }
    }
    let v = echelon_form(&v);
    let ghost e = echelon(vandermonde(generator@, rows as nat), 2 * rows as int);
    assert(mview(v@) == e);
    let mut half: Vec<Vec<BaseFelt>> = Vec::new();
    let mut i: usize = 0;
    while i < rows
        invariant
            cols == 2 * rows,
            0 < rows,
            is_matrix(v@, rows as nat, cols as nat),
            i <= rows,
            is_matrix(half@, i as nat, rows as nat),
            mview(v@) == e,
            forall|i2: int, c: int|
                0 <= i2 < i && 0 <= c < rows ==> (#[trigger] half[i2]@[c])@ == e[i2][rows + c],
        decreases rows - i,
    {
        let mut row: Vec<BaseFelt> = Vec::new();
        let mut j: usize = rows;
        assert(v[i as int]@.len() == cols && all_wf(v[i as int]@));
        while j < cols
            invariant
                cols == 2 * rows,
                v.len() == rows,
                v[i as int]@.len() == cols,
                all_wf(v[i as int]@),
                i < rows,
                rows <= j <= cols,
                row.len() == j - rows,
                all_wf(row@),
                mview(v@) == e,
                forall|c: int| 0 <= c < j - rows ==> (#[trigger] row[c])@ == e[i as int][rows + c],
            decreases cols - j,
        {
            assert(mview(v@)[i as int][j as int] == v[i as int]@[j as int]@);
            row.push(v[i][j]);
            j += 1;
        }
        half.push(row);
        i += 1;
    }
    let r = transpose(&half);
    assert(mview(r@) =~= mds_of(generator@, rows as nat)) by {
        assert forall|c: int| 0 <= c < rows implies #[trigger] mview(r@)[c] =~= mds_of(
            generator@,
            rows as nat,
        )[c] by {
            assert forall|k: int| 0 <= k < rows implies #[trigger] mview(r@)[c][k] == mds_of(
                generator@,
                rows as nat,
            )[c][k] by {
                assert(r[c]@[k] == half[k]@[c]);
            }
        }
    }
    r
}

} // verus!
