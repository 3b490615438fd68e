//! GLWE ciphertexts as plain coefficient data, and the column operations that
//! a CPU backend performs on them: multiplication by `X^k` and by
//! `X^k - 1`.
//!
//! A GLWE ciphertext of rank `r` over `Z[X] / (X^n + 1)` has `r + 1` columns;
//! every column holds `size` limbs, and every limb is a polynomial of `n`
//! coefficients. Column-wise kernels follow the vector convention of the
//! hardware abstraction layer: limbs that both operands have are combined,
//! and the destination's extra limbs are cleared.
use crate::znx::{
    lemma_rotate_compose, lemma_rotate_inverse, rotated_coeff,
    fits_i64, ints, mul_xp_minus_one, negacyclic_rotate, zero_poly, znx_mul_xp_minus_one,
    znx_rotate,
};
use vstd::prelude::*;

verus! {

/// Limbs of a column, each a polynomial with integer coefficients.
pub type ColumnView = Seq<Seq<int>>;

/// Columns of a ciphertext.
pub type ColumnsView = Seq<Seq<Seq<int>>>;

/// A column of `size` zero limbs of degree `n`.
pub open spec fn zero_column(size: nat, n: nat) -> ColumnView {
    Seq::new(size, |l: int| zero_poly(n))
}

/// Every column has `size` limbs and every limb has `n` coefficients.
pub open spec fn has_shape(cols: ColumnsView, n: nat, size: nat) -> bool {
    &&& forall|c: int| 0 <= c < cols.len() ==> (#[trigger] cols[c]).len() == size
    &&& forall|c: int, l: int|
        0 <= c < cols.len() && 0 <= l < size ==> (#[trigger] cols[c][l]).len() == n
}

/// Every coefficient fits in an `i64`.
pub open spec fn cols_fit(cols: ColumnsView) -> bool {
    forall|c: int, l: int, j: int|
        0 <= c < cols.len() && 0 <= l < cols[c].len() && 0 <= j < cols[c][l].len()
            ==> i64::MIN <= #[trigger] cols[c][l][j] <= i64::MAX
}

/// Column `a` multiplied by `X^k` into a destination column of `size` limbs
/// of degree `n`: limb `l` is rotated while `a` has it, zero after.
pub open spec fn rotated_column(k: int, a: ColumnView, size: nat, n: nat) -> ColumnView {
    Seq::new(size, |l: int| if l < a.len() { negacyclic_rotate(k, a[l]) } else { zero_poly(n) })
}

/// Column `a` multiplied by `X^k - 1` into a destination column of `size`
/// limbs of degree `n`: limb `l` is multiplied while `a` has it, zero after.
pub open spec fn mul_xp_minus_one_column(k: int, a: ColumnView, size: nat, n: nat) -> ColumnView {
    Seq::new(size, |l: int| if l < a.len() { mul_xp_minus_one(k, a[l]) } else { zero_poly(n) })
}

/// Result of rotating the columns of `a` by `X^k` into a destination of
/// `res_cols` columns, `size` limbs and degree `n`: the columns that `a` has
/// are rotated, the destination's extra columns are cleared.
pub open spec fn glwe_rotate_spec(k: int, a: ColumnsView, res_cols: nat, size: nat, n: nat) -> ColumnsView {
    Seq::new(
        res_cols,
        |c: int| if c < a.len() { rotated_column(k, a[c], size, n) } else { zero_column(size, n) },
    )
}

/// Result of multiplying the columns of `a` by `X^k - 1` into a destination
/// of the same number of columns, `size` limbs and degree `n`.
pub open spec fn glwe_mul_xp_minus_one_spec(k: int, a: ColumnsView, size: nat, n: nat) -> ColumnsView {
    Seq::new(a.len(), |c: int| mul_xp_minus_one_column(k, a[c], size, n))
}

/// Every limb of every column multiplied by `X^k`, in place.
pub open spec fn rotate_in_place(k: int, cols: ColumnsView) -> ColumnsView {
    Seq::new(cols.len(), |c: int| Seq::new(cols[c].len(), |l: int| negacyclic_rotate(k, cols[c][l])))
}

/// Every limb of every column multiplied by `X^k - 1`, in place.
pub open spec fn mul_xp_minus_one_in_place(k: int, cols: ColumnsView) -> ColumnsView {
    Seq::new(cols.len(), |c: int| Seq::new(cols[c].len(), |l: int| mul_xp_minus_one(k, cols[c][l])))
}

/// The ring handle of a backend: it fixes the ring degree `n`.
pub struct Module {
    n: usize,
}

impl Module {
    /// The ring degree of this module.
    pub closed spec fn degree(&self) -> nat {
        self.n as nat
    }

    /// A module over `Z[X] / (X^n + 1)`.
    pub fn new(n: usize) -> (m: Module)
        ensures
            m.degree() == n,
    {
        Module { n }
    }

    /// The ring degree `n`.
    pub fn n(&self) -> (r: usize)
        ensures
            r == self.degree(),
    {
        self.n
    }
}

/// A GLWE ciphertext (or any GLWE-shaped value) as plain coefficients.
pub struct Glwe {
    n: usize,
    size: usize,
    data: Vec<Vec<Vec<i64>>>,
}

/// The coefficients of a limb as integers.
pub open spec fn limb_view(l: Vec<i64>) -> Seq<int> {
    ints(l@)
}

/// The limbs of a column as integer polynomials.
pub open spec fn column_view(c: Vec<Vec<i64>>) -> ColumnView {
    c@.map_values(|l: Vec<i64>| limb_view(l))
}

/// Nested coefficient data as integer polynomials.
pub open spec fn data_view(d: Seq<Vec<Vec<i64>>>) -> ColumnsView {
    d.map_values(|c: Vec<Vec<i64>>| column_view(c))
}

impl Glwe {
    /// Ring degree `n`.
    pub closed spec fn degree(&self) -> nat {
        self.n as nat
    }

    /// Number of limbs per column.
    pub closed spec fn limbs(&self) -> nat {
        self.size as nat
    }

    /// The coefficients, indexed by column, limb and coefficient.
    pub closed spec fn columns(&self) -> ColumnsView {
        data_view(self.data@)
    }

    /// The rank: one less than the number of columns.
    pub open spec fn rank_spec(&self) -> int {
        self.columns().len() - 1
    }

    /// The shape every ciphertext keeps: at least one column, a degree
    /// between `1` and `u32::MAX`, and uniform columns and limbs.
    pub open spec fn well_shaped(&self) -> bool {
        &&& 1 <= self.degree() <= u32::MAX
        &&& self.columns().len() >= 1
        &&& has_shape(self.columns(), self.degree(), self.limbs())
    }

    #[verifier::type_invariant]
    closed spec fn inv(&self) -> bool {
        self.well_shaped()
    }

    /// States what every ciphertext keeps: it is well shaped and its
    /// coefficients fit in an `i64`. It computes nothing.
    pub fn well_formed(&self)
        ensures
            self.well_shaped(),
            cols_fit(self.columns()),
            self.columns().len() <= usize::MAX,
    {
        proof {
            use_type_invariant(self);
            lemma_data_fits(self.data@);
        }
        let _cols = self.data.len();
    }

    /// The zero ciphertext of rank `rank`, with `size` limbs of degree `n`.
    pub fn zero(n: usize, rank: usize, size: usize) -> (g: Glwe)
        requires
            1 <= n <= u32::MAX,
            rank < usize::MAX,
        ensures
            g.degree() == n,
            g.limbs() == size,
            g.columns() == Seq::new((rank + 1) as nat, |c: int| zero_column(size as nat, n as nat)),
            g.columns().len() == rank + 1,
            forall|c: int| 0 <= c <= rank ==> (#[trigger] g.columns()[c]).len() == size,
            forall|c: int, l: int| 0 <= c <= rank && 0 <= l < size ==> (#[trigger] g.columns()[c][l]).len() == n,
            forall|c: int, l: int, j: int|
                0 <= c <= rank && 0 <= l < size && 0 <= j < n ==> #[trigger] g.columns()[c][l][j] == 0,
    {
        let cols = rank + 1;
        let mut data: Vec<Vec<Vec<i64>>> = Vec::new();
        let mut c: usize = 0;
        while c < cols
            invariant
                c <= cols,
                data.len() == c,
                forall|i: int| 0 <= i < c ==> column_view(#[trigger] data@[i]) == zero_column(size as nat, n as nat),
            decreases cols - c,
        {
            let col = zero_column_exec(size, n);
            data.push(col);
            c = c + 1;
        }
        proof {
            assert(data_view(data@) =~= Seq::new((rank + 1) as nat, |c: int| zero_column(size as nat, n as nat)));
        }
        Glwe { n, size, data }
    }

    /// Builds a ciphertext from coefficients indexed by column, limb and
    /// coefficient; `None` unless there is at least one column, all columns
    /// have as many limbs as the first, every limb has `n` coefficients and
    /// `1 <= n <= u32::MAX`.
    pub fn from_data(n: usize, data: Vec<Vec<Vec<i64>>>) -> (g: Option<Glwe>)
        ensures
            g is Some <==> (1 <= n <= u32::MAX && data@.len() >= 1 && has_shape(
                data_view(data@),
                n as nat,
                data@[0]@.len(),
            )),
            g matches Some(g) ==> g.degree() == n && g.limbs() == data@[0]@.len() && g.columns()
                == data_view(data@),
    {
        if n == 0 || n > u32::MAX as usize || data.len() == 0 {
            return None;
        }
        let size = data[0].len();
        let ghost dv = data_view(data@);
        let mut c: usize = 0;
        while c < data.len()
            invariant
                0 <= c <= data.len(),
                1 <= n <= u32::MAX,
                data@.len() >= 1,
                size == data@[0]@.len(),
                dv == data_view(data@),
                forall|i: int| 0 <= i < c ==> (#[trigger] dv[i]).len() == size,
                forall|i: int, l: int| 0 <= i < c && 0 <= l < size ==> (#[trigger] dv[i][l]).len() == n,
            decreases data.len() - c,
        {
            if data[c].len() != size {
                proof {
                    assert(dv[c as int].len() == data[c as int]@.len());
                    assert(dv[c as int].len() != data@[0]@.len());
                    assert(!has_shape(dv, n as nat, data@[0]@.len()));
                }
                return None;
            }
            let mut l: usize = 0;
            while l < size
                invariant
                    0 <= c < data.len(),
                    0 <= l <= size,
                    data[c as int]@.len() == size,
                    dv == data_view(data@),
                    forall|j: int| 0 <= j < l ==> (#[trigger] dv[c as int][j]).len() == n,
                decreases size - l,
            {
                if data[c][l].len() != n {
                    assert(dv[c as int][l as int].len() == data[c as int][l as int]@.len());
                    return None;
                }
                l = l + 1;
            }
            c = c + 1;
        }
        Some(Glwe { n, size, data })
    }

    /// Ring degree `n`.
    pub fn n(&self) -> (r: usize)
        ensures
            r == self.degree(),
    {
        self.n
    }

    /// Number of limbs per column.
    pub fn size(&self) -> (r: usize)
        ensures
            r == self.limbs(),
    {
        self.size
    }

    /// The rank: one less than the number of columns.
    pub fn rank(&self) -> (r: usize)
        ensures
            r == self.rank_spec(),
    {
        proof {
            use_type_invariant(self);
        }
        self.data.len() - 1
    }

    /// Coefficient `j` of limb `limb` of column `col`.
    pub fn coeff(&self, col: usize, limb: usize, j: usize) -> (r: i64)
        requires
            col < self.columns().len(),
            limb < self.limbs(),
            j < self.degree(),
        ensures
            r == self.columns()[col as int][limb as int][j as int],
    {
        proof {
            use_type_invariant(self);
            assert(self.columns()[col as int][limb as int].len() == self.degree());
        }
        self.data[col][limb][j]
    }
}

fn zero_limb_exec(n: usize) -> (r: Vec<i64>)
    ensures
        limb_view(r) == zero_poly(n as nat),
        r@.len() == n,
{
    let mut r: Vec<i64> = Vec::new();
    let mut j: usize = 0;
    while j < n
        invariant
            j <= n,
            r@.len() == j,
            forall|i: int| 0 <= i < j ==> #[trigger] r@[i] == 0,
        decreases n - j,
    {
        r.push(0);
        j = j + 1;
    }
    proof {
        assert(limb_view(r) =~= zero_poly(n as nat));
    }
    r
}

fn zero_column_exec(size: usize, n: usize) -> (r: Vec<Vec<i64>>)
    ensures
        column_view(r) == zero_column(size as nat, n as nat),
{
    let mut r: Vec<Vec<i64>> = Vec::new();
    let mut l: usize = 0;
    while l < size
        invariant
            l <= size,
            r@.len() == l,
            forall|i: int| 0 <= i < l ==> limb_view(#[trigger] r@[i]) == zero_poly(n as nat),
        decreases size - l,
    {
        r.push(zero_limb_exec(n));
        l = l + 1;
    }
    proof {
        assert(column_view(r) =~= zero_column(size as nat, n as nat));
    }
    r
}

/// Limbs of `col` have `n` coefficients.
spec fn column_ok(col: Seq<Vec<i64>>, n: nat) -> bool {
    forall|l: int| 0 <= l < col.len() ==> (#[trigger] col[l])@.len() == n
}

fn rotate_column_exec(k: i64, a: &Vec<Vec<i64>>, size: usize, n: usize) -> (r: Vec<Vec<i64>>)
    requires
        n <= u32::MAX,
        column_ok(a@, n as nat),
        forall|l: int| 0 <= l < a@.len() && l < size ==> fits_i64(#[trigger] negacyclic_rotate(k as int, limb_view(a@[l]))),
    ensures
        column_view(r) == rotated_column(k as int, column_view(*a), size as nat, n as nat),
        column_ok(r@, n as nat),
{
    let mut r: Vec<Vec<i64>> = Vec::new();
    let ghost want = rotated_column(k as int, column_view(*a), size as nat, n as nat);
    let mut l: usize = 0;
    while l < size
        invariant
            n <= u32::MAX,
            column_ok(a@, n as nat),
            forall|i: int| 0 <= i < a@.len() && i < size ==> fits_i64(#[trigger] negacyclic_rotate(k as int, limb_view(a@[i]))),
            want == rotated_column(k as int, column_view(*a), size as nat, n as nat),
            l <= size,
            r@.len() == l,
            column_ok(r@, n as nat),
            forall|i: int| 0 <= i < l ==> limb_view(#[trigger] r@[i]) == want[i],
        decreases size - l,
    {
        if l < a.len() {
            proof {
                assert(fits_i64(negacyclic_rotate(k as int, limb_view(a@[l as int]))));
            }
            let v = znx_rotate(k, a[l].as_slice());
            r.push(v);
        } else {
            let v = zero_limb_exec(n);
            r.push(v);
        }
        l = l + 1;
    }
    proof {
        assert(column_view(r) =~= want);
    }
    r
}

fn mul_xp_minus_one_column_exec(k: i64, a: &Vec<Vec<i64>>, size: usize, n: usize) -> (r: Vec<Vec<i64>>)
    requires
        n <= u32::MAX,
        column_ok(a@, n as nat),
        forall|l: int| 0 <= l < a@.len() && l < size ==> fits_i64(#[trigger] mul_xp_minus_one(k as int, limb_view(a@[l]))),
    ensures
        column_view(r) == mul_xp_minus_one_column(k as int, column_view(*a), size as nat, n as nat),
        forall|l: int| 0 <= l < r@.len() ==> (#[trigger] r@[l])@.len() == n,
{
    let mut r: Vec<Vec<i64>> = Vec::new();
    let ghost want = mul_xp_minus_one_column(k as int, column_view(*a), size as nat, n as nat);
    let mut l: usize = 0;
    while l < size
        invariant
            n <= u32::MAX,
            column_ok(a@, n as nat),
            forall|i: int| 0 <= i < a@.len() && i < size ==> fits_i64(#[trigger] mul_xp_minus_one(k as int, limb_view(a@[i]))),
            want == mul_xp_minus_one_column(k as int, column_view(*a), size as nat, n as nat),
            l <= size,
            r@.len() == l,
            forall|i: int| 0 <= i < l ==> (#[trigger] r@[i])@.len() == n,
            forall|i: int| 0 <= i < l ==> limb_view(#[trigger] r@[i]) == want[i],
        decreases size - l,
    {
        if l < a.len() {
            proof {
                assert(fits_i64(mul_xp_minus_one(k as int, limb_view(a@[l as int]))));
            }
            let v = znx_mul_xp_minus_one(k, a[l].as_slice());
            r.push(v);
        } else {
            let v = zero_limb_exec(n);
            r.push(v);
        }
        l = l + 1;
    }
    proof {
        assert(column_view(r) =~= want);
    }
    r
}

proof fn lemma_data_fits(d: Seq<Vec<Vec<i64>>>)
    ensures
        cols_fit(data_view(d)),
{
    let dv = data_view(d);
    assert forall|c: int, l: int, j: int|
        0 <= c < dv.len() && 0 <= l < dv[c].len() && 0 <= j < dv[c][l].len() implies i64::MIN <= #[trigger] dv[c][l][j]
        <= i64::MAX by {
        assert(dv[c][l][j] == d[c]@[l]@[j] as int);
    }
}

proof fn lemma_column_ok(d: Seq<Vec<Vec<i64>>>, n: nat, size: nat, c: int)
    requires
        has_shape(data_view(d), n, size),
        0 <= c < d.len(),
    ensures
        column_ok(d[c]@, n),
        d[c]@.len() == size,
{
    let dv = data_view(d);
    assert(dv[c].len() == size);
    assert forall|l: int| 0 <= l < d[c]@.len() implies (#[trigger] d[c]@[l])@.len() == n by {
        assert(dv[c][l] == ints(d[c]@[l]@));
        assert(dv[c][l].len() == n);
    }
}

proof fn lemma_column_rotate_fits(k: int, a: ColumnsView, res_cols: nat, size: nat, n: nat, c: int)
    requires
        0 <= c < a.len(),
        c < res_cols,
        cols_fit(glwe_rotate_spec(k, a, res_cols, size, n)),
    ensures
        forall|l: int| 0 <= l < a[c].len() && l < size ==> fits_i64(#[trigger] negacyclic_rotate(k, a[c][l])),
{
    let w = glwe_rotate_spec(k, a, res_cols, size, n);
    assert forall|l: int| 0 <= l < a[c].len() && l < size implies fits_i64(#[trigger] negacyclic_rotate(k, a[c][l])) by {
        assert(w[c][l] == negacyclic_rotate(k, a[c][l]));
        assert forall|j: int| 0 <= j < w[c][l].len() implies i64::MIN <= #[trigger] w[c][l][j] <= i64::MAX by {}
    }
}

impl Module {
    /// Multiplies every column of `a` by `X^k` into `res`.
    ///
    /// Column `c < rank(a) + 1` of `res` gets limb `l` of column `c` of `a`
    /// rotated for every `l` both have; the remaining limbs of `res`, and the
    /// columns of `res` beyond those of `a`, are cleared. The shape of `res`
    /// (degree, rank, limbs) is unchanged.
    pub fn glwe_rotate(&self, k: i64, res: &mut Glwe, a: &Glwe)
        requires
            a.degree() == self.degree(),
            old(res).degree() == self.degree(),
            old(res).rank_spec() == a.rank_spec() || a.rank_spec() == 0,
            cols_fit(
                glwe_rotate_spec(
                    k as int,
                    a.columns(),
                    old(res).columns().len(),
                    old(res).limbs(),
                    old(res).degree(),
                ),
            ),
        ensures
            final(res).degree() == old(res).degree(),
            final(res).limbs() == old(res).limbs(),
            final(res).columns() == glwe_rotate_spec(
                k as int,
                a.columns(),
                old(res).columns().len(),
                old(res).limbs(),
                old(res).degree(),
            ),
            final(res).columns().len() == old(res).columns().len(),
            forall|c: int, l: int, j: int|
                0 <= c < old(res).columns().len() && 0 <= l < old(res).limbs() && 0 <= j < old(res).degree()
                    ==> #[trigger] final(res).columns()[c][l][j] == (if c < a.columns().len() && l < a.limbs() {
                    negacyclic_rotate(k as int, a.columns()[c][l])[j]
                } else {
                    0
                }),
    {
        proof {
            use_type_invariant(a);
            use_type_invariant(&*res);
            lemma_glwe_rotate_coefficients(
                k as int,
                a.columns(),
                res.columns().len(),
                res.limbs(),
                res.degree(),
                a.limbs(),
            );
        }
        let n = res.n;
        let size = res.size;
        let res_cols = res.data.len();
        let a_cols = a.data.len();
        let ghost want = glwe_rotate_spec(k as int, a.columns(), res_cols as nat, size as nat, n as nat);
        let mut out: Vec<Vec<Vec<i64>>> = Vec::new();
        let mut c: usize = 0;
        while c < res_cols
            invariant
                1 <= n <= u32::MAX,
                a.degree() == n,
                a_cols == a.data@.len(),
                a_cols <= res_cols,
                has_shape(data_view(a.data@), n as nat, a.limbs()),
                want == glwe_rotate_spec(k as int, a.columns(), res_cols as nat, size as nat, n as nat),
                cols_fit(want),
                a.columns() == data_view(a.data@),
                c <= res_cols,
                out@.len() == c,
                forall|i: int| 0 <= i < c ==> column_view(#[trigger] out@[i]) == want[i],
            decreases res_cols - c,
        {
            if c < a_cols {
                proof {
                    lemma_column_ok(a.data@, n as nat, a.limbs(), c as int);
                    lemma_column_rotate_fits(k as int, a.columns(), res_cols as nat, size as nat, n as nat, c as int);
                    assert forall|l: int| 0 <= l < a.data@[c as int]@.len() && l < size implies fits_i64(
                        #[trigger] negacyclic_rotate(k as int, limb_view(a.data@[c as int]@[l])),
                    ) by {
                        assert(a.columns()[c as int][l] == limb_view(a.data@[c as int]@[l]));
                    }
                }
                let col = rotate_column_exec(k, &a.data[c], size, n);
                out.push(col);
            } else {
                let col = zero_column_exec(size, n);
                out.push(col);
            }
            c = c + 1;
        }
        proof {
            assert(data_view(out@) =~= want);
            assert forall|i: int, l: int| 0 <= i < want.len() && 0 <= l < size implies (#[trigger] want[i][l]).len()
                == n by {}
        }
        res.data = out;
    }

    /// Multiplies every limb of every column of `res` by `X^k`, in place.
    pub fn glwe_rotate_assign(&self, k: i64, res: &mut Glwe)
        requires
            old(res).degree() == self.degree(),
            cols_fit(rotate_in_place(k as int, old(res).columns())),
        ensures
            final(res).degree() == old(res).degree(),
            final(res).limbs() == old(res).limbs(),
            final(res).columns() == rotate_in_place(k as int, old(res).columns()),
            final(res).columns().len() == old(res).columns().len(),
            forall|c: int, l: int, j: int|
                0 <= c < old(res).columns().len() && 0 <= l < old(res).limbs() && 0 <= j < old(res).degree()
                    ==> #[trigger] final(res).columns()[c][l][j] == negacyclic_rotate(k as int, old(res).columns()[c][l])[j],
    {
        proof {
            use_type_invariant(&*res);
            lemma_glwe_in_place_coefficients(k as int, res.columns(), res.degree(), res.limbs());
        }
        let n = res.n;
        let size = res.size;
        let cols = res.data.len();
        let ghost old_cols = res.columns();
        let ghost want = rotate_in_place(k as int, old_cols);
        proof {
            lemma_glwe_rotate_into_same_shape(k as int, old_cols, n as nat, size as nat);
        }
        let mut out: Vec<Vec<Vec<i64>>> = Vec::new();
        let mut c: usize = 0;
        while c < cols
            invariant
                1 <= n <= u32::MAX,
                cols == res.data@.len(),
                size == res.limbs(),
                has_shape(data_view(res.data@), n as nat, size as nat),
                old_cols == data_view(res.data@),
                want == rotate_in_place(k as int, old_cols),
                want == glwe_rotate_spec(k as int, old_cols, cols as nat, size as nat, n as nat),
                cols_fit(want),
                c <= cols,
                out@.len() == c,
                forall|i: int| 0 <= i < c ==> column_view(#[trigger] out@[i]) == want[i],
            decreases cols - c,
        {
            proof {
                lemma_column_ok(res.data@, n as nat, size as nat, c as int);
                lemma_column_rotate_fits(k as int, old_cols, cols as nat, size as nat, n as nat, c as int);
                assert forall|l: int| 0 <= l < res.data@[c as int]@.len() && l < size implies fits_i64(
                    #[trigger] negacyclic_rotate(k as int, limb_view(res.data@[c as int]@[l])),
                ) by {
                    assert(old_cols[c as int][l] == limb_view(res.data@[c as int]@[l]));
                }
            }
            let col = rotate_column_exec(k, &res.data[c], size, n);
            proof {
                assert(column_view(col) =~= want[c as int]);
            }
            out.push(col);
            c = c + 1;
        }
        proof {
            assert(data_view(out@) =~= want);
            assert forall|i: int, l: int| 0 <= i < want.len() && 0 <= l < size implies (#[trigger] want[i][l]).len()
                == n by {}
        }
        res.data = out;
    }

    /// Multiplies every column of `a` by `X^k - 1` into `res`.
    ///
    /// Limb `l` of column `c` of `res` is `(X^k - 1)` times limb `l` of
    /// column `c` of `a` for every `l` both have; the remaining limbs of `res`
    /// are cleared. The shape of `res` is unchanged.
    pub fn glwe_mul_xp_minus_one(&self, k: i64, res: &mut Glwe, a: &Glwe)
        requires
            a.degree() == self.degree(),
            old(res).degree() == self.degree(),
            old(res).rank_spec() == a.rank_spec(),
            cols_fit(glwe_mul_xp_minus_one_spec(k as int, a.columns(), old(res).limbs(), old(res).degree())),
        ensures
            final(res).degree() == old(res).degree(),
            final(res).limbs() == old(res).limbs(),
            final(res).columns() == glwe_mul_xp_minus_one_spec(
                k as int,
                a.columns(),
                old(res).limbs(),
                old(res).degree(),
            ),
            final(res).columns().len() == a.columns().len(),
            forall|c: int, l: int, j: int|
                0 <= c < a.columns().len() && 0 <= l < old(res).limbs() && 0 <= j < old(res).degree()
                    ==> #[trigger] final(res).columns()[c][l][j] == (if l < a.limbs() {
                    negacyclic_rotate(k as int, a.columns()[c][l])[j] - a.columns()[c][l][j]
                } else {
                    0
                }),
    {
        proof {
            use_type_invariant(a);
            use_type_invariant(&*res);
            lemma_glwe_mul_xp_minus_one_coefficients(k as int, a.columns(), res.limbs(), res.degree(), a.limbs());
        }
        let n = res.n;
        let size = res.size;
        let cols = a.data.len();
        let ghost want = glwe_mul_xp_minus_one_spec(k as int, a.columns(), size as nat, n as nat);
        let mut out: Vec<Vec<Vec<i64>>> = Vec::new();
        let mut c: usize = 0;
        while c < cols
            invariant
                1 <= n <= u32::MAX,
                a.degree() == n,
                cols == a.data@.len(),
                has_shape(data_view(a.data@), n as nat, a.limbs()),
                a.columns() == data_view(a.data@),
                want == glwe_mul_xp_minus_one_spec(k as int, a.columns(), size as nat, n as nat),
                cols_fit(want),
                c <= cols,
                out@.len() == c,
                forall|i: int| 0 <= i < c ==> column_view(#[trigger] out@[i]) == want[i],
            decreases cols - c,
        {
            proof {
                lemma_column_ok(a.data@, n as nat, a.limbs(), c as int);
                lemma_column_fits(k as int, a.columns(), size as nat, n as nat, c as int);
                assert forall|l: int| 0 <= l < a.data@[c as int]@.len() && l < size implies fits_i64(
                    #[trigger] mul_xp_minus_one(k as int, limb_view(a.data@[c as int]@[l])),
                ) by {
                    assert(a.columns()[c as int][l] == limb_view(a.data@[c as int]@[l]));
                }
            }
            let col = mul_xp_minus_one_column_exec(k, &a.data[c], size, n);
            out.push(col);
            c = c + 1;
        }
        proof {
            assert(data_view(out@) =~= want);
            assert forall|i: int, l: int| 0 <= i < want.len() && 0 <= l < size implies (#[trigger] want[i][l]).len()
                == n by {
                if l < a.columns()[i].len() {
                    assert(a.columns()[i][l].len() == n);
                }
            }
        }
        res.data = out;
    }

    /// Multiplies every limb of every column of `res` by `X^k - 1`, in place.
    pub fn glwe_mul_xp_minus_one_assign(&self, k: i64, res: &mut Glwe)
        requires
            old(res).degree() == self.degree(),
            cols_fit(mul_xp_minus_one_in_place(k as int, old(res).columns())),
        ensures
            final(res).degree() == old(res).degree(),
            final(res).limbs() == old(res).limbs(),
            final(res).columns() == mul_xp_minus_one_in_place(k as int, old(res).columns()),
            final(res).columns().len() == old(res).columns().len(),
            forall|c: int, l: int, j: int|
                0 <= c < old(res).columns().len() && 0 <= l < old(res).limbs() && 0 <= j < old(res).degree()
                    ==> #[trigger] final(res).columns()[c][l][j] == negacyclic_rotate(k as int, old(res).columns()[c][l])[j]
                    - old(res).columns()[c][l][j],
    {
        proof {
            use_type_invariant(&*res);
            lemma_glwe_in_place_coefficients(k as int, res.columns(), res.degree(), res.limbs());
        }
        let n = res.n;
        let size = res.size;
        let cols = res.data.len();
        let ghost old_cols = res.columns();
        let ghost want = mul_xp_minus_one_in_place(k as int, old_cols);
        proof {
            assert(glwe_mul_xp_minus_one_spec(k as int, old_cols, size as nat, n as nat) =~= want) by {
                assert forall|c: int| 0 <= c < cols implies #[trigger] mul_xp_minus_one_column(k as int, old_cols[c], size as nat, n as nat) =~= want[c] by {}
            }
        }
        let mut out: Vec<Vec<Vec<i64>>> = Vec::new();
        let mut c: usize = 0;
        while c < cols
            invariant
                1 <= n <= u32::MAX,
                cols == res.data@.len(),
                size == res.limbs(),
                has_shape(data_view(res.data@), n as nat, size as nat),
                old_cols == data_view(res.data@),
                want == mul_xp_minus_one_in_place(k as int, old_cols),
                want == glwe_mul_xp_minus_one_spec(k as int, old_cols, size as nat, n as nat),
                cols_fit(want),
                c <= cols,
                out@.len() == c,
                forall|i: int| 0 <= i < c ==> column_view(#[trigger] out@[i]) == want[i],
            decreases cols - c,
        {
            proof {
                lemma_column_ok(res.data@, n as nat, size as nat, c as int);
                lemma_column_fits(k as int, old_cols, size as nat, n as nat, c as int);
                assert forall|l: int| 0 <= l < res.data@[c as int]@.len() && l < size implies fits_i64(
                    #[trigger] mul_xp_minus_one(k as int, limb_view(res.data@[c as int]@[l])),
                ) by {
                    assert(old_cols[c as int][l] == limb_view(res.data@[c as int]@[l]));
                }
            }
            let col = mul_xp_minus_one_column_exec(k, &res.data[c], size, n);
            out.push(col);
            c = c + 1;
        }
        proof {
            assert(data_view(out@) =~= want);
            assert forall|i: int, l: int| 0 <= i < want.len() && 0 <= l < size implies (#[trigger] want[i][l]).len()
                == n by {}
        }
        res.data = out;
    }
}

proof fn lemma_column_fits(k: int, a: ColumnsView, size: nat, n: nat, c: int)
    requires
        0 <= c < a.len(),
        cols_fit(glwe_mul_xp_minus_one_spec(k, a, size, n)),
    ensures
        forall|l: int| 0 <= l < a[c].len() && l < size ==> fits_i64(#[trigger] mul_xp_minus_one(k, a[c][l])),
{
    let w = glwe_mul_xp_minus_one_spec(k, a, size, n);
    assert forall|l: int| 0 <= l < a[c].len() && l < size implies fits_i64(#[trigger] mul_xp_minus_one(k, a[c][l])) by {
        assert(w[c][l] == mul_xp_minus_one(k, a[c][l]));
        assert forall|j: int| 0 <= j < w[c][l].len() implies i64::MIN <= #[trigger] w[c][l][j] <= i64::MAX by {}
    }
}

/// Rotating every limb by `X^q` and then by `X^p` rotates it by `X^(p + q)`.
pub proof fn lemma_glwe_rotate_compose(p: int, q: int, cols: ColumnsView)
    ensures
        rotate_in_place(p, rotate_in_place(q, cols)) == rotate_in_place(p + q, cols),
{
    let lhs = rotate_in_place(p, rotate_in_place(q, cols));
    let rhs = rotate_in_place(p + q, cols);
    assert forall|c: int| 0 <= c < cols.len() implies #[trigger] lhs[c] =~= rhs[c] by {
        assert forall|l: int| 0 <= l < cols[c].len() implies #[trigger] lhs[c][l] == rhs[c][l] by {
            lemma_rotate_compose(p, q, cols[c][l]);
        }
    }
    assert(lhs =~= rhs);
}

/// Rotating in place by `X^k` and then by `X^-k` gives back the ciphertext.
pub proof fn lemma_glwe_rotate_inverse(k: int, cols: ColumnsView)
    ensures
        rotate_in_place(-k, rotate_in_place(k, cols)) == cols,
{
    let lhs = rotate_in_place(-k, rotate_in_place(k, cols));
    assert forall|c: int| 0 <= c < cols.len() implies #[trigger] lhs[c] =~= cols[c] by {
        assert forall|l: int| 0 <= l < cols[c].len() implies #[trigger] lhs[c][l] == cols[c][l] by {
            lemma_rotate_inverse(k, cols[c][l]);
        }
    }
    assert(lhs =~= cols);
}

/// Rotating into a destination of the same shape as the source gives the
/// same columns as rotating the source in place.
pub proof fn lemma_glwe_rotate_into_same_shape(k: int, cols: ColumnsView, n: nat, size: nat)
    requires
        has_shape(cols, n, size),
    ensures
        glwe_rotate_spec(k, cols, cols.len(), size, n) == rotate_in_place(k, cols),
{
    let lhs = glwe_rotate_spec(k, cols, cols.len(), size, n);
    let rhs = rotate_in_place(k, cols);
    assert forall|c: int| 0 <= c < cols.len() implies #[trigger] lhs[c] =~= rhs[c] by {}
    assert(lhs =~= rhs);
}

/// Multiplying by `X^k - 1` into a destination of the same shape as the
/// source gives the same columns as multiplying the source in place.
pub proof fn lemma_glwe_mul_xp_minus_one_into_same_shape(k: int, cols: ColumnsView, n: nat, size: nat)
    requires
        has_shape(cols, n, size),
    ensures
        glwe_mul_xp_minus_one_spec(k, cols, size, n) == mul_xp_minus_one_in_place(k, cols),
{
    let lhs = glwe_mul_xp_minus_one_spec(k, cols, size, n);
    let rhs = mul_xp_minus_one_in_place(k, cols);
    assert forall|c: int| 0 <= c < cols.len() implies #[trigger] lhs[c] =~= rhs[c] by {}
    assert(lhs =~= rhs);
}

/// Every coefficient of `(X^k - 1) * a` is the rotated coefficient minus the
/// unrotated one.
pub proof fn lemma_glwe_mul_xp_minus_one_is_rotate_minus(k: int, cols: ColumnsView, c: int, l: int, j: int)
    requires
        0 <= c < cols.len(),
        0 <= l < cols[c].len(),
        0 <= j < cols[c][l].len(),
    ensures
        mul_xp_minus_one_in_place(k, cols)[c][l][j] == rotate_in_place(k, cols)[c][l][j] - cols[c][l][j],
{
}

/// Rotating by `X^k` into a destination of the source's shape, and then by
/// `X^-k` into another destination of that shape, gives back the source.
/// The second rotation's result is the source, whose coefficients fit in an
/// `i64` (`Glwe::well_formed`), so the second call is always allowed.
pub proof fn lemma_glwe_rotate_round_trip(k: int, cols: ColumnsView, n: nat, size: nat)
    requires
        has_shape(cols, n, size),
    ensures
        has_shape(glwe_rotate_spec(k, cols, cols.len(), size, n), n, size),
        glwe_rotate_spec(-k, glwe_rotate_spec(k, cols, cols.len(), size, n), cols.len(), size, n) == cols,
{
    let once = glwe_rotate_spec(k, cols, cols.len(), size, n);
    lemma_glwe_rotate_into_same_shape(k, cols, n, size);
    assert forall|c: int, l: int| 0 <= c < once.len() && 0 <= l < size implies (#[trigger] once[c][l]).len() == n by {}
    lemma_glwe_rotate_into_same_shape(-k, once, n, size);
    lemma_glwe_rotate_inverse(k, cols);
}

/// What multiplying by `X^k` into a destination of `res_cols` columns,
/// `size` limbs and degree `n` leaves in the destination: coefficient `j` of
/// limb `l` of column `c` is coefficient `j` of `X^k` times the source limb
/// when the source has column `c` and limb `l`, and zero otherwise. Every
/// destination column the source lacks, and every destination limb beyond
/// the source's, is zero.
pub proof fn lemma_glwe_rotate_coefficients(k: int, a: ColumnsView, res_cols: nat, size: nat, n: nat, a_size: nat)
    requires
        has_shape(a, n, a_size),
    ensures
        ({
            let r = glwe_rotate_spec(k, a, res_cols, size, n);
            &&& r.len() == res_cols
            &&& forall|c: int| 0 <= c < res_cols ==> (#[trigger] r[c]).len() == size
            &&& forall|c: int, l: int| 0 <= c < res_cols && 0 <= l < size ==> (#[trigger] r[c][l]).len() == n
            &&& forall|c: int, l: int, j: int|
                0 <= c < res_cols && 0 <= l < size && 0 <= j < n ==> #[trigger] r[c][l][j] == (if c < a.len() && l
                    < a_size {
                    negacyclic_rotate(k, a[c][l])[j]
                } else {
                    0
                })
        }),
{
    let r = glwe_rotate_spec(k, a, res_cols, size, n);
    assert forall|c: int, l: int| 0 <= c < res_cols && 0 <= l < size implies (#[trigger] r[c][l]).len() == n by {
        if c < a.len() && l < a_size {
            assert(a[c][l].len() == n);
        }
    }
}

/// What multiplying by `X^k - 1` into a destination of `size` limbs and
/// degree `n` leaves in the destination: coefficient `j` of limb `l` of
/// column `c` is the rotated source coefficient minus the source coefficient
/// when the source has limb `l`, and zero for every limb beyond the source's.
pub proof fn lemma_glwe_mul_xp_minus_one_coefficients(k: int, a: ColumnsView, size: nat, n: nat, a_size: nat)
    requires
        has_shape(a, n, a_size),
    ensures
        ({
            let r = glwe_mul_xp_minus_one_spec(k, a, size, n);
            &&& r.len() == a.len()
            &&& forall|c: int| 0 <= c < a.len() ==> (#[trigger] r[c]).len() == size
            &&& forall|c: int, l: int| 0 <= c < a.len() && 0 <= l < size ==> (#[trigger] r[c][l]).len() == n
            &&& forall|c: int, l: int, j: int|
                0 <= c < a.len() && 0 <= l < size && 0 <= j < n ==> #[trigger] r[c][l][j] == (if l < a_size {
                    negacyclic_rotate(k, a[c][l])[j] - a[c][l][j]
                } else {
                    0
                })
        }),
{
    let r = glwe_mul_xp_minus_one_spec(k, a, size, n);
    assert forall|c: int, l: int| 0 <= c < a.len() && 0 <= l < size implies (#[trigger] r[c][l]).len() == n by {
        if l < a_size {
            assert(a[c][l].len() == n);
        }
    }
    assert forall|c: int, l: int, j: int|
        0 <= c < a.len() && 0 <= l < size && 0 <= j < n implies #[trigger] r[c][l][j] == (if l < a_size {
            negacyclic_rotate(k, a[c][l])[j] - a[c][l][j]
        } else {
            0
        }) by {
        if l < a_size {
            assert(a[c][l].len() == n);
        }
    }
}

/// Multiplying in place by `X^k` or by `X^k - 1` keeps the shape, and each
/// coefficient is that of the rotated limb, or the rotated limb minus the
/// limb.
pub proof fn lemma_glwe_in_place_coefficients(k: int, cols: ColumnsView, n: nat, size: nat)
    requires
        has_shape(cols, n, size),
    ensures
        has_shape(rotate_in_place(k, cols), n, size),
        has_shape(mul_xp_minus_one_in_place(k, cols), n, size),
        rotate_in_place(k, cols).len() == cols.len(),
        mul_xp_minus_one_in_place(k, cols).len() == cols.len(),
        forall|c: int, l: int, j: int|
            0 <= c < cols.len() && 0 <= l < size && 0 <= j < n ==> #[trigger] rotate_in_place(k, cols)[c][l][j]
                == negacyclic_rotate(k, cols[c][l])[j],
        forall|c: int, l: int, j: int|
            0 <= c < cols.len() && 0 <= l < size && 0 <= j < n ==> #[trigger] mul_xp_minus_one_in_place(k, cols)[c][l][j]
                == negacyclic_rotate(k, cols[c][l])[j] - cols[c][l][j],
{
    let r = rotate_in_place(k, cols);
    let m = mul_xp_minus_one_in_place(k, cols);
    assert forall|c: int, l: int| 0 <= c < r.len() && 0 <= l < size implies (#[trigger] r[c][l]).len() == n by {}
    assert forall|c: int, l: int| 0 <= c < m.len() && 0 <= l < size implies (#[trigger] m[c][l]).len() == n by {}
}

/// The integer view of nested coefficient data holds the coefficients
/// themselves, at the same column, limb and position.
pub proof fn lemma_data_view_values(d: Seq<Vec<Vec<i64>>>)
    ensures
        data_view(d).len() == d.len(),
        forall|c: int| 0 <= c < d.len() ==> (#[trigger] data_view(d)[c]).len() == d[c]@.len(),
        forall|c: int, l: int|
            0 <= c < d.len() && 0 <= l < d[c]@.len() ==> (#[trigger] data_view(d)[c][l]).len() == d[c]@[l]@.len(),
        forall|c: int, l: int, j: int|
            0 <= c < d.len() && 0 <= l < d[c]@.len() && 0 <= j < d[c]@[l]@.len() ==> #[trigger] data_view(d)[c][l][j]
                == d[c]@[l]@[j] as int,
{
}

} // verus!
