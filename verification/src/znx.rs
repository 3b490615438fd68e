//! Negacyclic ring kernels over `Z[X] / (X^n + 1)`.
//!
//! A polynomial of degree `< n` is a slice of `n` signed coefficients.
//! Multiplying by the monomial `X^p` rotates the coefficients and flips the
//! sign of those that wrap around, because `X^n == -1`.
use vstd::arithmetic::div_mod::*;
use vstd::arithmetic::mul::*;
use vstd::prelude::*;

verus! {

/// The coefficients of a polynomial as mathematical integers.
pub open spec fn ints(s: Seq<i64>) -> Seq<int> {
    s.map_values(|x: i64| x as int)
}

/// Coefficient `j` of `X^p * a` in `Z[X] / (X^n + 1)`, where `n == a.len()`.
///
/// The source coefficient sits at `q = (j - p) mod 2n`; if `q >= n` the
/// coefficient wrapped around once and changes sign.
pub open spec fn rotated_coeff(p: int, a: Seq<int>, j: int) -> int {
    let n = a.len() as int;
    let q = (j - p) % (2 * n);
    if q < n {
        a[q]
    } else {
        -a[q - n]
    }
}

/// `X^p * a` in `Z[X] / (X^n + 1)`.
pub open spec fn negacyclic_rotate(p: int, a: Seq<int>) -> Seq<int> {
    Seq::new(a.len(), |j: int| rotated_coeff(p, a, j))
}

/// `(X^p - 1) * a` in `Z[X] / (X^n + 1)`.
pub open spec fn mul_xp_minus_one(p: int, a: Seq<int>) -> Seq<int> {
    Seq::new(a.len(), |j: int| rotated_coeff(p, a, j) - a[j])
}

/// The all-zero polynomial of `n` coefficients.
pub open spec fn zero_poly(n: nat) -> Seq<int> {
    Seq::new(n, |j: int| 0int)
}

/// Every coefficient of `s` fits in an `i64`.
pub open spec fn fits_i64(s: Seq<int>) -> bool {
    forall|i: int| 0 <= i < s.len() ==> i64::MIN <= #[trigger] s[i] <= i64::MAX
}

proof fn lemma_mod_shift(x: int, k: int, m: int)
    requires
        m > 0,
    ensures
        (x + k * m) % m == x % m,
{
    lemma_mul_is_commutative(k, m);
    lemma_mod_multiples_vanish(k, x, m);
}

/// The Euclidean remainder of a negative `i64`, computed without negating it.
proof fn lemma_neg_rem(x: int, m: int)
    requires
        x >= 0,
        m > 0,
    ensures
        (-x - 1) % m == m - 1 - x % m,
{
    lemma_fundamental_div_mod(x, m);
    lemma_mod_bound(x, m);
    let d = x / m;
    let s = x % m;
    assert(-x - 1 == (-d - 1) * m + (m - 1 - s)) by (nonlinear_arith)
        requires
            x == m * d + s,
    ;
    lemma_fundamental_div_mod_converse(-x - 1, m, -d - 1, m - 1 - s);
}

/// `p mod m`, the Euclidean remainder of a signed shift.
fn shift_rem(p: i64, m: u64) -> (r: u64)
    requires
        m > 0,
    ensures
        r < m,
        r as int == (p as int) % (m as int),
{
    if p >= 0 {
        let r = (p as u64) % m;
        r
    } else {
        let x: u64 = (-(p + 1)) as u64;
        let s = x % m;
        proof {
            lemma_neg_rem(x as int, m as int);
        }
        m - 1 - s
    }
}

/// Index of the source coefficient of coefficient `j` of `X^p * a`, taken
/// modulo `m == 2n`, given `r == p mod m`.
fn source_index(j: usize, r: u64, m: u64, Ghost(p): Ghost<int>) -> (q: u64)
    requires
        0 < m <= 0x2_0000_0000,
        j < m,
        r < m,
        r as int == p % (m as int),
    ensures
        q < m,
        q as int == (j as int - p) % (m as int),
{
    let q: u64 = if (j as u64) >= r {
        (j as u64) - r
    } else {
        (j as u64) + m - r
    };
    proof {
        let mi = m as int;
        let ji = j as int;
        lemma_fundamental_div_mod(p, mi);
        let t = p / mi;
        assert(p == mi * t + r as int);
        lemma_mul_is_commutative(mi, t);
        assert(ji - p == (ji - r as int) + (-t) * mi) by (nonlinear_arith)
            requires
                p == t * mi + r as int,
        ;
        lemma_mod_shift(ji - r as int, -t, mi);
        if ji >= r as int {
            lemma_small_mod((ji - r as int) as nat, mi as nat);
        } else {
            lemma_mod_shift(ji - r as int, 1, mi);
            lemma_small_mod((ji - r as int + mi) as nat, mi as nat);
        }
    }
    q
}

/// Coefficient `j` of `X^p * a` as a wide integer, given `q == (j - p) mod 2n`.
fn rotated_coeff_wide(a: &[i64], q: u64, j: usize, Ghost(p): Ghost<int>) -> (v: i128)
    requires
        0 < a.len() <= u32::MAX,
        j < a.len(),
        q < 2 * a.len(),
        q as int == (j as int - p) % (2 * a.len() as int),
    ensures
        v == rotated_coeff(p, ints(a@), j as int),
{
    let n = a.len();
    if q < n as u64 {
        a[q as usize] as i128
    } else {
        -(a[(q - n as u64) as usize] as i128)
    }
}

/// Multiplies `a` by `X^p` in `Z[X] / (X^n + 1)`, `n == a.len()`.
pub fn znx_rotate(p: i64, a: &[i64]) -> (res: Vec<i64>)
    requires
        a.len() <= u32::MAX,
        fits_i64(negacyclic_rotate(p as int, ints(a@))),
    ensures
        res.len() == a.len(),
        ints(res@) == negacyclic_rotate(p as int, ints(a@)),
{
    let n = a.len();
    let mut res: Vec<i64> = Vec::new();
    let ghost want = negacyclic_rotate(p as int, ints(a@));
    if n == 0 {
        proof {
            assert(ints(res@) =~= want);
        }
        return res;
    }
    let m: u64 = 2 * (n as u64);
    let r = shift_rem(p, m);
    let mut j: usize = 0;
    while j < n
        invariant
            n == a.len(),
            0 < n <= u32::MAX,
            m == 2 * n,
            r < m,
            r as int == (p as int) % (m as int),
            want == negacyclic_rotate(p as int, ints(a@)),
            fits_i64(want),
            j <= n,
            res.len() == j,
            forall|i: int| 0 <= i < j ==> (#[trigger] res@[i]) as int == want[i],
        decreases n - j,
    {
        let q = source_index(j, r, m, Ghost(p as int));
        let v = rotated_coeff_wide(a, q, j, Ghost(p as int));
        proof {
            assert(want[j as int] == v);
        }
        res.push(v as i64);
        j = j + 1;
    }
    proof {
        assert(ints(res@) =~= want);
    }
    res
}

/// Multiplies `a` by `X^p - 1` in `Z[X] / (X^n + 1)`, `n == a.len()`.
///
/// Each coefficient is formed in a wider integer, so only the coefficients of
/// the result have to fit in an `i64`.
pub fn znx_mul_xp_minus_one(p: i64, a: &[i64]) -> (res: Vec<i64>)
    requires
        a.len() <= u32::MAX,
        fits_i64(mul_xp_minus_one(p as int, ints(a@))),
    ensures
        res.len() == a.len(),
        ints(res@) == mul_xp_minus_one(p as int, ints(a@)),
{
    let n = a.len();
    let mut res: Vec<i64> = Vec::new();
    let ghost want = mul_xp_minus_one(p as int, ints(a@));
    if n == 0 {
        proof {
            assert(ints(res@) =~= want);
        }
        return res;
    }
    let m: u64 = 2 * (n as u64);
    let r = shift_rem(p, m);
    let mut j: usize = 0;
    while j < n
        invariant
            n == a.len(),
            0 < n <= u32::MAX,
            m == 2 * n,
            r < m,
            r as int == (p as int) % (m as int),
            want == mul_xp_minus_one(p as int, ints(a@)),
            fits_i64(want),
            j <= n,
            res.len() == j,
            forall|i: int| 0 <= i < j ==> (#[trigger] res@[i]) as int == want[i],
        decreases n - j,
    {
        let q = source_index(j, r, m, Ghost(p as int));
        let v = rotated_coeff_wide(a, q, j, Ghost(p as int));
        let d = v - a[j] as i128;
        proof {
            assert(ints(a@)[j as int] == a@[j as int] as int);
            assert(want[j as int] == d);
        }
        res.push(d as i64);
        j = j + 1;
    }
    proof {
        assert(ints(res@) =~= want);
    }
    res
}

/// Every coefficient of an `i64` polynomial fits in an `i64`.
pub proof fn lemma_ints_fit(s: Seq<i64>)
    ensures
        fits_i64(ints(s)),
{
}

/// Multiplying by `X^q` and then by `X^p` multiplies by `X^(p + q)`.
pub proof fn lemma_rotate_compose(p: int, q: int, a: Seq<int>)
    ensures
        negacyclic_rotate(p, negacyclic_rotate(q, a)) == negacyclic_rotate(p + q, a),
{
    let n = a.len() as int;
    let m = 2 * n;
    let b = negacyclic_rotate(q, a);
    assert forall|j: int| 0 <= j < n implies #[trigger] rotated_coeff(p, b, j) == rotated_coeff(p + q, a, j) by {
        let u = (j - p) % m;
        lemma_mod_bound(j - p, m);
        let w = (j - (p + q)) % m;
        lemma_mod_bound(j - (p + q), m);
        // w == (u - q) mod m
        lemma_sub_mod_noop(j - p, q, m);
        lemma_sub_mod_noop(u, q, m);
        lemma_small_mod(u as nat, m as nat);
        assert((u - q) % m == w);
        if u < n {
            assert(rotated_coeff(p, b, j) == b[u]);
        } else {
            assert(rotated_coeff(p, b, j) == -b[u - n]);
            // (u - n - q) mod m == (w - n) mod m
            lemma_sub_mod_noop(u - q, n, m);
            lemma_small_mod(n as nat, m as nat);
            assert((u - n - q) % m == (w - n) % m);
            if w >= n {
                lemma_small_mod((w - n) as nat, m as nat);
            } else {
                lemma_mod_shift(w - n, 1, m);
                lemma_small_mod((w - n + m) as nat, m as nat);
            }
        }
    }
    assert(negacyclic_rotate(p, b) =~= negacyclic_rotate(p + q, a));
}

/// Multiplying by `X^0` leaves a polynomial unchanged.
pub proof fn lemma_rotate_zero(a: Seq<int>)
    ensures
        negacyclic_rotate(0, a) == a,
{
    let n = a.len() as int;
    assert forall|j: int| 0 <= j < n implies #[trigger] rotated_coeff(0, a, j) == a[j] by {
        lemma_small_mod(j as nat, (2 * n) as nat);
    }
    assert(negacyclic_rotate(0, a) =~= a);
}

/// `X^p` and `X^-p` are inverse: rotating back undoes a rotation.
pub proof fn lemma_rotate_inverse(p: int, a: Seq<int>)
    ensures
        negacyclic_rotate(-p, negacyclic_rotate(p, a)) == a,
{
    lemma_rotate_compose(-p, p, a);
    lemma_rotate_zero(a);
}

/// `X^(2n) == 1`: rotation shifts are taken modulo `2n`.
pub proof fn lemma_rotate_period(p: int, k: int, a: Seq<int>)
    ensures
        negacyclic_rotate(p + k * (2 * a.len()), a) == negacyclic_rotate(p, a),
{
    let n = a.len() as int;
    let m = 2 * n;
    if n > 0 {
        assert forall|j: int| 0 <= j < n implies #[trigger] rotated_coeff(p + k * m, a, j) == rotated_coeff(p, a, j) by {
            assert(j - (p + k * m) == (j - p) + (-k) * m) by (nonlinear_arith);
            lemma_mod_shift(j - p, -k, m);
        }
    }
    assert(negacyclic_rotate(p + k * m, a) =~= negacyclic_rotate(p, a));
}

/// `X^n == -1`: rotating by `n` negates every coefficient.
pub proof fn lemma_rotate_half_turn(a: Seq<int>)
    ensures
        negacyclic_rotate(a.len() as int, a) == Seq::new(a.len(), |j: int| -a[j]),
{
    let n = a.len() as int;
    let m = 2 * n;
    assert forall|j: int| 0 <= j < n implies #[trigger] rotated_coeff(n, a, j) == -a[j] by {
        lemma_mod_shift(j - n, 1, m);
        lemma_small_mod((j + n) as nat, m as nat);
    }
    assert(negacyclic_rotate(n, a) =~= Seq::new(a.len(), |j: int| -a[j]));
}

/// `(X^0 - 1) * a == 0`.
pub proof fn lemma_mul_xp_minus_one_zero(a: Seq<int>)
    ensures
        mul_xp_minus_one(0, a) == zero_poly(a.len()),
{
    lemma_rotate_zero(a);
    assert forall|j: int| 0 <= j < a.len() implies #[trigger] rotated_coeff(0, a, j) == a[j] by {
        assert(negacyclic_rotate(0, a)[j] == a[j]);
    }
    assert(mul_xp_minus_one(0, a) =~= zero_poly(a.len()));
}

/// Multiplying by `X` moves every coefficient up by one place, and the top
/// coefficient wraps to the bottom with its sign flipped (`X^n == -1`).
pub proof fn lemma_rotate_by_one(a: Seq<int>)
    requires
        a.len() >= 1,
    ensures
        negacyclic_rotate(1, a).len() == a.len(),
        negacyclic_rotate(1, a)[0] == -a[a.len() - 1],
        forall|j: int| 1 <= j < a.len() ==> #[trigger] negacyclic_rotate(1, a)[j] == a[j - 1],
{
    let n = a.len() as int;
    let m = 2 * n;
    lemma_mod_shift(-1, 1, m);
    lemma_small_mod((m - 1) as nat, m as nat);
    assert(rotated_coeff(1, a, 0) == -a[n - 1]);
    assert forall|j: int| 1 <= j < n implies #[trigger] negacyclic_rotate(1, a)[j] == a[j - 1] by {
        lemma_small_mod((j - 1) as nat, m as nat);
    }
}

/// `(X^p - 1) * a` is `X^p * a` minus `a`, coefficient by coefficient.
pub proof fn lemma_mul_xp_minus_one_is_rotate_minus(p: int, a: Seq<int>)
    ensures
        mul_xp_minus_one(p, a).len() == a.len(),
        forall|j: int| 0 <= j < a.len() ==> #[trigger] mul_xp_minus_one(p, a)[j] == negacyclic_rotate(p, a)[j] - a[j],
{
}

/// Multiplication by `X^p` distributes over the sum of two polynomials of
/// the same degree.
pub proof fn lemma_rotate_linear(p: int, a: Seq<int>, b: Seq<int>)
    requires
        a.len() == b.len(),
    ensures
        negacyclic_rotate(p, Seq::new(a.len(), |j: int| a[j] + b[j])) == Seq::new(
            a.len(),
            |j: int| negacyclic_rotate(p, a)[j] + negacyclic_rotate(p, b)[j],
        ),
{
    let n = a.len() as int;
    let s = Seq::new(a.len(), |j: int| a[j] + b[j]);
    if n > 0 {
        assert forall|j: int| 0 <= j < n implies #[trigger] rotated_coeff(p, s, j) == rotated_coeff(p, a, j)
            + rotated_coeff(p, b, j) by {
            lemma_mod_bound(j - p, 2 * n);
        }
    }
    assert(negacyclic_rotate(p, s) =~= Seq::new(
        a.len(),
        |j: int| negacyclic_rotate(p, a)[j] + negacyclic_rotate(p, b)[j],
    ));
}

/// The integer view of a polynomial holds its coefficients, in order.
pub proof fn lemma_ints_values(s: Seq<i64>)
    ensures
        ints(s).len() == s.len(),
        forall|i: int| 0 <= i < s.len() ==> #[trigger] ints(s)[i] == s[i] as int,
{
}

} // verus!
