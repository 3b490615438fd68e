//! Exact complex arithmetic on vectors of slots, each slot a pair of real and
//! imaginary parts held as separate integer vectors. It derives the values a
//! homomorphic computation is expected to produce: scaled vectors, slot-wise
//! products and running products of factors.
use crate::znx::{fits_i64, ints};
use vstd::arithmetic::div_mod::{lemma_fundamental_div_mod, lemma_fundamental_div_mod_converse, lemma_mod_bound};
use vstd::arithmetic::mul::{
    lemma_mul_is_associative, lemma_mul_is_distributive_add, lemma_mul_is_distributive_add_other_way,
    lemma_mul_is_distributive_sub, lemma_mul_is_distributive_sub_other_way,
};
use vstd::prelude::*;

verus! {

/// Real part of `(a + b i) * (c + d i)`.
pub open spec fn cmul_re(a: int, b: int, c: int, d: int) -> int {
    a * c - b * d
}

/// Imaginary part of `(a + b i) * (c + d i)`.
pub open spec fn cmul_im(a: int, b: int, c: int, d: int) -> int {
    a * d + b * c
}

/// Every entry of `v` multiplied by `scale`.
pub open spec fn scaled_spec(v: Seq<i64>, scale: int) -> Seq<int> {
    Seq::new(v.len(), |i: int| v[i] * scale)
}

/// Real parts of the slot-wise products `a[i] * b[i]`, over the slots of `a`.
pub open spec fn cmul_re_spec(a_re: Seq<i64>, a_im: Seq<i64>, b_re: Seq<i64>, b_im: Seq<i64>) -> Seq<int> {
    Seq::new(a_re.len(), |i: int| cmul_re(a_re[i] as int, a_im[i] as int, b_re[i] as int, b_im[i] as int))
}

/// Imaginary parts of the slot-wise products `a[i] * b[i]`, over the slots of `a`.
pub open spec fn cmul_im_spec(a_re: Seq<i64>, a_im: Seq<i64>, b_re: Seq<i64>, b_im: Seq<i64>) -> Seq<int> {
    Seq::new(a_re.len(), |i: int| cmul_im(a_re[i] as int, a_im[i] as int, b_re[i] as int, b_im[i] as int))
}

/// The slots of `a` and `b` exist wherever `a_re` has one.
pub open spec fn covers(a_re: Seq<i64>, a_im: Seq<i64>, b_re: Seq<i64>, b_im: Seq<i64>) -> bool {
    a_im.len() >= a_re.len() && b_re.len() >= a_re.len() && b_im.len() >= a_re.len()
}

/// `a * b` computed without overflow: every `i64` product fits in an `i128`.
fn mul_wide(a: i64, b: i64) -> (r: i128)
    ensures
        r == a * b,
        -0x4000_0000_0000_0000_0000_0000_0000_0000 <= r <= 0x4000_0000_0000_0000_0000_0000_0000_0000,
{
    proof {
        assert(-0x4000_0000_0000_0000_0000_0000_0000_0000 <= (a as int) * (b as int)
            <= 0x4000_0000_0000_0000_0000_0000_0000_0000) by (nonlinear_arith)
            requires
                i64::MIN <= a <= i64::MAX,
                i64::MIN <= b <= i64::MAX,
        ;
    }
    (a as i128) * (b as i128)
}

/// Multiplies every entry of `v` by `scale`.
pub fn scaled(v: &[i64], scale: i64) -> (r: Vec<i64>)
    requires
        fits_i64(scaled_spec(v@, scale as int)),
    ensures
        ints(r@) == scaled_spec(v@, scale as int),
        r@.len() == v@.len(),
        forall|i: int| 0 <= i < v@.len() ==> #[trigger] r@[i] == v@[i] * scale,
{
    let mut r: Vec<i64> = Vec::new();
    let ghost want = scaled_spec(v@, scale as int);
    let mut i: usize = 0;
    while i < v.len()
        invariant
            want == scaled_spec(v@, scale as int),
            fits_i64(want),
            i <= v.len(),
            r@.len() == i,
            forall|j: int| 0 <= j < i ==> (#[trigger] r@[j]) as int == want[j],
        decreases v.len() - i,
    {
        let p = mul_wide(v[i], scale);
        proof {
            assert(want[i as int] == p);
        }
        r.push(p as i64);
        i = i + 1;
    }
    proof {
        assert(ints(r@) =~= want);
        assert forall|i: int| 0 <= i < v@.len() implies #[trigger] r@[i] == v@[i] * scale by {
            assert(want[i] == v@[i] * scale);
        }
    }
    r
}

/// Multiplies the real and the imaginary parts by `scale`.
pub fn scaled_pair(re: &[i64], im: &[i64], scale: i64) -> (r: (Vec<i64>, Vec<i64>))
    requires
        fits_i64(scaled_spec(re@, scale as int)),
        fits_i64(scaled_spec(im@, scale as int)),
    ensures
        ints(r.0@) == scaled_spec(re@, scale as int),
        ints(r.1@) == scaled_spec(im@, scale as int),
        r.0@.len() == re@.len() && r.1@.len() == im@.len(),
        forall|i: int| 0 <= i < re@.len() ==> #[trigger] r.0@[i] == re@[i] * scale,
        forall|i: int| 0 <= i < im@.len() ==> #[trigger] r.1@[i] == im@[i] * scale,
{
    let re = scaled(re, scale);
    let im = scaled(im, scale);
    (re, im)
}

/// Slot-wise complex product `a * b` over the slots of `a_re`.
pub fn cmul(a_re: &[i64], a_im: &[i64], b_re: &[i64], b_im: &[i64]) -> (r: (Vec<i64>, Vec<i64>))
    requires
        covers(a_re@, a_im@, b_re@, b_im@),
        fits_i64(cmul_re_spec(a_re@, a_im@, b_re@, b_im@)),
        fits_i64(cmul_im_spec(a_re@, a_im@, b_re@, b_im@)),
    ensures
        ints(r.0@) == cmul_re_spec(a_re@, a_im@, b_re@, b_im@),
        ints(r.1@) == cmul_im_spec(a_re@, a_im@, b_re@, b_im@),
        r.0@.len() == a_re@.len() && r.1@.len() == a_re@.len(),
        forall|i: int|
            0 <= i < a_re@.len() ==> (#[trigger] r.0@[i]) as int == cmul_re(
                a_re@[i] as int,
                a_im@[i] as int,
                b_re@[i] as int,
                b_im@[i] as int,
            ),
        forall|i: int|
            0 <= i < a_re@.len() ==> (#[trigger] r.1@[i]) as int == cmul_im(
                a_re@[i] as int,
                a_im@[i] as int,
                b_re@[i] as int,
                b_im@[i] as int,
            ),
{
    let m = a_re.len();
    let ghost want_re = cmul_re_spec(a_re@, a_im@, b_re@, b_im@);
    let ghost want_im = cmul_im_spec(a_re@, a_im@, b_re@, b_im@);
    let mut re: Vec<i64> = Vec::new();
    let mut im: Vec<i64> = Vec::new();
    let mut i: usize = 0;
    while i < m
        invariant
            m == a_re.len(),
            covers(a_re@, a_im@, b_re@, b_im@),
            want_re == cmul_re_spec(a_re@, a_im@, b_re@, b_im@),
            want_im == cmul_im_spec(a_re@, a_im@, b_re@, b_im@),
            fits_i64(want_re),
            fits_i64(want_im),
            i <= m,
            re@.len() == i,
            im@.len() == i,
            forall|j: int| 0 <= j < i ==> (#[trigger] re@[j]) as int == want_re[j],
            forall|j: int| 0 <= j < i ==> (#[trigger] im@[j]) as int == want_im[j],
        decreases m - i,
    {
        proof {
            assert(i64::MIN <= want_re[i as int] <= i64::MAX);
            assert(i64::MIN <= want_im[i as int] <= i64::MAX);
        }
        let (x, y) = cmul_one(a_re[i], a_im[i], b_re[i], b_im[i]);
        proof {
            assert(want_re[i as int] == x);
            assert(want_im[i as int] == y);
        }
        re.push(x);
        im.push(y);
        i = i + 1;
    }
    proof {
        assert(ints(re@) =~= want_re);
        assert(ints(im@) =~= want_im);
    }
    (re, im)
}

/// `(a + b i) * (c + d i)` for one slot.
fn cmul_one(a: i64, b: i64, c: i64, d: i64) -> (r: (i64, i64))
    requires
        i64::MIN <= cmul_re(a as int, b as int, c as int, d as int) <= i64::MAX,
        i64::MIN <= cmul_im(a as int, b as int, c as int, d as int) <= i64::MAX,
    ensures
        r.0 == cmul_re(a as int, b as int, c as int, d as int),
        r.1 == cmul_im(a as int, b as int, c as int, d as int),
{
    let ac = mul_wide(a, c);
    let bd = mul_wide(b, d);
    let ad = mul_wide(a, d);
    let bc = mul_wide(b, c);
    let re = ac - bd;
    let im = ad + bc;
    (re as i64, im as i64)
}

/// Slot-wise product of `a` with the constant `c_re + c_im i`.
pub fn cmul_scalar(a_re: &[i64], a_im: &[i64], c_re: i64, c_im: i64) -> (r: (Vec<i64>, Vec<i64>))
    requires
        a_im.len() >= a_re.len(),
        forall|i: int| 0 <= i < a_re.len() ==> i64::MIN <= #[trigger] cmul_re(a_re[i] as int, a_im[i] as int, c_re as int, c_im as int) <= i64::MAX,
        forall|i: int| 0 <= i < a_re.len() ==> i64::MIN <= #[trigger] cmul_im(a_re[i] as int, a_im[i] as int, c_re as int, c_im as int) <= i64::MAX,
    ensures
        r.0@.len() == a_re.len(),
        r.1@.len() == a_re.len(),
        forall|i: int| 0 <= i < a_re.len() ==> (#[trigger] r.0@[i]) as int == cmul_re(a_re[i] as int, a_im[i] as int, c_re as int, c_im as int),
        forall|i: int| 0 <= i < a_re.len() ==> (#[trigger] r.1@[i]) as int == cmul_im(a_re[i] as int, a_im[i] as int, c_re as int, c_im as int),
{
    let m = a_re.len();
    let mut re: Vec<i64> = Vec::new();
    let mut im: Vec<i64> = Vec::new();
    let mut i: usize = 0;
    while i < m
        invariant
            m == a_re.len(),
            a_im.len() >= m,
            forall|i: int| 0 <= i < a_re.len() ==> i64::MIN <= #[trigger] cmul_re(a_re[i] as int, a_im[i] as int, c_re as int, c_im as int) <= i64::MAX,
            forall|i: int| 0 <= i < a_re.len() ==> i64::MIN <= #[trigger] cmul_im(a_re[i] as int, a_im[i] as int, c_re as int, c_im as int) <= i64::MAX,
            i <= m,
            re@.len() == i,
            im@.len() == i,
            forall|j: int| 0 <= j < i ==> (#[trigger] re@[j]) as int == cmul_re(a_re[j] as int, a_im[j] as int, c_re as int, c_im as int),
            forall|j: int| 0 <= j < i ==> (#[trigger] im@[j]) as int == cmul_im(a_re[j] as int, a_im[j] as int, c_re as int, c_im as int),
        decreases m - i,
    {
        let (x, y) = cmul_one(a_re[i], a_im[i], c_re, c_im);
        re.push(x);
        im.push(y);
        i = i + 1;
    }
    (re, im)
}

/// Multiplies the accumulator slot-wise by `re + im i`, in place, over the
/// slots of `acc_re`.
pub fn cmul_assign(acc_re: &mut Vec<i64>, acc_im: &mut Vec<i64>, re: &[i64], im: &[i64])
    requires
        covers(old(acc_re)@, old(acc_im)@, re@, im@),
        fits_i64(cmul_re_spec(old(acc_re)@, old(acc_im)@, re@, im@)),
        fits_i64(cmul_im_spec(old(acc_re)@, old(acc_im)@, re@, im@)),
    ensures
        ints(final(acc_re)@) == cmul_re_spec(old(acc_re)@, old(acc_im)@, re@, im@),
        final(acc_im)@.len() == old(acc_im)@.len(),
        forall|i: int| 0 <= i < old(acc_re)@.len() ==> (#[trigger] final(acc_im)@[i]) as int == cmul_im_spec(
            old(acc_re)@,
            old(acc_im)@,
            re@,
            im@,
        )[i],
        forall|i: int| old(acc_re)@.len() <= i < old(acc_im)@.len() ==> #[trigger] final(acc_im)@[i] == old(acc_im)@[i],
        final(acc_re)@.len() == old(acc_re)@.len(),
        forall|i: int|
            0 <= i < old(acc_re)@.len() ==> (#[trigger] final(acc_re)@[i]) as int == cmul_re(
                old(acc_re)@[i] as int,
                old(acc_im)@[i] as int,
                re@[i] as int,
                im@[i] as int,
            ) && final(acc_im)@[i] as int == cmul_im(
                old(acc_re)@[i] as int,
                old(acc_im)@[i] as int,
                re@[i] as int,
                im@[i] as int,
            ),
{
    let ghost a0 = acc_re@;
    let ghost b0 = acc_im@;
    let ghost want_re = cmul_re_spec(a0, b0, re@, im@);
    let ghost want_im = cmul_im_spec(a0, b0, re@, im@);
    let m = acc_re.len();
    let mut i: usize = 0;
    while i < m
        invariant
            m == a0.len(),
            acc_re@.len() == m,
            acc_im@.len() == b0.len(),
            covers(a0, b0, re@, im@),
            want_re == cmul_re_spec(a0, b0, re@, im@),
            want_im == cmul_im_spec(a0, b0, re@, im@),
            fits_i64(want_re),
            fits_i64(want_im),
            i <= m,
            forall|j: int| 0 <= j < i ==> (#[trigger] acc_re@[j]) as int == want_re[j],
            forall|j: int| 0 <= j < i ==> (#[trigger] acc_im@[j]) as int == want_im[j],
            forall|j: int| i <= j < m ==> #[trigger] acc_re@[j] == a0[j],
            forall|j: int| i <= j < b0.len() ==> #[trigger] acc_im@[j] == b0[j],
        decreases m - i,
    {
        let a = acc_re[i];
        let b = acc_im[i];
        let c = re[i];
        let d = im[i];
        proof {
            assert(a == a0[i as int] && b == b0[i as int]);
            assert(i64::MIN <= want_re[i as int] <= i64::MAX);
            assert(i64::MIN <= want_im[i as int] <= i64::MAX);
        }
        let (x, y) = cmul_one(a, b, c, d);
        proof {
            assert(want_re[i as int] == x);
            assert(want_im[i as int] == y);
        }
        acc_re.set(i, x);
        acc_im.set(i, y);
        i = i + 1;
    }
    proof {
        assert(ints(acc_re@) =~= want_re);
    }
}

/// Half of `x`; exact when `x` is even.
pub open spec fn half(x: int) -> int {
    x / 2
}

/// Every entry of `v` is even, so halving it is exact.
pub open spec fn all_even(v: Seq<i64>) -> bool {
    forall|i: int| 0 <= i < v.len() ==> (#[trigger] v[i]) % 2 == 0
}

/// Halving an even integer is exact: twice the half gives it back.
pub proof fn lemma_half_exact(x: int)
    requires
        x % 2 == 0,
    ensures
        2 * half(x) == x,
{
}

/// Every entry of `v` halved.
pub open spec fn halved(v: Seq<i64>) -> Seq<int> {
    Seq::new(v.len(), |i: int| half(v[i] as int))
}

/// The complex product of the first `k` factors of a slot, starting from
/// `1 + 0 i`; the factors alternate `a`, `b`, `a`, `b`, ...
pub open spec fn running_product(k: nat, a: (int, int), b: (int, int)) -> (int, int)
    decreases k,
{
    if k == 0 {
        (1, 0)
    } else {
        let acc = running_product((k - 1) as nat, a, b);
        let f = if (k - 1) % 2 == 0 {
            a
        } else {
            b
        };
        (cmul_re(acc.0, acc.1, f.0, f.1), cmul_im(acc.0, acc.1, f.0, f.1))
    }
}

/// Slot `i` of the first pair of vectors, halved.
pub open spec fn first_factor(re1: Seq<i64>, im1: Seq<i64>, i: int) -> (int, int) {
    (half(re1[i] as int), half(im1[i] as int))
}

/// Slot `i` of the second pair of vectors, halved.
pub open spec fn second_factor(re2: Seq<i64>, im2: Seq<i64>, i: int) -> (int, int) {
    (half(re2[i] as int), half(im2[i] as int))
}

/// Every partial running product of every slot fits in an `i64`.
pub open spec fn products_fit(re1: Seq<i64>, im1: Seq<i64>, re2: Seq<i64>, im2: Seq<i64>, n: nat) -> bool {
    forall|i: int, k: nat|
        0 <= i < re1.len() && 1 <= k <= n ==> {
            let p = #[trigger] running_product(k, first_factor(re1, im1, i), second_factor(re2, im2, i));
            i64::MIN <= p.0 <= i64::MAX && i64::MIN <= p.1 <= i64::MAX
        }
}

fn half_exec(x: i64) -> (r: i64)
    ensures
        r == half(x as int),
{
    if x >= 0 {
        x / 2
    } else {
        let y: u64 = (-(x + 1)) as u64;
        let d = y / 2;
        proof {
            lemma_fundamental_div_mod(y as int, 2);
            lemma_mod_bound(y as int, 2);
            let s = (y as int) % 2;
            assert(x as int == (-(d as int) - 1) * 2 + (1 - s));
            lemma_fundamental_div_mod_converse(x as int, 2, -(d as int) - 1, 1 - s);
        }
        -(d as i64) - 1
    }
}

fn halve_exec(v: &[i64]) -> (r: Vec<i64>)
    ensures
        ints(r@) == halved(v@),
        r@.len() == v@.len(),
        forall|j: int| 0 <= j < v@.len() ==> (#[trigger] r@[j]) as int == half(v@[j] as int),
{
    let mut r: Vec<i64> = Vec::new();
    let mut i: usize = 0;
    while i < v.len()
        invariant
            i <= v.len(),
            r@.len() == i,
            forall|j: int| 0 <= j < i ==> (#[trigger] r@[j]) as int == half(v@[j] as int),
        decreases v.len() - i,
    {
        r.push(half_exec(v[i]));
        i = i + 1;
    }
    proof {
        assert(ints(r@) =~= halved(v@));
    }
    r
}

fn copy_vec(v: &Vec<i64>) -> (r: Vec<i64>)
    ensures
        r@ == v@,
{
    let mut r: Vec<i64> = Vec::new();
    let mut i: usize = 0;
    while i < v.len()
        invariant
            i <= v.len(),
            r@ == v@.take(i as int),
        decreases v.len() - i,
    {
        r.push(v[i]);
        i = i + 1;
        proof {
            assert(r@ =~= v@.take(i as int));
        }
    }
    proof {
        assert(v@.take(v.len() as int) =~= v@);
    }
    r
}

/// The complex product of slot `i` of the first `k` factors in `fs`,
/// starting from `1 + 0 i`.
pub open spec fn factor_product(fs: Seq<(Vec<i64>, Vec<i64>)>, i: int, k: nat) -> (int, int)
    decreases k,
{
    if k == 0 {
        (1, 0)
    } else {
        let acc = factor_product(fs, i, (k - 1) as nat);
        let f = fs[k - 1];
        (cmul_re(acc.0, acc.1, f.0@[i] as int, f.1@[i] as int), cmul_im(acc.0, acc.1, f.0@[i] as int, f.1@[i] as int))
    }
}

proof fn lemma_factor_product_running(fs: Seq<(Vec<i64>, Vec<i64>)>, i: int, k: nat, a: (int, int), b: (int, int))
    requires
        k <= fs.len(),
        forall|kk: int| 0 <= kk < k ==> (#[trigger] fs[kk].0@[i] as int, fs[kk].1@[i] as int) == (if kk % 2 == 0 {
            a
        } else {
            b
        }),
    ensures
        factor_product(fs, i, k) == running_product(k, a, b),
    decreases k,
{
    if k > 0 {
        lemma_factor_product_running(fs, i, (k - 1) as nat, a, b);
        let kk = k - 1;
        assert((fs[kk].0@[i] as int, fs[kk].1@[i] as int) == (if kk % 2 == 0 {
            a
        } else {
            b
        }));
    }
}

/// Builds `n` factors that alternate between the first pair of vectors
/// scaled by one half and the second pair scaled by one half, together with
/// their slot-wise complex product over the slots of `re1` (the empty product
/// is `1 + 0 i`). The vectors that are used must have even entries, so that
/// the halves are exact.
pub fn build_factors(re1: &[i64], im1: &[i64], re2: &[i64], im2: &[i64], n: usize) -> (r: (
    Vec<(Vec<i64>, Vec<i64>)>,
    Vec<i64>,
    Vec<i64>,
))
    requires
        n >= 1 ==> im1.len() >= re1.len(),
        n >= 2 ==> re2.len() >= re1.len() && im2.len() >= re1.len(),
        n >= 1 ==> all_even(re1@) && all_even(im1@),
        n >= 2 ==> all_even(re2@) && all_even(im2@),
        products_fit(re1@, im1@, re2@, im2@, n as nat),
    ensures
        r.0@.len() == n,
        forall|k: int|
            0 <= k < n ==> (if k % 2 == 0 {
                ints((#[trigger] r.0@[k]).0@) == halved(re1@) && ints(r.0@[k].1@) == halved(im1@)
            } else {
                ints(r.0@[k].0@) == halved(re2@) && ints(r.0@[k].1@) == halved(im2@)
            }),
        r.1@.len() == re1.len(),
        r.2@.len() == re1.len(),
        forall|i: int|
            0 <= i < re1.len() ==> (#[trigger] r.1@[i]) as int == running_product(
                n as nat,
                first_factor(re1@, im1@, i),
                second_factor(re2@, im2@, i),
            ).0,
        forall|i: int|
            0 <= i < re1.len() ==> (#[trigger] r.2@[i]) as int == running_product(
                n as nat,
                first_factor(re1@, im1@, i),
                second_factor(re2@, im2@, i),
            ).1,
        forall|k: int|
            0 <= k < n ==> (#[trigger] r.0@[k]).0@.len() == (if k % 2 == 0 {
                re1.len()
            } else {
                re2.len()
            }) && r.0@[k].1@.len() == (if k % 2 == 0 {
                im1.len()
            } else {
                im2.len()
            }),
        forall|k: int, i: int|
            0 <= k < n && 0 <= i < r.0@[k].0@.len() ==> 2 * (#[trigger] r.0@[k].0@[i]) == (if k % 2 == 0 {
                re1[i]
            } else {
                re2[i]
            }),
        forall|k: int, i: int|
            0 <= k < n && 0 <= i < r.0@[k].1@.len() ==> 2 * (#[trigger] r.0@[k].1@[i]) == (if k % 2 == 0 {
                im1[i]
            } else {
                im2[i]
            }),
        forall|i: int|
            0 <= i < re1.len() ==> factor_product(r.0@, i, n as nat) == (
                #[trigger] r.1@[i] as int,
                r.2@[i] as int,
            ),
{
    let re_a = halve_exec(re1);
    let im_a = halve_exec(im1);
    let re_b = halve_exec(re2);
    let im_b = halve_exec(im2);
    let mut factors: Vec<(Vec<i64>, Vec<i64>)> = Vec::new();
    let mut k: usize = 0;
    while k < n
        invariant
            k <= n,
            ints(re_a@) == halved(re1@),
            ints(im_a@) == halved(im1@),
            ints(re_b@) == halved(re2@),
            ints(im_b@) == halved(im2@),
            factors@.len() == k,
            forall|j: int|
                0 <= j < k ==> (if j % 2 == 0 {
                    (#[trigger] factors@[j]).0@ == re_a@ && factors@[j].1@ == im_a@
                } else {
                    factors@[j].0@ == re_b@ && factors@[j].1@ == im_b@
                }),
        decreases n - k,
    {
        if k % 2 == 0 {
            factors.push((copy_vec(&re_a), copy_vec(&im_a)));
        } else {
            factors.push((copy_vec(&re_b), copy_vec(&im_b)));
        }
        k = k + 1;
    }
    let m = re1.len();
    let mut want_re: Vec<i64> = Vec::new();
    let mut want_im: Vec<i64> = Vec::new();
    let mut i: usize = 0;
    while i < m
        invariant
            m == re1.len(),
            i <= m,
            want_re@.len() == i,
            want_im@.len() == i,
            forall|j: int| 0 <= j < i ==> #[trigger] want_re@[j] == 1,
            forall|j: int| 0 <= j < i ==> #[trigger] want_im@[j] == 0,
        decreases m - i,
    {
        want_re.push(1);
        want_im.push(0);
        i = i + 1;
    }
    let mut k: usize = 0;
    while k < n
        invariant
            m == re1.len(),
            k <= n,
            n >= 1 ==> im1.len() >= m,
            n >= 2 ==> re2.len() >= m && im2.len() >= m,
            products_fit(re1@, im1@, re2@, im2@, n as nat),
            re_a@.len() == re1@.len(),
            im_a@.len() == im1@.len(),
            re_b@.len() == re2@.len(),
            im_b@.len() == im2@.len(),
            forall|j: int| 0 <= j < re1@.len() ==> (#[trigger] re_a@[j]) as int == half(re1@[j] as int),
            forall|j: int| 0 <= j < im1@.len() ==> (#[trigger] im_a@[j]) as int == half(im1@[j] as int),
            forall|j: int| 0 <= j < re2@.len() ==> (#[trigger] re_b@[j]) as int == half(re2@[j] as int),
            forall|j: int| 0 <= j < im2@.len() ==> (#[trigger] im_b@[j]) as int == half(im2@[j] as int),
            ints(re_a@) == halved(re1@),
            ints(im_a@) == halved(im1@),
            ints(re_b@) == halved(re2@),
            ints(im_b@) == halved(im2@),
            factors@.len() == n,
            forall|j: int|
                0 <= j < n ==> (if j % 2 == 0 {
                    (#[trigger] factors@[j]).0@ == re_a@ && factors@[j].1@ == im_a@
                } else {
                    factors@[j].0@ == re_b@ && factors@[j].1@ == im_b@
                }),
            want_re@.len() == m,
            want_im@.len() == m,
            forall|j: int|
                0 <= j < m ==> (#[trigger] want_re@[j]) as int == running_product(
                    k as nat,
                    first_factor(re1@, im1@, j),
                    second_factor(re2@, im2@, j),
                ).0,
            forall|j: int|
                0 <= j < m ==> (#[trigger] want_im@[j]) as int == running_product(
                    k as nat,
                    first_factor(re1@, im1@, j),
                    second_factor(re2@, im2@, j),
                ).1,
        decreases n - k,
    {
        let ghost old_re = want_re@;
        let ghost old_im = want_im@;
        let ghost f = factors@[k as int];
        proof {
            assert(factors@[k as int] == f);
            assert forall|j: int| 0 <= j < m implies {
                let p = running_product((k + 1) as nat, first_factor(re1@, im1@, j), second_factor(re2@, im2@, j));
                &&& #[trigger] cmul_re(old_re[j] as int, old_im[j] as int, f.0@[j] as int, f.1@[j] as int) == p.0
                &&& cmul_im(old_re[j] as int, old_im[j] as int, f.0@[j] as int, f.1@[j] as int) == p.1
                &&& i64::MIN <= p.0 <= i64::MAX
                &&& i64::MIN <= p.1 <= i64::MAX
            } by {
                let p = running_product((k + 1) as nat, first_factor(re1@, im1@, j), second_factor(re2@, im2@, j));
                assert(1 <= (k + 1) as nat <= n);
                if k % 2 == 0 {
                    assert(re_a@[j] as int == half(re1@[j] as int));
                    assert(im_a@[j] as int == half(im1@[j] as int));
                } else {
                    assert(re_b@[j] as int == half(re2@[j] as int));
                    assert(im_b@[j] as int == half(im2@[j] as int));
                }
            }
            assert(cmul_re_spec(old_re, old_im, f.0@, f.1@) =~= Seq::new(
                m as nat,
                |j: int| running_product((k + 1) as nat, first_factor(re1@, im1@, j), second_factor(re2@, im2@, j)).0,
            ));
            assert(cmul_im_spec(old_re, old_im, f.0@, f.1@) =~= Seq::new(
                m as nat,
                |j: int| running_product((k + 1) as nat, first_factor(re1@, im1@, j), second_factor(re2@, im2@, j)).1,
            ));
        }
        cmul_assign(&mut want_re, &mut want_im, factors[k].0.as_slice(), factors[k].1.as_slice());
        proof {
            assert forall|j: int| 0 <= j < m implies (#[trigger] want_re@[j]) as int == running_product(
                (k + 1) as nat,
                first_factor(re1@, im1@, j),
                second_factor(re2@, im2@, j),
            ).0 by {
                assert(ints(want_re@)[j] == want_re@[j] as int);
            }
        }
        k = k + 1;
    }
    proof {
        assert forall|j: int|
            0 <= j < n implies (if j % 2 == 0 {
                ints((#[trigger] factors@[j]).0@) == halved(re1@) && ints(factors@[j].1@) == halved(im1@)
            } else {
                ints(factors@[j].0@) == halved(re2@) && ints(factors@[j].1@) == halved(im2@)
            }) by {}
        assert forall|k: int, i: int|
            0 <= k < n && 0 <= i < factors@[k].0@.len() implies 2 * (#[trigger] factors@[k].0@[i]) == (if k % 2
                == 0 {
                re1[i]
            } else {
                re2[i]
            }) by {
            if k % 2 == 0 {
                assert(re_a@[i] as int == half(re1@[i] as int));
                assert(re1@[i] % 2 == 0);
            } else {
                assert(re_b@[i] as int == half(re2@[i] as int));
                assert(re2@[i] % 2 == 0);
            }
        }
        assert forall|k: int, i: int|
            0 <= k < n && 0 <= i < factors@[k].1@.len() implies 2 * (#[trigger] factors@[k].1@[i]) == (if k % 2
                == 0 {
                im1[i]
            } else {
                im2[i]
            }) by {
            if k % 2 == 0 {
                assert(im_a@[i] as int == half(im1@[i] as int));
                assert(im1@[i] % 2 == 0);
            } else {
                assert(im_b@[i] as int == half(im2@[i] as int));
                assert(im2@[i] % 2 == 0);
            }
        }
        assert forall|i: int| 0 <= i < m implies factor_product(factors@, i, n as nat) == (
            #[trigger] want_re@[i] as int,
            want_im@[i] as int,
        ) by {
            let a = first_factor(re1@, im1@, i);
            let b = second_factor(re2@, im2@, i);
            assert forall|kk: int| 0 <= kk < n implies (#[trigger] factors@[kk].0@[i] as int, factors@[kk].1@[i] as int)
                == (if kk % 2 == 0 {
                a
            } else {
                b
            }) by {
                if kk % 2 == 0 {
                    assert(re_a@[i] as int == half(re1@[i] as int));
                    assert(im_a@[i] as int == half(im1@[i] as int));
                } else {
                    assert(re_b@[i] as int == half(re2@[i] as int));
                    assert(im_b@[i] as int == half(im2@[i] as int));
                }
            }
            lemma_factor_product_running(factors@, i, n as nat, a, b);
        }
    }
    (factors, want_re, want_im)
}

/// Complex multiplication is commutative, slot by slot.
pub proof fn lemma_cmul_commutes(a_re: Seq<i64>, a_im: Seq<i64>, b_re: Seq<i64>, b_im: Seq<i64>)
    requires
        a_re.len() == a_im.len() && a_re.len() == b_re.len() && a_re.len() == b_im.len(),
    ensures
        cmul_re_spec(a_re, a_im, b_re, b_im) == cmul_re_spec(b_re, b_im, a_re, a_im),
        cmul_im_spec(a_re, a_im, b_re, b_im) == cmul_im_spec(b_re, b_im, a_re, a_im),
{
    assert forall|i: int| 0 <= i < a_re.len() implies #[trigger] cmul_re(a_re[i] as int, a_im[i] as int, b_re[i] as int, b_im[i] as int)
        == cmul_re(b_re[i] as int, b_im[i] as int, a_re[i] as int, a_im[i] as int) && cmul_im(a_re[i] as int, a_im[i] as int, b_re[i] as int, b_im[i] as int)
        == cmul_im(b_re[i] as int, b_im[i] as int, a_re[i] as int, a_im[i] as int) by {
        lemma_cmul_commutes_one(a_re[i] as int, a_im[i] as int, b_re[i] as int, b_im[i] as int);
    }
    assert(cmul_re_spec(a_re, a_im, b_re, b_im) =~= cmul_re_spec(b_re, b_im, a_re, a_im));
    assert(cmul_im_spec(a_re, a_im, b_re, b_im) =~= cmul_im_spec(b_re, b_im, a_re, a_im));
}

proof fn lemma_cmul_commutes_one(a: int, b: int, c: int, d: int)
    ensures
        cmul_re(a, b, c, d) == cmul_re(c, d, a, b),
        cmul_im(a, b, c, d) == cmul_im(c, d, a, b),
{
    assert(a * c == c * a) by (nonlinear_arith);
    assert(b * d == d * b) by (nonlinear_arith);
    assert(a * d == d * a) by (nonlinear_arith);
    assert(b * c == c * b) by (nonlinear_arith);
}

/// Complex multiplication is associative.
pub proof fn lemma_cmul_associates(x: (int, int), y: (int, int), z: (int, int))
    ensures
        ({
            let xy = (cmul_re(x.0, x.1, y.0, y.1), cmul_im(x.0, x.1, y.0, y.1));
            let yz = (cmul_re(y.0, y.1, z.0, z.1), cmul_im(y.0, y.1, z.0, z.1));
            cmul_re(xy.0, xy.1, z.0, z.1) == cmul_re(x.0, x.1, yz.0, yz.1) && cmul_im(xy.0, xy.1, z.0, z.1)
                == cmul_im(x.0, x.1, yz.0, yz.1)
        }),
{
    let (a, b) = x;
    let (c, d) = y;
    let (e, f) = z;
    lemma_mul_is_distributive_sub_other_way(e, a * c, b * d);
    lemma_mul_is_distributive_add_other_way(f, a * d, b * c);
    lemma_mul_is_distributive_sub_other_way(f, a * c, b * d);
    lemma_mul_is_distributive_add_other_way(e, a * d, b * c);
    lemma_mul_is_distributive_sub(a, c * e, d * f);
    lemma_mul_is_distributive_add(b, c * f, d * e);
    lemma_mul_is_distributive_add(a, c * f, d * e);
    lemma_mul_is_distributive_sub(b, c * e, d * f);
    lemma_mul_is_associative(a, c, e);
    lemma_mul_is_associative(b, d, e);
    lemma_mul_is_associative(a, d, f);
    lemma_mul_is_associative(b, c, f);
    lemma_mul_is_associative(a, c, f);
    lemma_mul_is_associative(b, d, f);
    lemma_mul_is_associative(a, d, e);
    lemma_mul_is_associative(b, c, e);
}

/// Two more factors multiply the running product by `a * b`: the product of
/// `2k` alternating factors is the product of `k` copies of `a * b`.
pub proof fn lemma_running_product_pair(k: nat, a: (int, int), b: (int, int))
    ensures
        ({
            let ab = (cmul_re(a.0, a.1, b.0, b.1), cmul_im(a.0, a.1, b.0, b.1));
            let p = running_product(k, a, b);
            running_product(k + 2, a, b) == (cmul_re(p.0, p.1, ab.0, ab.1), cmul_im(p.0, p.1, ab.0, ab.1))
        }),
{
    let p = running_product(k, a, b);
    let q = running_product(k + 1, a, b);
    assert(running_product((k + 2 - 1) as nat, a, b) == q);
    assert(running_product((k + 1 - 1) as nat, a, b) == p);
    lemma_cmul_commutes_one(a.0, a.1, b.0, b.1);
    if k % 2 == 0 {
        assert((k + 1) % 2 == 1);
        lemma_cmul_associates(p, a, b);
    } else {
        assert((k + 1) % 2 == 0);
        lemma_cmul_associates(p, b, a);
    }
}

/// The product with a constant is the slot-wise product with the vector that
/// holds that constant in every slot.
pub proof fn lemma_cmul_scalar_is_cmul(a_re: Seq<i64>, a_im: Seq<i64>, c_re: i64, c_im: i64, i: int)
    requires
        0 <= i < a_re.len(),
    ensures
        cmul_re(a_re[i] as int, a_im[i] as int, c_re as int, c_im as int) == cmul_re_spec(
            a_re,
            a_im,
            Seq::new(a_re.len(), |j: int| c_re),
            Seq::new(a_re.len(), |j: int| c_im),
        )[i],
        cmul_im(a_re[i] as int, a_im[i] as int, c_re as int, c_im as int) == cmul_im_spec(
            a_re,
            a_im,
            Seq::new(a_re.len(), |j: int| c_re),
            Seq::new(a_re.len(), |j: int| c_im),
        )[i],
{
}

/// Scaling is linear in the scale: scaling by `s` plus scaling by `t` is
/// scaling by `s + t`, and scaling by `1` and by `0` give the vector and zero.
pub proof fn lemma_scaled_linear(v: Seq<i64>, s: int, t: int)
    ensures
        scaled_spec(v, s).len() == v.len(),
        forall|i: int| 0 <= i < v.len() ==> #[trigger] scaled_spec(v, s + t)[i] == scaled_spec(v, s)[i] + scaled_spec(v, t)[i],
        forall|i: int| 0 <= i < v.len() ==> #[trigger] scaled_spec(v, 1)[i] == v[i],
        forall|i: int| 0 <= i < v.len() ==> #[trigger] scaled_spec(v, 0)[i] == 0,
        forall|i: int| 0 <= i < v.len() ==> #[trigger] scaled_spec(v, -s)[i] == -scaled_spec(v, s)[i],
{
    assert forall|i: int| 0 <= i < v.len() implies #[trigger] scaled_spec(v, s + t)[i] == scaled_spec(v, s)[i] + scaled_spec(v, t)[i] by {
        lemma_mul_is_distributive_add(v[i] as int, s, t);
    }
    assert forall|i: int| 0 <= i < v.len() implies #[trigger] scaled_spec(v, -s)[i] == -scaled_spec(v, s)[i] by {
        assert((v[i] as int) * (-s) == -((v[i] as int) * s)) by (nonlinear_arith);
    }
}

/// `1` is the unit of complex multiplication, `i * i == -1`, and the product
/// distributes over addition.
pub proof fn lemma_cmul_unit_and_distributes(a: int, b: int, c: int, d: int, e: int, f: int)
    ensures
        cmul_re(a, b, 1, 0) == a && cmul_im(a, b, 1, 0) == b,
        cmul_re(0, 1, 0, 1) == -1 && cmul_im(0, 1, 0, 1) == 0,
        cmul_re(a, b, c + e, d + f) == cmul_re(a, b, c, d) + cmul_re(a, b, e, f),
        cmul_im(a, b, c + e, d + f) == cmul_im(a, b, c, d) + cmul_im(a, b, e, f),
{
    lemma_mul_is_distributive_add(a, c, e);
    lemma_mul_is_distributive_add(b, d, f);
    lemma_mul_is_distributive_add(a, d, f);
    lemma_mul_is_distributive_add(b, c, e);
}

/// Slot `i` of the factors is half of slot `i` of the vectors: twice each
/// factor component gives back the even input entry at the same slot.
pub proof fn lemma_factor_slots(re1: Seq<i64>, im1: Seq<i64>, re2: Seq<i64>, im2: Seq<i64>, i: int)
    requires
        0 <= i < re1.len() && i < im1.len() && i < re2.len() && i < im2.len(),
        re1[i] % 2 == 0 && im1[i] % 2 == 0 && re2[i] % 2 == 0 && im2[i] % 2 == 0,
    ensures
        2 * first_factor(re1, im1, i).0 == re1[i],
        2 * first_factor(re1, im1, i).1 == im1[i],
        2 * second_factor(re2, im2, i).0 == re2[i],
        2 * second_factor(re2, im2, i).1 == im2[i],
{
}

/// The running product starts at `1`, its first factor is `a` and its second
/// is `b`: one factor gives `a`, two give `a * b`.
pub proof fn lemma_running_product_first_terms(a: (int, int), b: (int, int))
    ensures
        running_product(0, a, b) == (1int, 0int),
        running_product(1, a, b) == a,
        running_product(2, a, b) == (cmul_re(a.0, a.1, b.0, b.1), cmul_im(a.0, a.1, b.0, b.1)),
{
    assert(running_product(0, a, b) == (1int, 0int));
    assert(cmul_re(1, 0, a.0, a.1) == a.0);
    assert(cmul_im(1, 0, a.0, a.1) == a.1);
    assert(running_product(1, a, b) == a);
    assert(running_product(2, a, b) == (cmul_re(a.0, a.1, b.0, b.1), cmul_im(a.0, a.1, b.0, b.1)));
}

} // verus!
