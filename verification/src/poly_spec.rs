//! Mathematical model of polynomials: a coefficient sequence over `int`,
//! read as zero outside its bounds, and the convolution that defines the
//! product of two polynomials.
use vstd::prelude::*;
use vstd::arithmetic::mul::{lemma_mul_inequality, lemma_mul_is_distributive_add, lemma_mul_is_distributive_add_other_way};
use vstd::arithmetic::div_mod::{lemma_div_is_ordered, lemma_div_multiples_vanish, lemma_add_mod_noop, lemma_fundamental_div_mod_converse_mod, lemma_mod_bound, lemma_mod_twice};

verus! {

/// Whether `v` can be held by an `i64`.
pub open spec fn fits_i64(v: int) -> bool {
    i64::MIN <= v <= i64::MAX
}

/// The coefficients of a vector of `i64`, read as integers.
pub open spec fn ints(s: Seq<i64>) -> Seq<int> {
    s.map_values(|v: i64| v as int)
}

/// Coefficient `i` of the polynomial `s`: zero outside `0 .. s.len()`.
pub open spec fn coef(s: Seq<int>, i: int) -> int {
    if 0 <= i < s.len() {
        s[i]
    } else {
        0
    }
}

/// `sum_{t < i} coef(x, t) * coef(y, k - t)`: the first `i` terms of
/// coefficient `k` of `x * y`.
pub open spec fn psum(x: Seq<int>, y: Seq<int>, k: int, i: nat) -> int
    decreases i,
{
    if i == 0 {
        0
    } else {
        psum(x, y, k, (i - 1) as nat) + coef(x, i - 1) * coef(y, k - (i - 1))
    }
}

/// Coefficient `k` of the product `x * y`.
pub open spec fn conv(x: Seq<int>, y: Seq<int>, k: int) -> int {
    psum(x, y, k, x.len())
}

/// The coefficients of `x * y` for two non-empty polynomials: one for
/// each degree from `0` to `deg x + deg y`.
pub open spec fn product(x: Seq<int>, y: Seq<int>) -> Seq<int> {
    Seq::new((x.len() + y.len() - 1) as nat, |k: int| conv(x, y, k))
}

/// The schoolbook product of `x` and `y` runs without leaving the range of
/// `i64`: `x` is non-empty and the product has at least one coefficient
/// (`y` may be empty when `x` has two coefficients or more, and the
/// product is then zero), and for each pair `(i, j)`, taken row by row, the
/// term `x[i] * y[j]` and the partial coefficient it is added to fit.
pub open spec fn mul_safe(x: Seq<int>, y: Seq<int>) -> bool {
    &&& x.len() > 0
    &&& x.len() + y.len() >= 2
    &&& forall|i: int, j: int|
        #![trigger x[i], y[j]]
        0 <= i < x.len() && 0 <= j < y.len() ==> {
            &&& fits_i64(x[i] * y[j])
            &&& fits_i64(psum(x, y, i + j, i as nat) + x[i] * y[j])
        }
}

/// Coefficientwise sum of two polynomials, as long as the longer one.
pub open spec fn padd(a: Seq<int>, b: Seq<int>) -> Seq<int> {
    Seq::new(if a.len() >= b.len() { a.len() } else { b.len() }, |i: int| coef(a, i) + coef(b, i))
}

/// Coefficientwise difference of two polynomials, as long as the longer one.
pub open spec fn psub(a: Seq<int>, b: Seq<int>) -> Seq<int> {
    Seq::new(if a.len() >= b.len() { a.len() } else { b.len() }, |i: int| coef(a, i) - coef(b, i))
}

/// `s` multiplied by `x^n`: `n` zero coefficients, then those of `s`.
pub open spec fn shifted(s: Seq<int>, n: nat) -> Seq<int> {
    Seq::new(n, |i: int| 0int) + s
}

pub proof fn lemma_coef_padd(a: Seq<int>, b: Seq<int>, i: int)
    ensures
        coef(padd(a, b), i) == coef(a, i) + coef(b, i),
{
}

pub proof fn lemma_coef_psub(a: Seq<int>, b: Seq<int>, i: int)
    ensures
        coef(psub(a, b), i) == coef(a, i) - coef(b, i),
{
}

pub proof fn lemma_coef_shifted(s: Seq<int>, n: nat, i: int)
    ensures
        coef(shifted(s, n), i) == coef(s, i - n),
{
    if n <= i < n + s.len() {
        assert(shifted(s, n)[i] == s[i - n]);
    }
}

/// Terms past the last coefficient of `x` add nothing.
pub proof fn lemma_psum_beyond(x: Seq<int>, y: Seq<int>, k: int, i: nat)
    requires
        i >= x.len(),
    ensures
        psum(x, y, k, i) == conv(x, y, k),
    decreases i,
{
    if i > x.len() {
        lemma_psum_beyond(x, y, k, (i - 1) as nat);
    }
}

/// A partial sum whose terms all have a zero factor is zero.
pub proof fn lemma_psum_zero_prefix(x: Seq<int>, y: Seq<int>, k: int, i: nat)
    requires
        forall|t: int| 0 <= t < i ==> coef(x, t) == 0 || coef(y, k - t) == 0,
    ensures
        psum(x, y, k, i) == 0,
    decreases i,
{
    if i > 0 {
        lemma_psum_zero_prefix(x, y, k, (i - 1) as nat);
        let t = i - 1;
        assert(coef(x, t) == 0 || coef(y, k - t) == 0);
        assert(coef(x, t) * coef(y, k - t) == 0);
    }
}

/// Terms whose factor from `y` is zero add nothing to a partial sum.
pub proof fn lemma_psum_tail_zero(x: Seq<int>, y: Seq<int>, k: int, m: nat, i: nat)
    requires
        m <= i,
        forall|j: int| k - i < j <= k - m ==> coef(y, j) == 0,
    ensures
        psum(x, y, k, i) == psum(x, y, k, m),
    decreases i,
{
    if i > m {
        lemma_psum_tail_zero(x, y, k, m, (i - 1) as nat);
        let t = i - 1;
        assert(coef(y, k - t) == 0);
        assert(coef(x, t) * coef(y, k - t) == 0);
    }
}

/// The product is linear in its second factor.
pub proof fn lemma_psum_add_right(x: Seq<int>, y: Seq<int>, y1: Seq<int>, y2: Seq<int>, k: int, i: nat)
    requires
        forall|j: int| #[trigger] coef(y, j) == coef(y1, j) + coef(y2, j),
    ensures
        psum(x, y, k, i) == psum(x, y1, k, i) + psum(x, y2, k, i),
    decreases i,
{
    if i > 0 {
        lemma_psum_add_right(x, y, y1, y2, k, (i - 1) as nat);
        let j = k - (i - 1);
        assert(coef(y, j) == coef(y1, j) + coef(y2, j));
        lemma_mul_is_distributive_add(coef(x, i - 1), coef(y1, j), coef(y2, j));
    }
}

/// The product is linear in its first factor.
pub proof fn lemma_psum_add_left(x: Seq<int>, x1: Seq<int>, x2: Seq<int>, y: Seq<int>, k: int, i: nat)
    requires
        forall|t: int| #[trigger] coef(x, t) == coef(x1, t) + coef(x2, t),
    ensures
        psum(x, y, k, i) == psum(x1, y, k, i) + psum(x2, y, k, i),
    decreases i,
{
    if i > 0 {
        lemma_psum_add_left(x, x1, x2, y, k, (i - 1) as nat);
        let t = i - 1;
        assert(coef(x, t) == coef(x1, t) + coef(x2, t));
        lemma_mul_is_distributive_add_other_way(coef(y, k - t), coef(x1, t), coef(x2, t));
    }
}

/// Multiplying the second factor by `x^n` shifts the coefficients by `n`.
pub proof fn lemma_psum_shift_right(x: Seq<int>, y: Seq<int>, z: Seq<int>, n: int, k: int, i: nat)
    requires
        forall|j: int| #[trigger] coef(y, j) == coef(z, j - n),
    ensures
        psum(x, y, k, i) == psum(x, z, k - n, i),
    decreases i,
{
    if i > 0 {
        lemma_psum_shift_right(x, y, z, n, k, (i - 1) as nat);
        assert(coef(y, k - (i - 1)) == coef(z, k - (i - 1) - n));
        assert(k - (i - 1) - n == (k - n) - (i - 1));
    }
}

proof fn lemma_psum_shift_left_step(x: Seq<int>, y: Seq<int>, z: Seq<int>, n: nat, k: int, i: nat)
    requires
        forall|t: int| #[trigger] coef(x, t) == coef(z, t - n),
    ensures
        psum(x, y, k, n + i) == psum(z, y, k - n, i),
    decreases i,
{
    if i == 0 {
        assert forall|t: int| 0 <= t < n implies coef(x, t) == 0 by {
            assert(coef(x, t) == coef(z, t - n));
        }
        lemma_psum_zero_prefix(x, y, k, n);
    } else {
        lemma_psum_shift_left_step(x, y, z, n, k, (i - 1) as nat);
        let t = n + i - 1;
        assert(coef(x, t) == coef(z, t - n));
        assert(k - t == (k - n) - (i - 1));
    }
}

/// Multiplying the first factor by `x^n` shifts the coefficients by `n`.
pub proof fn lemma_conv_shift_left(x: Seq<int>, y: Seq<int>, z: Seq<int>, n: nat, k: int)
    requires
        x.len() == n + z.len(),
        forall|t: int| #[trigger] coef(x, t) == coef(z, t - n),
    ensures
        conv(x, y, k) == conv(z, y, k - n),
{
    lemma_psum_shift_left_step(x, y, z, n, k, z.len());
}

/// The product has no coefficient below degree 0 or above `deg x + deg y`.
pub proof fn lemma_conv_outside(x: Seq<int>, y: Seq<int>, k: int)
    requires
        k < 0 || k >= x.len() + y.len() - 1,
    ensures
        conv(x, y, k) == 0,
{
    lemma_conv_outside_step(x, y, k, x.len());
}

proof fn lemma_conv_outside_step(x: Seq<int>, y: Seq<int>, k: int, i: nat)
    requires
        i <= x.len(),
        k < 0 || k >= x.len() + y.len() - 1,
    ensures
        psum(x, y, k, i) == 0,
    decreases i,
{
    if i > 0 {
        lemma_conv_outside_step(x, y, k, (i - 1) as nat);
        assert(coef(y, k - (i - 1)) == 0);
    }
}

/// Every coefficient of a sequence that agrees with `product(x, y)` on its
/// range is the convolution, also outside that range.
pub proof fn lemma_coef_product(x: Seq<int>, y: Seq<int>, k: int)
    requires
        x.len() + y.len() >= 1,
    ensures
        coef(product(x, y), k) == conv(x, y, k),
{
    if !(0 <= k < x.len() + y.len() - 1) {
        lemma_conv_outside(x, y, k);
    }
}

/// `min(n, s.len())`: where `s` is cut in two at `n`.
pub open spec fn cut(s: Seq<int>, n: nat) -> int {
    if n <= s.len() {
        n as int
    } else {
        s.len() as int
    }
}

/// The coefficients of `s` below degree `n`.
pub open spec fn low_part(s: Seq<int>, n: nat) -> Seq<int> {
    s.take(cut(s, n))
}

/// The coefficients of `s` from degree `n` on, moved down by `n`.
pub open spec fn high_part(s: Seq<int>, n: nat) -> Seq<int> {
    s.skip(cut(s, n))
}

/// Cutting a polynomial and putting the parts back together gives it back.
pub proof fn lemma_parts_rejoin(s: Seq<int>, n: nat)
    ensures
        low_part(s, n) + high_part(s, n) == s,
        low_part(s, n).len() == cut(s, n),
{
    assert(low_part(s, n) + high_part(s, n) =~= s);
}

/// Where Karatsuba's method cuts both factors: half the longer length.
pub open spec fn kara_half(x: Seq<int>, y: Seq<int>) -> nat {
    (if x.len() >= y.len() {
        x.len()
    } else {
        y.len()
    }) / 2
}

/// Every coefficient of `s` fits an `i64`.
pub open spec fn all_fit(s: Seq<int>) -> bool {
    forall|i: int| 0 <= i < s.len() ==> fits_i64(#[trigger] s[i])
}

/// The middle term of Karatsuba's method: `(xh + xl)(yh + yl) - xh yh - xl yl`
/// for the cut at `n`, as the code computes it.
pub open spec fn kara_middle(x: Seq<int>, y: Seq<int>, n: nat) -> Seq<int> {
    let xl = low_part(x, n);
    let xh = high_part(x, n);
    let yl = low_part(y, n);
    let yh = high_part(y, n);
    psub(psub(product(padd(xh, xl), padd(yh, yl)), product(xh, yh)), product(xl, yl))
}

/// Karatsuba's method runs on `x` and `y` without leaving the range of
/// `i64` and without taking a product of an empty polynomial: at the
/// schoolbook base case (a factor of at most 16 coefficients) that product
/// is safe; otherwise the three sub-products are, and so is every sum and
/// difference that the method forms from the parts and the sub-products.
pub open spec fn kara_safe(x: Seq<int>, y: Seq<int>) -> bool
    decreases x.len() + y.len(),
{
    if x.len() <= 16 || y.len() <= 16 {
        mul_safe(x, y)
    } else {
        let n = kara_half(x, y);
        let xl = low_part(x, n);
        let xh = high_part(x, n);
        let yl = low_part(y, n);
        let yh = high_part(y, n);
        let sx = padd(xh, xl);
        let sy = padd(yh, yl);
        let a = product(xh, yh);
        let s = product(sx, sy);
        let e = kara_middle(x, y, n);
        &&& kara_safe(xh, yh)
        &&& kara_safe(xl, yl)
        &&& all_fit(sx)
        &&& all_fit(sy)
        &&& kara_safe(sx, sy)
        &&& all_fit(psub(s, a))
        &&& all_fit(e)
        &&& a.len() + 2 * n <= x.len() + y.len() - 1
        &&& e.len() + n <= x.len() + y.len() - 1
        &&& forall|k: int|
            n <= k < n + e.len() ==> fits_i64(#[trigger] coef(a, k - 2 * n) + coef(e, k - n))
        &&& forall|k: int|
            0 <= k < xl.len() + yl.len() - 1 ==> fits_i64(#[trigger] conv(x, y, k))
    }
}

/// Cutting both factors at `n` (a factor shorter than `n` keeps all its
/// coefficients in its low part) splits their product in four:
/// `x y = xl yl + x^n (xl yh + xh yl) + x^(2n) xh yh`.
pub proof fn lemma_conv_split(x: Seq<int>, y: Seq<int>, n: nat, k: int)
    ensures
        conv(x, y, k) == conv(low_part(x, n), low_part(y, n), k) + conv(
            low_part(x, n),
            high_part(y, n),
            k - n,
        ) + conv(high_part(x, n), low_part(y, n), k - n) + conv(
            high_part(x, n),
            high_part(y, n),
            k - 2 * n,
        ),
{
    let xl = low_part(x, n);
    let xh = high_part(x, n);
    let yl = low_part(y, n);
    let yh = high_part(y, n);
    let sxh = shifted(xh, n);
    let syh = shifted(yh, n);
    assert forall|t: int| #[trigger] coef(x, t) == coef(xl, t) + coef(sxh, t) by {
        lemma_coef_shifted(xh, n, t);
        if n <= t < x.len() {
            assert(xh[t - n] == x[t]);
        }
    }
    assert forall|t: int| #[trigger] coef(y, t) == coef(yl, t) + coef(syh, t) by {
        lemma_coef_shifted(yh, n, t);
        if n <= t < y.len() {
            assert(yh[t - n] == y[t]);
        }
    }
    assert forall|t: int| #[trigger] coef(sxh, t) == coef(xh, t - n) by {
        lemma_coef_shifted(xh, n, t);
    }
    assert forall|t: int| #[trigger] coef(syh, t) == coef(yh, t - n) by {
        lemma_coef_shifted(yh, n, t);
    }
    // split the first factor
    lemma_psum_add_left(x, xl, sxh, y, k, x.len());
    lemma_psum_beyond(xl, y, k, x.len());
    lemma_conv_shift_left(sxh, y, xh, n, k);
    if x.len() < n {
        lemma_psum_zero_prefix(sxh, y, k, x.len());
        lemma_psum_zero_prefix(sxh, y, k, sxh.len());
    }
    // split the second factor, for each half of the first
    lemma_psum_add_right(xl, y, yl, syh, k, xl.len());
    lemma_psum_shift_right(xl, syh, yh, n as int, k, xl.len());
    lemma_psum_add_right(xh, y, yl, syh, k - n, xh.len());
    lemma_psum_shift_right(xh, syh, yh, n as int, k - n, xh.len());
    assert(k - n - n == k - 2 * n);
}

/// The product of the sums of the halves has all four cross products.
pub proof fn lemma_conv_sums(xh: Seq<int>, xl: Seq<int>, yh: Seq<int>, yl: Seq<int>, k: int)
    ensures
        conv(padd(xh, xl), padd(yh, yl), k) == conv(xh, yh, k) + conv(xh, yl, k) + conv(xl, yh, k)
            + conv(xl, yl, k),
{
    let sx = padd(xh, xl);
    let sy = padd(yh, yl);
    assert forall|t: int| #[trigger] coef(sx, t) == coef(xh, t) + coef(xl, t) by {
        lemma_coef_padd(xh, xl, t);
    }
    assert forall|t: int| #[trigger] coef(sy, t) == coef(yh, t) + coef(yl, t) by {
        lemma_coef_padd(yh, yl, t);
    }
    lemma_psum_add_left(sx, xh, xl, sy, k, sx.len());
    lemma_psum_beyond(xh, sy, k, sx.len());
    lemma_psum_beyond(xl, sy, k, sx.len());
    lemma_psum_add_right(xh, sy, yh, yl, k, xh.len());
    lemma_psum_add_right(xl, sy, yh, yl, k, xl.len());
}

/// `v` reduced into the range of `i64` modulo `2^64`, as two's complement
/// wrapping arithmetic leaves it.
pub open spec fn wrap_i64(v: int) -> int {
    (v - i64::MIN) % 0x1_0000_0000_0000_0000 + i64::MIN
}

/// Wrapping never moves a value that fits.
pub proof fn lemma_wrap_fits(v: int)
    requires
        fits_i64(v),
    ensures
        wrap_i64(v) == v,
{
    lemma_fundamental_div_mod_converse_mod(v - i64::MIN, 0x1_0000_0000_0000_0000, 0, v - i64::MIN);
}

/// Adding to a wrapped value and wrapping again is wrapping the plain sum.
pub proof fn lemma_wrap_add(a: int, b: int)
    ensures
        wrap_i64(wrap_i64(a) + b) == wrap_i64(a + b),
{
    let m: int = 0x1_0000_0000_0000_0000;
    lemma_add_mod_noop(a - i64::MIN, b, m);
    lemma_mod_twice(a - i64::MIN, m);
    lemma_mod_bound(b, m);
    lemma_add_mod_noop((a - i64::MIN) % m, b, m);
}

/// `wrapping_add` on `i64` is the wrapped sum.
pub proof fn lemma_wrapping_add_i64(x: i64, y: i64)
    ensures
        vstd::wrapping::i64_specs::wrapping_add(x, y) == wrap_i64(x + y),
{
    let m: int = 0x1_0000_0000_0000_0000;
    let v = x + y;
    if v > i64::MAX {
        lemma_fundamental_div_mod_converse_mod(v - i64::MIN, m, 1, v - i64::MIN - m);
    } else if v < i64::MIN {
        lemma_fundamental_div_mod_converse_mod(v - i64::MIN, m, -1, v - i64::MIN + m);
    } else {
        lemma_wrap_fits(v);
    }
}

/// First degree of the batch of worker `t` when `size` coefficients are
/// shared among `workers`: `t * size / workers`.
pub open spec fn batch_start(t: nat, size: nat, workers: nat) -> nat {
    (t * size) / workers
}

/// The batches of workers `0 .. workers` follow each other without gap or
/// overlap and cover `0 .. size`: the first starts at 0, each ends where
/// the next starts, none runs backwards, and the last ends at `size`.
pub proof fn lemma_batches_partition(size: nat, workers: nat)
    requires
        workers > 0,
    ensures
        batch_start(0, size, workers) == 0,
        batch_start(workers, size, workers) == size,
        forall|t: nat|
            #![trigger batch_start(t, size, workers)]
            t < workers ==> batch_start(t, size, workers) <= batch_start(t + 1, size, workers)
                <= size,
{
    lemma_div_multiples_vanish(size as int, workers as int);
    assert(workers * size == size * workers) by (nonlinear_arith);
    assert forall|t: nat|
        #![trigger batch_start(t, size, workers)]
        t < workers implies batch_start(t, size, workers) <= batch_start(t + 1, size, workers)
            <= size by {
        lemma_mul_inequality(t as int, (t + 1) as int, size as int);
        lemma_mul_inequality((t + 1) as int, workers as int, size as int);
        lemma_div_is_ordered((t * size) as int, ((t + 1) * size) as int, workers as int);
        lemma_div_is_ordered(((t + 1) * size) as int, (workers * size) as int, workers as int);
    }
}

/// A partial sum reads only the coefficients of the first factor below its
/// bound.
pub proof fn lemma_psum_same_prefix(x: Seq<int>, x2: Seq<int>, y: Seq<int>, k: int, i: nat)
    requires
        forall|t: int| 0 <= t < i ==> coef(x, t) == coef(x2, t),
    ensures
        psum(x, y, k, i) == psum(x2, y, k, i),
    decreases i,
{
    if i > 0 {
        lemma_psum_same_prefix(x, x2, y, k, (i - 1) as nat);
        assert(coef(x, i - 1) == coef(x2, i - 1));
    }
}

/// The top coefficient of the first factor contributes one term.
pub proof fn lemma_conv_last(x: Seq<int>, w: Seq<int>, k: int)
    requires
        x.len() > 0,
    ensures
        conv(x, w, k) == conv(x.drop_last(), w, k) + x.last() * coef(w, k - (x.len() - 1)),
{
    let p = x.len() - 1;
    assert forall|t: int| 0 <= t < p implies coef(x, t) == coef(x.drop_last(), t) by {}
    lemma_psum_same_prefix(x, x.drop_last(), w, k, p as nat);
    assert(coef(x, p) == x.last());
}

/// Multiplying by the one-term polynomial `a`: coefficient `j` of `y a`.
proof fn lemma_psum_single(y: Seq<int>, a: int, j: int, i: nat)
    ensures
        psum(y, seq![a], j, i) == if 0 <= j < i {
            coef(y, j) * a
        } else {
            0
        },
    decreases i,
{
    if i > 0 {
        lemma_psum_single(y, a, j, (i - 1) as nat);
        assert(coef(seq![a], j - (i - 1)) == if j == i - 1 {
            a
        } else {
            0
        });
    }
}

/// The product's coefficients do not depend on the order of the factors.
pub proof fn lemma_conv_commutes(x: Seq<int>, y: Seq<int>, k: int)
    ensures
        conv(x, y, k) == conv(y, x, k),
    decreases x.len(),
{
    if x.len() == 0 {
        lemma_psum_zero_prefix(y, x, k, y.len());
    } else {
        let xs = x.drop_last();
        let p = (x.len() - 1) as nat;
        let a = x.last();
        let mono = shifted(seq![a], p);
        lemma_conv_commutes(xs, y, k);
        lemma_conv_last(x, y, k);
        assert forall|t: int| #[trigger] coef(x, t) == coef(xs, t) + coef(mono, t) by {
            lemma_coef_shifted(seq![a], p, t);
        }
        assert forall|t: int| #[trigger] coef(mono, t) == coef(seq![a], t - p) by {
            lemma_coef_shifted(seq![a], p, t);
        }
        lemma_psum_add_right(y, x, xs, mono, k, y.len());
        lemma_psum_shift_right(y, mono, seq![a], p as int, k, y.len());
        lemma_psum_single(y, a, k - p, y.len());
        if !(0 <= k - p < y.len()) {
            assert(coef(y, k - p) == 0);
        }
        vstd::arithmetic::mul::lemma_mul_is_commutative(a, coef(y, k - p));
    }
}

/// The product of polynomials is commutative.
pub proof fn lemma_product_commutes(x: Seq<int>, y: Seq<int>)
    ensures
        product(x, y) == product(y, x),
{
    assert forall|k: int| 0 <= k < product(x, y).len() implies product(x, y)[k] == product(
        y,
        x,
    )[k] by {
        lemma_conv_commutes(x, y, k);
    }
    assert(product(x, y) =~= product(y, x));
}

/// `y` with every coefficient multiplied by `a`.
pub open spec fn scaled(y: Seq<int>, a: int) -> Seq<int> {
    Seq::new(y.len(), |i: int| a * y[i])
}

/// Scaling the first factor scales the product.
proof fn lemma_psum_scaled(y: Seq<int>, z: Seq<int>, a: int, k: int, i: nat)
    ensures
        psum(scaled(y, a), z, k, i) == a * psum(y, z, k, i),
    decreases i,
{
    if i > 0 {
        lemma_psum_scaled(y, z, a, k, (i - 1) as nat);
        let t = i - 1;
        assert(coef(scaled(y, a), t) == a * coef(y, t));
        vstd::arithmetic::mul::lemma_mul_is_associative(a, coef(y, t), coef(z, k - t));
        lemma_mul_is_distributive_add(a, psum(y, z, k, (i - 1) as nat), coef(y, t) * coef(z, k - t));
    }
}

/// Coefficients of `x y` split off the top coefficient `a` of `x`:
/// `x y = x' y + a x^p y`.
proof fn lemma_product_last(x: Seq<int>, y: Seq<int>, t: int)
    requires
        x.len() > 0,
        y.len() > 0,
    ensures
        coef(product(x, y), t) == coef(product(x.drop_last(), y), t) + coef(
            shifted(scaled(y, x.last()), (x.len() - 1) as nat),
            t,
        ),
{
    let p = (x.len() - 1) as nat;
    lemma_coef_product(x, y, t);
    lemma_coef_product(x.drop_last(), y, t);
    lemma_conv_last(x, y, t);
    lemma_coef_shifted(scaled(y, x.last()), p, t);
}

/// The product of polynomials is associative.
pub proof fn lemma_conv_associates(x: Seq<int>, y: Seq<int>, z: Seq<int>, k: int)
    requires
        y.len() > 0,
        z.len() > 0,
    ensures
        conv(product(x, y), z, k) == conv(x, product(y, z), k),
    decreases x.len(),
{
    let xy = product(x, y);
    let yz = product(y, z);
    if x.len() == 0 {
        assert forall|t: int| 0 <= t < xy.len() implies coef(xy, t) == 0 by {
            lemma_psum_zero_prefix(x, y, t, 0);
        }
        lemma_psum_zero_prefix(xy, z, k, xy.len());
    } else {
        let xs = x.drop_last();
        let p = (x.len() - 1) as nat;
        let a = x.last();
        let sy = shifted(scaled(y, a), p);
        let xsy = product(xs, y);
        lemma_conv_associates(xs, y, z, k);
        assert forall|t: int| #[trigger] coef(xy, t) == coef(xsy, t) + coef(sy, t) by {
            lemma_product_last(x, y, t);
        }
        assert forall|t: int| #[trigger] coef(sy, t) == coef(scaled(y, a), t - p) by {
            lemma_coef_shifted(scaled(y, a), p, t);
        }
        // left: (x' y + a x^p y) z
        lemma_psum_add_left(xy, xsy, sy, z, k, xy.len());
        lemma_psum_beyond(xsy, z, k, xy.len());
        lemma_psum_beyond(sy, z, k, xy.len());
        lemma_conv_shift_left(sy, z, scaled(y, a), p, k);
        lemma_psum_scaled(y, z, a, k - p, y.len());
        // right: x' (y z) + a coefficient of y z
        lemma_conv_last(x, yz, k);
        lemma_coef_product(y, z, k - p);
    }
}

/// Multiplying `x y` by `z` or `x` by `y z` gives the same polynomial.
pub proof fn lemma_product_associates(x: Seq<int>, y: Seq<int>, z: Seq<int>)
    requires
        x.len() > 0,
        y.len() > 0,
        z.len() > 0,
    ensures
        product(product(x, y), z) == product(x, product(y, z)),
{
    assert forall|k: int| 0 <= k < product(product(x, y), z).len() implies product(
        product(x, y),
        z,
    )[k] == product(x, product(y, z))[k] by {
        lemma_conv_associates(x, y, z, k);
    }
    assert(product(product(x, y), z) =~= product(x, product(y, z)));
}

/// Multiplying by the constant polynomial `1` gives the polynomial back.
pub proof fn lemma_product_one(x: Seq<int>)
    requires
        x.len() > 0,
    ensures
        product(x, seq![1int]) == x,
{
    let p = product(x, seq![1int]);
    assert forall|k: int| 0 <= k < x.len() implies p[k] == x[k] by {
        lemma_psum_single(x, 1, k, x.len());
    }
    assert(p =~= x);
}

/// Multiplying by the constant polynomial `0` gives zero coefficients, one
/// for each coefficient of the other factor.
pub proof fn lemma_product_zero(x: Seq<int>)
    requires
        x.len() > 0,
    ensures
        product(x, seq![0int]) == Seq::new(x.len(), |i: int| 0int),
{
    let p = product(x, seq![0int]);
    assert forall|k: int| 0 <= k < x.len() implies p[k] == 0 by {
        lemma_psum_single(x, 0, k, x.len());
    }
    assert(p =~= Seq::new(x.len(), |i: int| 0int));
}

/// A polynomial of `i64` coefficients can always be multiplied by the
/// constant `0` or `1` without leaving the range of `i64`.
pub proof fn lemma_mul_safe_by_constant(x: Seq<int>, a: int)
    requires
        x.len() > 0,
        all_fit(x),
        a == 0 || a == 1,
    ensures
        mul_safe(x, seq![a]),
{
    assert forall|i: int, j: int|
        #![trigger x[i], seq![a][j]]
        0 <= i < x.len() && 0 <= j < 1 implies {
            &&& fits_i64(x[i] * seq![a][j])
            &&& fits_i64(psum(x, seq![a], i + j, i as nat) + x[i] * seq![a][j])
        } by {
        assert(j == 0 && seq![a][j] == a);
        lemma_psum_single(x, a, i, i as nat);
        assert(fits_i64(x[i]));
        if a == 0 {
            assert(x[i] * a == 0);
        } else {
            assert(x[i] * a == x[i]);
        }
    }
}

} // verus!
