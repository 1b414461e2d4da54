//! Polynomials with `i64` coefficients, lowest degree first.
use vstd::prelude::*;
use vstd::string::StringExecFns;
use crate::text::{append_decimal, append_digits, decimal, term_text};
use crate::request::{lemma_decimal_reads_back, signed_value};
use crate::poly_spec::{
    all_fit, batch_start, coef, conv, fits_i64, high_part, ints, kara_half, kara_middle,
    kara_safe, lemma_batches_partition, lemma_coef_product, lemma_coef_psub, lemma_conv_split,
    lemma_conv_sums, lemma_mul_safe_by_constant, lemma_product_one, lemma_product_zero,
    lemma_psum_tail_zero, lemma_psum_zero_prefix, lemma_wrap_add, lemma_wrap_fits,
    lemma_wrapping_add_i64, low_part, mul_safe, padd, product, psub, psum, wrap_i64,
};

verus! {

/// A polynomial; `coef[i]` is the coefficient of `x^i`.
pub struct Polynomial {
    coef: Vec<i64>,
}

impl View for Polynomial {
    type V = Seq<int>;

    closed spec fn view(&self) -> Seq<int> {
        ints(self.coef@)
    }
}

impl Clone for Polynomial {
    fn clone(&self) -> (p: Polynomial)
        ensures
            p@ == self@,
    {
        Polynomial { coef: self.coef.clone() }
    }
}

/// The text of the term at degree `i` of `s`, followed by ` + ` unless it
/// is the last.
pub open spec fn display_piece(s: Seq<int>, i: int) -> Seq<char> {
    term_text(s[i], i) + if i + 1 < s.len() {
        seq![' ', '+', ' ']
    } else {
        Seq::empty()
    }
}

/// The text of the terms of `s` below degree `i`.
pub open spec fn display_prefix(s: Seq<int>, i: nat) -> Seq<char>
    decreases i,
{
    if i == 0 {
        Seq::empty()
    } else {
        display_prefix(s, (i - 1) as nat) + display_piece(s, i - 1)
    }
}

/// The text of the polynomial `s`.
pub open spec fn display_text(s: Seq<int>) -> Seq<char> {
    display_prefix(s, s.len())
}

/// The text of a polynomial with one more coefficient is its old text, then
/// ` + `, then the new term; a polynomial of one coefficient is that one
/// term.
pub proof fn lemma_display_push(s: Seq<int>, c: int)
    ensures
        display_text(seq![c]) == term_text(c, 0),
        s.len() > 0 ==> display_text(s.push(c)) == display_text(s) + seq![' ', '+', ' '] + term_text(
            c,
            s.len() as int,
        ),
{
    assert(display_prefix(seq![c], 0) =~= Seq::<char>::empty());
    assert(display_text(seq![c]) =~= term_text(c, 0));
    if s.len() > 0 {
        let t = s.push(c);
        let n = s.len();
        assert forall|i: nat| i <= n - 1 implies #[trigger] display_prefix(t, i) == display_prefix(s, i) by {
            lemma_display_prefix_same(s, t, i);
        }
        assert(display_piece(t, n - 1) =~= display_piece(s, n - 1) + seq![' ', '+', ' ']);
        assert(display_prefix(t, n as nat) == display_prefix(t, (n - 1) as nat) + display_piece(t, n - 1));
        assert(display_prefix(s, n as nat) == display_prefix(s, (n - 1) as nat) + display_piece(s, n - 1));
        assert(display_piece(t, n as int) =~= term_text(c, n as int));
        assert(display_text(t) =~= display_text(s) + seq![' ', '+', ' '] + term_text(c, n as int));
    }
}

proof fn lemma_display_prefix_same(s: Seq<int>, t: Seq<int>, i: nat)
    requires
        i < s.len(),
        s.len() < t.len(),
        forall|j: int| 0 <= j < s.len() ==> s[j] == t[j],
    ensures
        display_prefix(t, i) == display_prefix(s, i),
    decreases i,
{
    if i > 0 {
        lemma_display_prefix_same(s, t, (i - 1) as nat);
        assert(display_piece(t, i - 1) =~= display_piece(s, i - 1));
    }
}

/// The text of a term reads back as the coefficient and the degree: the
/// coefficient's decimal text, `x^`, the degree's decimal text and a
/// space.
pub proof fn lemma_term_reads_back(c: int, p: int)
    ensures
        signed_value(term_text(c, p).take(decimal(c).len() as int)) == c,
        term_text(c, p)[decimal(c).len() as int] == 'x',
        term_text(c, p)[decimal(c).len() + 1int] == '^',
        signed_value(term_text(c, p).subrange(decimal(c).len() + 2int, term_text(c, p).len() - 1int)) == p,
        term_text(c, p).last() == ' ',
{
    let t = term_text(c, p);
    let k = decimal(c).len() as int;
    lemma_decimal_reads_back(c);
    lemma_decimal_reads_back(p);
    assert(t.take(k) =~= decimal(c));
    assert(t.subrange(k + 2, t.len() - 1) =~= decimal(p));
}

/// The terms of row `p1` of the schoolbook product that have been added,
/// those of `y[0 .. p2]`, as they fall on coefficient `k`.
spec fn row_part(x: Seq<int>, y: Seq<int>, p1: int, p2: int, k: int) -> int {
    if p1 <= k < p1 + p2 {
        x[p1] * y[k - p1]
    } else {
        0
    }
}

impl Polynomial {
    /// The polynomial with the given coefficients.
    pub fn new(coef: Vec<i64>) -> (p: Polynomial)
        ensures
            p@ == ints(coef@),
    {
        Polynomial { coef }
    }

    /// The polynomial `0 + 1 x + 2 x^2 + ... + (size - 1) x^(size - 1)`.
    pub fn with_size(size: usize) -> (p: Polynomial)
        requires
            size <= i64::MAX + 1,
        ensures
            p@ == Seq::new(size as nat, |i: int| i),
    {
        let mut vec: Vec<i64> = Vec::new();
        let mut i: usize = 0;
        while i < size
            invariant
                size <= i64::MAX + 1,
                i <= size,
                vec.len() == i,
                forall|j: int| 0 <= j < i ==> vec@[j] == j,
            decreases size - i,
        {
            vec.push(i as i64);
            i += 1;
        }
        let p = Polynomial::new(vec);
        assert(p@ =~= Seq::new(size as nat, |i: int| i));
        p
    }

    /// The coefficients, lowest degree first.
    pub fn coefficients(&self) -> (c: &[i64])
        ensures
            ints(c@) == self@,
    {
        self.coef.as_slice()
    }

    /// The polynomial as text: `{c}x^{i} ` for each coefficient `c` at
    /// degree `i`, lowest first, with ` + ` between two terms.
    pub fn to_display_string(&self) -> (s: String)
        ensures
            s@ == display_text(self@),
    {
        let mut result = String::from_str("");
        let len = self.coef.len();
        proof {
            reveal_strlit("");
        }
        let mut power: usize = 0;
        while power < len
            invariant
                len == self@.len(),
                power <= len,
                result@ == display_prefix(self@, power as nat),
            decreases len - power,
        {
            let ghost before = result@;
            append_decimal(&mut result, self.coef[power]);
            result.append("x^");
            append_digits(&mut result, power as u64);
            result.append(" ");
            proof {
                reveal_strlit("x^");
                reveal_strlit(" ");
                assert(result@ =~= before + term_text(self@[power as int], power as int));
            }
            if power < len - 1 {
                result.append(" + ");
                proof {
                    reveal_strlit(" + ");
                }
            }
            proof {
                assert(result@ =~= display_prefix(self@, (power + 1) as nat));
            }
            power += 1;
        }
        result
    }

    /// Adds, for each degree `i` in `left .. right`, coefficient `i` of
    /// `self * other` to `res[i]`, one term at a time with wrapping
    /// addition; the other entries of `res` are left as they are.
    pub fn multiply_parallel_batch(
        &self,
        other: &Polynomial,
        left: usize,
        right: usize,
        res: &mut Vec<i64>,
    )
        requires
            right <= old(res).len(),
            right <= i64::MAX,
            self@.len() <= i64::MAX,
            other@.len() <= i64::MAX,
            forall|j: int, t: int|
                #![trigger self@[j], other@[t]]
                0 <= j < self@.len() && 0 <= t < other@.len() && left <= j + t < right ==> fits_i64(
                    self@[j] * other@[t],
                ),
        ensures
            final(res).len() == old(res).len(),
            forall|k: int|
                0 <= k < old(res).len() ==> final(res)@[k] == if left <= k < right {
                    wrap_i64(old(res)@[k] + conv(self@, other@, k))
                } else {
                    old(res)@[k] as int
                },
    {
        let ghost x = self@;
        let ghost y = other@;
        let ghost start = res@;
        let n1 = self.coef.len() as i64;
        let n2 = other.coef.len() as i64;
        let mut i: usize = left;
        while i < right
            invariant
                x == self@,
                y == other@,
                n1 == x.len(),
                n2 == y.len(),
                right <= res.len(),
                right <= i64::MAX,
                res.len() == start.len(),
                left <= right ==> left <= i <= right,
                left > right ==> i == left,
                forall|j: int, t: int|
                    #![trigger x[j], y[t]]
                    0 <= j < x.len() && 0 <= t < y.len() && left <= j + t < right ==> fits_i64(
                        x[j] * y[t],
                    ),
                forall|k: int|
                    0 <= k < start.len() ==> res@[k] == if left <= k < i {
                        wrap_i64(start[k] + conv(x, y, k))
                    } else {
                        start[k] as int
                    },
            decreases right - i,
        {
            let ii = i as i64;
            let self_left: i64 = if ii - n2 + 1 > 0 { ii - n2 + 1 } else { 0 };
            let self_right: i64 = if n1 < ii + 1 { n1 } else { ii + 1 };
            proof {
                lemma_psum_zero_prefix(x, y, i as int, self_left as nat);
                lemma_wrap_fits(start[i as int] as int);
            }
            let mut j: i64 = self_left;
            while j < self_right
                invariant
                    x == self@,
                    y == other@,
                    n1 == x.len(),
                    n2 == y.len(),
                    left <= i < right,
                    ii == i,
                    right <= res.len(),
                    res.len() == start.len(),
                    0 <= self_left <= j,
                    self_left <= self_right ==> j <= self_right,
                    self_right <= n1,
                    self_right <= i + 1,
                    self_left >= i - n2 + 1,
                    forall|jj: int, t: int|
                        #![trigger x[jj], y[t]]
                        0 <= jj < x.len() && 0 <= t < y.len() && left <= jj + t < right ==> fits_i64(
                            x[jj] * y[t],
                        ),
                    res@[i as int] == wrap_i64(start[i as int] + psum(x, y, i as int, j as nat)),
                    forall|k: int|
                        0 <= k < start.len() && k != i ==> res@[k] == if left <= k < i {
                            wrap_i64(start[k] + conv(x, y, k))
                        } else {
                            start[k] as int
                        },
                decreases self_right - j,
            {
                let other_index = ii - j;
                assert(x[j as int] == self.coef@[j as int]);
                assert(y[other_index as int] == other.coef@[other_index as int]);
                assert(fits_i64(x[j as int] * y[other_index as int]));
                let add = self.coef[j as usize] * other.coef[other_index as usize];
                let cur = res[i];
                proof {
                    lemma_wrapping_add_i64(cur, add);
                    lemma_wrap_add(start[i as int] + psum(x, y, i as int, j as nat), add as int);
                    assert(coef(x, j as int) == x[j as int]);
                    assert(coef(y, i - j) == y[other_index as int]);
                }
                res.set(i, cur.wrapping_add(add));
                j += 1;
            }
            proof {
                if self_left > self_right {
                    assert forall|t: int| 0 <= t < x.len() implies coef(x, t) == 0 || coef(
                        y,
                        i - t,
                    ) == 0 by {
                        assert(i - t >= n2);
                    }
                    lemma_psum_zero_prefix(x, y, i as int, x.len());
                    lemma_psum_zero_prefix(x, y, i as int, j as nat);
                } else {
                    assert(j == self_right);
                    lemma_psum_tail_zero(x, y, i as int, self_right as nat, x.len());
                }
                assert(res@[i as int] == wrap_i64(start[i as int] + conv(x, y, i as int)));
            }
            i += 1;
        }
    }

    /// The product computed in batches of degrees: worker `t` of
    /// `num_threads` adds the coefficients of degrees
    /// `t * size / num_threads .. (t + 1) * size / num_threads` into a
    /// zeroed result of `size` coefficients, each with wrapping addition.
    /// With no worker the result stays zero.
    pub fn multiply_parallel(&self, other: &Polynomial, num_threads: usize) -> (r: Polynomial)
        requires
            self@.len() > 0,
            self@.len() + other@.len() >= 2,
            self@.len() + other@.len() <= i64::MAX,
            self@.len() + other@.len() - 1 <= usize::MAX,
            num_threads * (self@.len() + other@.len() - 1) <= usize::MAX,
            num_threads > 0 ==> forall|j: int, t: int|
                #![trigger self@[j], other@[t]]
                0 <= j < self@.len() && 0 <= t < other@.len() ==> fits_i64(self@[j] * other@[t]),
        ensures
            r@.len() == self@.len() + other@.len() - 1,
            forall|k: int|
                0 <= k < r@.len() ==> r@[k] == if num_threads == 0 {
                    0
                } else {
                    wrap_i64(conv(self@, other@, k))
                },
            num_threads > 0 && all_fit(product(self@, other@)) ==> r@ == product(self@, other@),
    {
        let res_degree = self.coef.len() - 1 + other.coef.len() - 1;
        let res_size = res_degree + 1;
        let mut res: Vec<i64> = vec![0; res_size];
        if num_threads > 0 {
            self.add_all_batches(other, num_threads, &mut res);
        }
        let r = Polynomial::new(res);
        assert(forall|k: int| 0 <= k < r@.len() ==> r@[k] == res@[k]);
        proof {
            if num_threads > 0 && all_fit(product(self@, other@)) {
                lemma_wrapped_product(self@, other@, r@);
            }
        }
        r
    }

    /// Runs the batches of workers `0 .. num_threads` in turn on a zeroed
    /// result: afterwards it holds every coefficient of the product,
    /// wrapped.
    fn add_all_batches(&self, other: &Polynomial, num_threads: usize, res: &mut Vec<i64>)
        requires
            old(res)@.len() == self@.len() + other@.len() - 1,
            forall|k: int| 0 <= k < old(res)@.len() ==> old(res)@[k] == 0,
            num_threads > 0,
            self@.len() + other@.len() <= i64::MAX,
            num_threads * (self@.len() + other@.len() - 1) <= usize::MAX,
            forall|j: int, t: int|
                #![trigger self@[j], other@[t]]
                0 <= j < self@.len() && 0 <= t < other@.len() ==> fits_i64(self@[j] * other@[t]),
        ensures
            final(res)@.len() == old(res)@.len(),
            forall|k: int|
                0 <= k < final(res)@.len() ==> final(res)@[k] == wrap_i64(conv(self@, other@, k)),
    {
        let res_size = res.len();
        proof {
            lemma_batches_partition(res_size as nat, num_threads as nat);
        }
        let mut thread: usize = 0;
        while thread < num_threads
            invariant
                res_size == self@.len() + other@.len() - 1,
                self@.len() + other@.len() <= i64::MAX,
                num_threads * res_size <= usize::MAX,
                0 < num_threads,
                thread <= num_threads,
                res.len() == res_size,
                batch_start(0, res_size as nat, num_threads as nat) == 0,
                batch_start(num_threads as nat, res_size as nat, num_threads as nat) == res_size,
                forall|t: nat|
                    #![trigger batch_start(t, res_size as nat, num_threads as nat)]
                    t < num_threads ==> batch_start(t, res_size as nat, num_threads as nat)
                        <= batch_start(t + 1, res_size as nat, num_threads as nat) <= res_size,
                forall|j: int, t: int|
                    #![trigger self@[j], other@[t]]
                    0 <= j < self@.len() && 0 <= t < other@.len() ==> fits_i64(
                        self@[j] * other@[t],
                    ),
                forall|k: int|
                    0 <= k < res_size ==> res@[k] == if k < batch_start(
                        thread as nat,
                        res_size as nat,
                        num_threads as nat,
                    ) {
                        wrap_i64(conv(self@, other@, k))
                    } else {
                        0
                    },
            decreases num_threads - thread,
        {
            let (left, right) = batch_bounds(thread, res_size, num_threads);
            let ghost before = res@;
            self.multiply_parallel_batch(other, left, right, res);
            proof {
                assert forall|k: int| 0 <= k < res_size implies res@[k] == if k < right {
                    wrap_i64(conv(self@, other@, k))
                } else {
                    0
                } by {
                    if left <= k < right {
                        assert(before[k] == 0);
                    }
                }
            }
            thread += 1;
        }
    }

    /// Cuts the polynomial at degree `low_half_size`: the coefficients
    /// below it, and those from it on (moved down to degree 0). A cut past
    /// the end leaves the high part empty.
    pub fn split(&self, low_half_size: usize) -> (r: (Polynomial, Polynomial))
        ensures
            r.0@ == low_part(self@, low_half_size as nat),
            r.1@ == high_part(self@, low_half_size as nat),
    {
        let len = self.coef.len();
        let boundary = if low_half_size < len { low_half_size } else { len };
        let mut low_half: Vec<i64> = vec![0; boundary];
        let high_len = len - boundary;
        let mut high_half: Vec<i64> = vec![0; high_len];
        let mut i: usize = 0;
        while i < boundary
            invariant
                boundary <= len,
                len == self.coef.len(),
                low_half.len() == boundary,
                i <= boundary,
                forall|j: int| 0 <= j < i ==> low_half@[j] == self.coef@[j],
            decreases boundary - i,
        {
            low_half.set(i, self.coef[i]);
            i += 1;
        }
        let mut i: usize = boundary;
        while i < len
            invariant
                boundary <= len,
                len == self.coef.len(),
                high_half.len() == high_len,
                high_len == len - boundary,
                boundary <= i <= len,
                forall|j: int| boundary <= j < i ==> high_half@[j - boundary] == self.coef@[j],
            decreases len - i,
        {
            high_half.set(i - boundary, self.coef[i]);
            i += 1;
        }
        let low = Polynomial::new(low_half);
        let high = Polynomial::new(high_half);
        assert(low@ =~= low_part(self@, low_half_size as nat));
        assert(high@ =~= high_part(self@, low_half_size as nat));
        (low, high)
    }

    /// Karatsuba's method: below 17 coefficients in either factor the
    /// schoolbook product; otherwise both factors are cut at half the longer
    /// length `n`, and three products of halves give the result:
    /// `xl yl + x^n ((xh + xl)(yh + yl) - xh yh - xl yl) + x^(2n) xh yh`.
    pub fn multiply_karatsuba(&self, other: &Polynomial) -> (r: Polynomial)
        requires
            kara_safe(self@, other@),
            self@.len() + other@.len() - 1 <= usize::MAX,
        ensures
            r@ == product(self@, other@),
        decreases self@.len() + other@.len(),
    {
        if self.coef.len() <= 16 || other.coef.len() <= 16 {
            return self.multiply(other);
        }
        let n1 = self.coef.len();
        let n2 = other.coef.len();
        let res_degree = n1 - 1 + n2 - 1;
        let n = (if n1 >= n2 { n1 } else { n2 }) / 2;
        let (x_low, x_high) = self.split(n);
        let (y_low, y_high) = other.split(n);
        proof {
            lemma_kara_safe_nonempty(x_high@, y_high@);
        }
        let a = x_high.multiply_karatsuba(&y_high);
        let d = x_low.multiply_karatsuba(&y_low);
        let x_sum = core::ops::Add::add(x_high, &x_low);
        let y_sum = core::ops::Add::add(y_high, &y_low);
        let s = x_sum.multiply_karatsuba(&y_sum);
        let s_minus_a = core::ops::Sub::sub(s, &a);
        let e = core::ops::Sub::sub(s_minus_a, &d);
        proof {
            lemma_karatsuba_parts(self@, other@, a@, d@, e@);
        }
        karatsuba_combine(res_degree + 1, n, &a, &d, &e)
    }

    /// Karatsuba's method in the order of the task-based variant: the
    /// products of the high halves and of the low halves first, then that of
    /// the sums of the halves. The result is the same product.
    pub fn multiply_karatsuba_parallel(&self, other: &Polynomial) -> (r: Polynomial)
        requires
            kara_safe(self@, other@),
            self@.len() + other@.len() - 1 <= usize::MAX,
        ensures
            r@ == product(self@, other@),
        decreases self@.len() + other@.len(),
    {
        if self.coef.len() <= 16 || other.coef.len() <= 16 {
            return self.multiply(other);
        }
        let n1 = self.coef.len();
        let n2 = other.coef.len();
        let res_degree = n1 - 1 + n2 - 1;
        let n = (if n1 >= n2 { n1 } else { n2 }) / 2;
        let (x_low, x_high) = self.split(n);
        let (y_low, y_high) = other.split(n);
        proof {
            lemma_kara_safe_nonempty(x_high@, y_high@);
        }
        let a = x_high.multiply_karatsuba_parallel(&y_high);
        let d = x_low.multiply_karatsuba_parallel(&y_low);
        let x_sum = core::ops::Add::add(x_high, &x_low);
        let y_sum = core::ops::Add::add(y_high, &y_low);
        let s = x_sum.multiply_karatsuba_parallel(&y_sum);
        let s_minus_a = core::ops::Sub::sub(s, &a);
        let e = core::ops::Sub::sub(s_minus_a, &d);
        proof {
            lemma_karatsuba_parts(self@, other@, a@, d@, e@);
        }
        karatsuba_combine(res_degree + 1, n, &a, &d, &e)
    }

    /// Schoolbook product: every pair of terms is multiplied and added to
    /// the coefficient of its degree.
    pub fn multiply(&self, other: &Polynomial) -> (r: Polynomial)
        requires
            mul_safe(self@, other@),
            self@.len() + other@.len() - 1 <= usize::MAX,
        ensures
            r@ == product(self@, other@),
    {
        let n1 = self.coef.len();
        let n2 = other.coef.len();
        let res_degree = n1 - 1 + n2 - 1;
        let mut res: Vec<i64> = vec![0; res_degree + 1];
        let ghost x = self@;
        let ghost y = other@;
        let mut p1: usize = 0;
        while p1 < n1
            invariant
                x == self@,
                y == other@,
                mul_safe(x, y),
                n1 == x.len(),
                n2 == y.len(),
                p1 <= n1,
                res.len() == n1 + n2 - 1,
                forall|k: int| 0 <= k < res.len() ==> res@[k] == psum(x, y, k, p1 as nat),
            decreases n1 - p1,
        {
            let mut p2: usize = 0;
            while p2 < n2
                invariant
                    x == self@,
                    y == other@,
                    mul_safe(x, y),
                    n1 == x.len(),
                    n2 == y.len(),
                    p1 < n1,
                    p2 <= n2,
                    res.len() == n1 + n2 - 1,
                    forall|k: int|
                        0 <= k < res.len() ==> res@[k] == psum(x, y, k, p1 as nat) + row_part(
                            x,
                            y,
                            p1 as int,
                            p2 as int,
                            k,
                        ),
                decreases n2 - p2,
            {
                assert(x[p1 as int] == self.coef@[p1 as int]);
                assert(y[p2 as int] == other.coef@[p2 as int]);
                let term = self.coef[p1] * other.coef[p2];
                let k = p1 + p2;
                assert(row_part(x, y, p1 as int, p2 as int, k as int) == 0);
                let v = res[k] + term;
                res.set(k, v);
                p2 += 1;
                assert forall|j: int| 0 <= j < res.len() implies res@[j] == psum(x, y, j, p1 as nat)
                    + row_part(x, y, p1 as int, p2 as int, j) by {
                    if j != k {
                        assert(row_part(x, y, p1 as int, p2 as int, j) == row_part(
                            x,
                            y,
                            p1 as int,
                            p2 - 1,
                            j,
                        ));
                    }
                }
            }
            assert forall|k: int| 0 <= k < res.len() implies res@[k] == psum(
                x,
                y,
                k,
                (p1 + 1) as nat,
            ) by {
                assert(coef(x, p1 as int) == x[p1 as int]);
                assert(row_part(x, y, p1 as int, n2 as int, k) == coef(x, p1 as int) * coef(
                    y,
                    k - p1,
                ));
            }
            p1 += 1;
        }
        let r = Polynomial { coef: res };
        assert(r@ =~= product(x, y));
        r
    }
}

/// The degrees `left .. right` of the batch of worker `worker` among
/// `workers`, for a product of `size` coefficients.
pub fn batch_bounds(worker: usize, size: usize, workers: usize) -> (r: (usize, usize))
    requires
        worker < workers,
        workers * size <= usize::MAX,
    ensures
        r.0 == batch_start(worker as nat, size as nat, workers as nat),
        r.1 == batch_start((worker + 1) as nat, size as nat, workers as nat),
        r.0 <= r.1 <= size,
{
    proof {
        lemma_batch_products(worker as nat, size as nat, workers as nat);
        lemma_batches_partition(size as nat, workers as nat);
        assert(batch_start(worker as nat, size as nat, workers as nat) <= batch_start(
            (worker + 1) as nat,
            size as nat,
            workers as nat,
        ) <= size);
    }
    ((worker * size) / workers, ((worker + 1) * size) / workers)
}

/// Puts the batches of workers `0 .. workers` together: degree `k` of the
/// result is taken from `parts[t]`, for the worker `t` whose batch holds
/// `k`.
pub fn join_batches(parts: &Vec<Vec<i64>>, size: usize, workers: usize) -> (r: Vec<i64>)
    requires
        workers > 0,
        parts@.len() == workers,
        workers * size <= usize::MAX,
        forall|t: int| 0 <= t < workers ==> #[trigger] parts@[t]@.len() == size,
    ensures
        r@.len() == size,
        forall|t: int, k: int|
            0 <= t < workers && batch_start(t as nat, size as nat, workers as nat) <= k
                < batch_start((t + 1) as nat, size as nat, workers as nat) ==> #[trigger] r@[k]
                == #[trigger] parts@[t]@[k],
{
    proof {
        lemma_batches_partition(size as nat, workers as nat);
    }
    let mut res: Vec<i64> = Vec::new();
    let mut worker: usize = 0;
    while worker < workers
        invariant
            workers > 0,
            parts@.len() == workers,
            workers * size <= usize::MAX,
            forall|t: int| 0 <= t < workers ==> #[trigger] parts@[t]@.len() == size,
            batch_start(0, size as nat, workers as nat) == 0,
            batch_start(workers as nat, size as nat, workers as nat) == size,
            forall|t: nat|
                #![trigger batch_start(t, size as nat, workers as nat)]
                t < workers ==> batch_start(t, size as nat, workers as nat) <= batch_start(
                    t + 1,
                    size as nat,
                    workers as nat,
                ) <= size,
            worker <= workers,
            res@.len() == batch_start(worker as nat, size as nat, workers as nat),
            forall|t: int, k: int|
                0 <= t < worker && batch_start(t as nat, size as nat, workers as nat) <= k
                    < batch_start((t + 1) as nat, size as nat, workers as nat) ==> #[trigger] res@[k]
                    == #[trigger] parts@[t]@[k],
        decreases workers - worker,
    {
        let (left, right) = batch_bounds(worker, size, workers);
        let ghost before = res@;
        append_range(&mut res, &parts[worker], left, right);
        proof {
            assert forall|t: int, j: int|
                0 <= t < worker + 1 && batch_start(t as nat, size as nat, workers as nat) <= j
                    < batch_start((t + 1) as nat, size as nat, workers as nat) implies #[trigger] res@[j]
                    == #[trigger] parts@[t]@[j] by {
                if t < worker {
                    lemma_batch_order(t as nat, worker as nat, size as nat, workers as nat);
                    assert(res@[j] == before[j]);
                }
            }
        }
        worker += 1;
    }
    res
}

/// Appends `part[left .. right]` to `res`.
fn append_range(res: &mut Vec<i64>, part: &Vec<i64>, left: usize, right: usize)
    requires
        left <= right <= part@.len(),
    ensures
        final(res)@ == old(res)@ + part@.subrange(left as int, right as int),
{
    let mut k: usize = left;
    while k < right
        invariant
            left <= k <= right <= part@.len(),
            res@ == old(res)@ + part@.subrange(left as int, k as int),
        decreases right - k,
    {
        res.push(part[k]);
        assert(part@.subrange(left as int, k + 1) == part@.subrange(left as int, k as int).push(part@[k as int]));
        k += 1;
    }
}

/// A batch ends at or before the start of every later batch.
proof fn lemma_batch_order(t: nat, u: nat, size: nat, workers: nat)
    requires
        t < u <= workers,
        forall|v: nat|
            #![trigger batch_start(v, size, workers)]
            v < workers ==> batch_start(v, size, workers) <= batch_start(v + 1, size, workers),
    ensures
        batch_start(t + 1, size, workers) <= batch_start(u, size, workers),
    decreases u - t,
{
    if t + 1 < u {
        lemma_batch_order(t + 1, u, size, workers);
        assert(batch_start(t + 1, size, workers) <= batch_start(t + 2, size, workers));
    }
}

/// Multiplying a non-empty polynomial by the constant `1` is always
/// allowed and gives it back; multiplying it by the constant `0` is always
/// allowed and gives as many zero coefficients as it has.
pub proof fn lemma_multiply_by_constants(p: Polynomial)
    requires
        p@.len() > 0,
    ensures
        p@.len() <= usize::MAX,
        mul_safe(p@, seq![1int]),
        product(p@, seq![1int]) == p@,
        mul_safe(p@, seq![0int]),
        product(p@, seq![0int]) == Seq::new(p@.len(), |i: int| 0int),
{
    assert forall|i: int| 0 <= i < p@.len() implies fits_i64(#[trigger] p@[i]) by {
        assert(p@[i] == p.coef@[i] as int);
    }
    assert(p@.len() == p.coef.len());
    lemma_mul_safe_by_constant(p@, 1);
    lemma_mul_safe_by_constant(p@, 0);
    lemma_product_one(p@);
    lemma_product_zero(p@);
}

/// Coefficients that are the product's, wrapped, are the product's when
/// it fits.
proof fn lemma_wrapped_product(x: Seq<int>, y: Seq<int>, r: Seq<int>)
    requires
        r.len() == x.len() + y.len() - 1,
        forall|k: int| 0 <= k < r.len() ==> r[k] == wrap_i64(conv(x, y, k)),
        all_fit(product(x, y)),
    ensures
        r == product(x, y),
{
    assert forall|k: int| 0 <= k < r.len() implies r[k] == product(x, y)[k] by {
        assert(fits_i64(product(x, y)[k]));
        lemma_wrap_fits(conv(x, y, k));
    }
    assert(r =~= product(x, y));
}

proof fn lemma_batch_products(t: nat, size: nat, workers: nat)
    requires
        t < workers,
    ensures
        t * size <= (t + 1) * size <= workers * size,
{
    assert(t * size <= (t + 1) * size <= workers * size) by (nonlinear_arith)
        requires
            t < workers,
    ;
}

/// Factors on which Karatsuba's method is safe have a non-empty first
/// factor and a product with at least one coefficient.
proof fn lemma_kara_safe_nonempty(x: Seq<int>, y: Seq<int>)
    requires
        kara_safe(x, y),
    ensures
        x.len() > 0,
        x.len() + y.len() >= 2,
{
}

/// The sub-products of Karatsuba's method, laid out at degrees `2n`,
/// `n` and `0`, add up to the product of the factors; and they fit.
proof fn lemma_karatsuba_parts(x: Seq<int>, y: Seq<int>, a: Seq<int>, d: Seq<int>, e: Seq<int>)
    requires
        x.len() > 16,
        y.len() > 16,
        kara_safe(x, y),
        a == product(high_part(x, kara_half(x, y)), high_part(y, kara_half(x, y))),
        d == product(low_part(x, kara_half(x, y)), low_part(y, kara_half(x, y))),
        e == kara_middle(x, y, kara_half(x, y)),
    ensures
        ({
            let n = kara_half(x, y);
            &&& a.len() + 2 * n <= x.len() + y.len() - 1
            &&& e.len() + n <= x.len() + y.len() - 1
            &&& d.len() <= x.len() + y.len() - 1
            &&& forall|k: int|
                #![trigger coef(a, k - 2 * n), coef(e, k - n)]
                n <= k < n + e.len() ==> fits_i64(coef(a, k - 2 * n) + coef(e, k - n))
            &&& forall|k: int|
                #![trigger conv(x, y, k)]
                coef(a, k - 2 * n) + coef(e, k - n) + coef(d, k) == conv(x, y, k)
            &&& forall|k: int|
                #![trigger coef(a, k - 2 * n), coef(e, k - n), coef(d, k)]
                0 <= k < d.len() ==> fits_i64(coef(a, k - 2 * n) + coef(e, k - n) + coef(d, k))
        }),
{
    let n = kara_half(x, y);
    let xl = low_part(x, n);
    let xh = high_part(x, n);
    let yl = low_part(y, n);
    let yh = high_part(y, n);
    let sx = padd(xh, xl);
    let sy = padd(yh, yl);
    let s = product(sx, sy);
    lemma_kara_safe_nonempty(xh, yh);
    lemma_kara_safe_nonempty(xl, yl);
    lemma_kara_safe_nonempty(sx, sy);
    assert forall|k: int|
        #![trigger conv(x, y, k)]
        coef(a, k - 2 * n) + coef(e, k - n) + coef(d, k) == conv(x, y, k) by {
        let j = k - n;
        lemma_coef_product(xh, yh, k - 2 * n);
        lemma_coef_product(xh, yh, j);
        lemma_coef_product(xl, yl, k);
        lemma_coef_product(xl, yl, j);
        lemma_coef_product(sx, sy, j);
        lemma_coef_psub(psub(s, a), d, j);
        lemma_coef_psub(s, a, j);
        lemma_conv_sums(xh, xl, yh, yl, j);
        lemma_conv_split(x, y, n, k);
    }
    assert forall|k: int|
        #![trigger coef(a, k - 2 * n), coef(e, k - n), coef(d, k)]
        0 <= k < d.len() implies fits_i64(coef(a, k - 2 * n) + coef(e, k - n) + coef(d, k)) by {
        assert(coef(a, k - 2 * n) + coef(e, k - n) + coef(d, k) == conv(x, y, k));
    }
}

/// Lays the sub-products of Karatsuba's method out in `size` coefficients:
/// `d`, plus `e` moved up by `n`, plus `a` moved up by `2n`.
fn karatsuba_combine(size: usize, n: usize, a: &Polynomial, d: &Polynomial, e: &Polynomial) -> (r:
    Polynomial)
    requires
        a@.len() + 2 * n <= size,
        e@.len() + n <= size,
        d@.len() <= size,
        forall|k: int|
            #![trigger coef(a@, k - 2 * n), coef(e@, k - n)]
            n <= k < n + e@.len() ==> fits_i64(coef(a@, k - 2 * n) + coef(e@, k - n)),
        forall|k: int|
            #![trigger coef(a@, k - 2 * n), coef(e@, k - n), coef(d@, k)]
            0 <= k < d@.len() ==> fits_i64(coef(a@, k - 2 * n) + coef(e@, k - n) + coef(d@, k)),
    ensures
        r@.len() == size,
        forall|k: int|
            0 <= k < size ==> r@[k] == coef(a@, k - 2 * n) + coef(e@, k - n) + coef(d@, k),
{
    let two_n = 2 * n;
    let mut res: Vec<i64> = vec![0; size];
    let mut i: usize = 0;
    while i < a.coef.len()
        invariant
            a@.len() + two_n <= size,
            two_n == 2 * n,
            res.len() == size,
            i <= a@.len(),
            a@.len() == a.coef.len(),
            forall|k: int|
                0 <= k < size ==> res@[k] == if k < i + two_n { coef(a@, k - two_n) } else { 0 },
        decreases a.coef.len() - i,
    {
        let v = res[i + two_n] + a.coef[i];
        res.set(i + two_n, v);
        i += 1;
    }
    let mut i: usize = 0;
    while i < e.coef.len()
        invariant
            e@.len() + n <= size,
            two_n == 2 * n,
            res.len() == size,
            i <= e@.len(),
            e@.len() == e.coef.len(),
            forall|k: int|
                #![trigger coef(a@, k - 2 * n), coef(e@, k - n)]
                n <= k < n + e@.len() ==> fits_i64(coef(a@, k - 2 * n) + coef(e@, k - n)),
            forall|k: int|
                0 <= k < size ==> res@[k] == coef(a@, k - two_n) + if k < i + n {
                    coef(e@, k - n)
                } else {
                    0
                },
        decreases e.coef.len() - i,
    {
        assert(fits_i64(coef(a@, (i + n) - 2 * n) + coef(e@, (i + n) - n)));
        let v = res[i + n] + e.coef[i];
        res.set(i + n, v);
        i += 1;
    }
    let mut i: usize = 0;
    while i < d.coef.len()
        invariant
            d@.len() <= size,
            two_n == 2 * n,
            res.len() == size,
            i <= d@.len(),
            d@.len() == d.coef.len(),
            forall|k: int|
                #![trigger coef(a@, k - 2 * n), coef(e@, k - n), coef(d@, k)]
                0 <= k < d@.len() ==> fits_i64(coef(a@, k - 2 * n) + coef(e@, k - n) + coef(d@, k)),
            forall|k: int|
                0 <= k < size ==> res@[k] == coef(a@, k - two_n) + coef(e@, k - n) + if k < i {
                    coef(d@, k)
                } else {
                    0
                },
        decreases d.coef.len() - i,
    {
        assert(fits_i64(coef(a@, i - 2 * n) + coef(e@, i - n) + coef(d@, i as int)));
        let v = res[i] + d.coef[i];
        res.set(i, v);
        i += 1;
    }
    Polynomial { coef: res }
}

impl<'a> core::ops::Add<&'a Polynomial> for Polynomial {
    type Output = Polynomial;

    /// Coefficientwise sum; the shorter polynomial is read as padded with
    /// zeros.
    fn add(self, rhs: &'a Polynomial) -> (r: Polynomial)
        ensures
            r@ == padd(self@, rhs@),
    {
        let n1 = self.coef.len();
        let n2 = rhs.coef.len();
        let size = if n1 >= n2 { n1 } else { n2 };
        let mut result: Vec<i64> = vec![0; size];
        let mut i: usize = 0;
        while i < size
            invariant
                size == padd(self@, rhs@).len(),
                n1 == self@.len(),
                n2 == rhs@.len(),
                all_fit(padd(self@, rhs@)),
                i <= size,
                result.len() == size,
                forall|j: int| 0 <= j < i ==> result@[j] == padd(self@, rhs@)[j],
            decreases size - i,
        {
            let x: i64 = if i < n1 { self.coef[i] } else { 0 };
            let y: i64 = if i < n2 { rhs.coef[i] } else { 0 };
            assert(padd(self@, rhs@)[i as int] == x + y);
            result.set(i, x + y);
            i += 1;
        }
        let r = Polynomial { coef: result };
        assert(r@ =~= padd(self@, rhs@));
        r
    }
}

impl<'a> vstd::std_specs::ops::AddSpecImpl<&'a Polynomial> for Polynomial {
    open spec fn obeys_add_spec() -> bool {
        false
    }

    open spec fn add_req(self, rhs: &'a Polynomial) -> bool {
        all_fit(padd(self@, rhs@))
    }

    /// A polynomial whose coefficients are the coefficientwise sum. The
    /// `ensures` of `add` states its result by its coefficients alone, so
    /// `obeys_add_spec` is false and this is not used by callers.
    open spec fn add_spec(self, rhs: &'a Polynomial) -> Polynomial {
        choose|p: Polynomial| p@ == padd(self@, rhs@)
    }
}

impl<'a> core::ops::Sub<&'a Polynomial> for Polynomial {
    type Output = Polynomial;

    /// Coefficientwise difference; the shorter polynomial is read as padded
    /// with zeros.
    fn sub(self, rhs: &'a Polynomial) -> (r: Polynomial)
        ensures
            r@ == psub(self@, rhs@),
    {
        let n1 = self.coef.len();
        let n2 = rhs.coef.len();
        let size = if n1 >= n2 { n1 } else { n2 };
        let mut result: Vec<i64> = vec![0; size];
        let mut i: usize = 0;
        while i < size
            invariant
                size == psub(self@, rhs@).len(),
                n1 == self@.len(),
                n2 == rhs@.len(),
                all_fit(psub(self@, rhs@)),
                i <= size,
                result.len() == size,
                forall|j: int| 0 <= j < i ==> result@[j] == psub(self@, rhs@)[j],
            decreases size - i,
        {
            let x: i64 = if i < n1 { self.coef[i] } else { 0 };
            let y: i64 = if i < n2 { rhs.coef[i] } else { 0 };
            assert(psub(self@, rhs@)[i as int] == x - y);
            result.set(i, x - y);
            i += 1;
        }
        let r = Polynomial { coef: result };
        assert(r@ =~= psub(self@, rhs@));
        r
    }
}

impl<'a> vstd::std_specs::ops::SubSpecImpl<&'a Polynomial> for Polynomial {
    open spec fn obeys_sub_spec() -> bool {
        false
    }

    open spec fn sub_req(self, rhs: &'a Polynomial) -> bool {
        all_fit(psub(self@, rhs@))
    }

    /// A polynomial whose coefficients are the coefficientwise difference.
    /// The `ensures` of `sub` states its result by its coefficients alone,
    /// so `obeys_sub_spec` is false and this is not used by callers.
    open spec fn sub_spec(self, rhs: &'a Polynomial) -> Polynomial {
        choose|p: Polynomial| p@ == psub(self@, rhs@)
    }
}

} // verus!
