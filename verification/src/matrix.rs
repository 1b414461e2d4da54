//! Matrix multiplication shared out among work groups: each group
//! computes a fixed set of entries of the product, chosen by one of three
//! strategies (consecutive entries row by row, consecutive entries column
//! by column, or every `total`-th entry).
use vstd::prelude::*;
use vstd::arithmetic::div_mod::{lemma_div_pos_is_pos, lemma_fundamental_div_mod, lemma_fundamental_div_mod_converse, lemma_mod_bound};
use vstd::arithmetic::mul::{lemma_mul_by_zero_is_zero, lemma_mul_inequality, lemma_mul_is_distributive_add_other_way, lemma_mul_is_commutative, lemma_mul_nonnegative};

verus! {

/// The entries of a matrix, row by row, read as integers.
pub open spec fn rows(m: &Vec<Vec<i32>>) -> Seq<Seq<int>> {
    m@.map_values(|r: Vec<i32>| r@.map_values(|v: i32| v as int))
}

/// Whether `v` can be held by an `i32`.
pub open spec fn fits_i32(v: int) -> bool {
    i32::MIN <= v <= i32::MAX
}

/// `sum_{t < k} a[line][t] * b[t][col]`.
pub open spec fn dot_prefix(a: Seq<Seq<int>>, b: Seq<Seq<int>>, line: int, col: int, k: nat) -> int
    decreases k,
{
    if k == 0 {
        0
    } else {
        dot_prefix(a, b, line, col, (k - 1) as nat) + a[line][k - 1] * b[k - 1][col]
    }
}

/// Entry `(line, col)` of the product `a b`, where `b` has `b.len()` rows.
pub open spec fn element(a: Seq<Seq<int>>, b: Seq<Seq<int>>, line: int, col: int) -> int {
    dot_prefix(a, b, line, col, b.len())
}

/// Entry `(line, col)` of `a b` can be computed: row `line` of `a` exists
/// and is as long as `b` has rows, every row of `b` has column `col`, and
/// each term and each partial sum, taken in order, fits an `i32`.
pub open spec fn element_safe(a: Seq<Seq<int>>, b: Seq<Seq<int>>, line: int, col: int) -> bool {
    &&& 0 <= line < a.len()
    &&& a[line].len() >= b.len()
    &&& 0 <= col
    &&& forall|t: int|
        #![trigger b[t]]
        0 <= t < b.len() ==> {
            &&& col < b[t].len()
            &&& fits_i32(a[line][t] * b[t][col])
            &&& fits_i32(dot_prefix(a, b, line, col, t as nat) + a[line][t] * b[t][col])
        }
}

/// Entry `(line, col)` can be computed and stored in `result`.
pub open spec fn cell_ok(a: Seq<Seq<int>>, b: Seq<Seq<int>>, result: Seq<Seq<int>>, line: int, col: int) -> bool {
    &&& element_safe(a, b, line, col)
    &&& line < result.len()
    &&& col < result[line].len()
}

/// The same shape: as many rows, each as long.
pub open spec fn same_shape(x: Seq<Seq<int>>, y: Seq<Seq<int>>) -> bool {
    &&& x.len() == y.len()
    &&& forall|i: int| 0 <= i < x.len() ==> #[trigger] x[i].len() == y[i].len()
}

/// First entry, in a numbering of the `n * m` entries, of the consecutive
/// share of work group `group` among `total`: `group * (n m / total)`.
pub open spec fn span_start(group: int, total: int, n: int, m: int) -> int {
    ((n * m) / total) * group
}

/// One past the last entry of that share: the next group's start, or
/// `n * m` for the last group, which also takes the remainder.
pub open spec fn span_end(group: int, total: int, n: int, m: int) -> int {
    if group + 1 == total {
        n * m
    } else {
        span_start(group, total, n, m) + (n * m) / total
    }
}

/// Whether entry `(l, c)` of an `n x m` product is computed by work group
/// `group` of `total` under the row strategy: entries numbered row by row
/// (`l * m + c`), each group taking a consecutive span.
pub open spec fn owns_row(group: int, total: int, n: int, m: int, l: int, c: int) -> bool {
    &&& 0 <= l
    &&& 0 <= c < m
    &&& span_start(group, total, n, m) <= l * m + c < span_end(group, total, n, m)
}

/// Whether entry `(l, c)` is computed by work group `group` under the
/// column strategy: entries numbered column by column (`c * n + l`), each
/// group taking a consecutive span.
pub open spec fn owns_column(group: int, total: int, n: int, m: int, l: int, c: int) -> bool {
    &&& 0 <= l < n
    &&& 0 <= c
    &&& span_start(group, total, n, m) <= c * n + l < span_end(group, total, n, m)
}

/// Whether entry `(l, c)` is computed by work group `group` under the
/// interleaved strategy: entries numbered row by row, group `group` taking
/// numbers `group`, `group + total`, `group + 2 total`, ...
pub open spec fn owns_kth(group: int, total: int, n: int, m: int, l: int, c: int) -> bool {
    &&& 0 <= l
    &&& 0 <= c < m
    &&& group <= l * m + c < n * m
    &&& (l * m + c - group) % total == 0
}

/// For a group below `total`, the entry numbers from `group` on that are
/// `group` plus a multiple of `total` are those with remainder `group`.
pub proof fn lemma_kth_residue(idx: int, group: int, total: int)
    requires
        0 <= group < total,
        0 <= idx,
    ensures
        (group <= idx && (idx - group) % total == 0) <==> idx % total == group,
{
    lemma_fundamental_div_mod(idx, total);
    lemma_mod_bound(idx, total);
    if group <= idx && (idx - group) % total == 0 {
        lemma_fundamental_div_mod(idx - group, total);
        lemma_mul_is_commutative(total, (idx - group) / total);
        lemma_fundamental_div_mod_converse(idx, total, (idx - group) / total, group);
    }
    if idx % total == group {
        lemma_mul_is_commutative(total, idx / total);
        lemma_mul_nonnegative(total, idx / total);
        lemma_div_pos_is_pos(idx, total);
        lemma_fundamental_div_mod_converse(idx - group, total, idx / total, 0);
    }
}

/// Numbering entries row by row is one-to-one.
pub proof fn lemma_lin_unique(l1: int, c1: int, l2: int, c2: int, m: int)
    requires
        0 <= c1 < m,
        0 <= c2 < m,
        l1 * m + c1 == l2 * m + c2,
    ensures
        l1 == l2,
        c1 == c2,
{
    lemma_fundamental_div_mod_converse(l1 * m + c1, m, l1, c1);
    lemma_fundamental_div_mod_converse(l2 * m + c2, m, l2, c2);
}

/// Moving one entry along a row, or to the start of the next row.
proof fn lemma_lin_next(l: int, c: int, m: int)
    requires
        0 <= c < m,
    ensures
        c + 1 < m ==> l * m + (c + 1) == l * m + c + 1,
        c + 1 == m ==> (l + 1) * m + 0 == l * m + c + 1,
{
    lemma_mul_is_distributive_add_other_way(m, l, 1);
}

/// The consecutive shares of the work groups lie within the `n * m`
/// entries, in order.
pub proof fn lemma_span_bounds(group: int, total: int, n: int, m: int)
    requires
        0 <= group < total,
        0 <= n,
        0 <= m,
    ensures
        0 <= span_start(group, total, n, m) <= span_end(group, total, n, m) <= n * m,
        group + 1 < total ==> span_end(group, total, n, m) == span_start(group + 1, total, n, m),
        span_start(0, total, n, m) == 0,
{
    let s = (n * m) / total;
    lemma_mul_nonnegative(n, m);
    lemma_div_pos_is_pos(n * m, total);
    lemma_fundamental_div_mod(n * m, total);
    lemma_mod_bound(n * m, total);
    lemma_mul_is_commutative(total, s);
    lemma_mul_inequality(group + 1, total, s);
    lemma_mul_is_commutative(group + 1, s);
    lemma_mul_is_distributive_add_other_way(s, group, 1);
    lemma_mul_nonnegative(s, group);
}

/// Computes entry `(line, column)` of `matrix1 * matrix2`.
pub fn compute_element(
    line: usize,
    column: usize,
    matrix1: &Vec<Vec<i32>>,
    matrix2: &Vec<Vec<i32>>,
) -> (r: i32)
    requires
        element_safe(rows(matrix1), rows(matrix2), line as int, column as int),
    ensures
        r == element(rows(matrix1), rows(matrix2), line as int, column as int),
{
    let ghost a = rows(matrix1);
    let ghost b = rows(matrix2);
    let mut result: i32 = 0;
    let mut intermediary: usize = 0;
    while intermediary < matrix2.len()
        invariant
            a == rows(matrix1),
            b == rows(matrix2),
            element_safe(a, b, line as int, column as int),
            intermediary <= matrix2.len(),
            result == dot_prefix(a, b, line as int, column as int, intermediary as nat),
        decreases matrix2.len() - intermediary,
    {
        let ghost t = intermediary as int;
        assert(b[t].len() == matrix2@[t]@.len());
        assert(a[line as int][t] == matrix1@[line as int]@[t]);
        assert(b[t][column as int] == matrix2@[t]@[column as int]);
        let x = matrix1[line][intermediary];
        let y = matrix2[intermediary][column];
        result = result + x * y;
        intermediary += 1;
    }
    result
}

/// An `n x m` matrix of zeros, to collect a product in.
pub fn build_matrix(n: usize, m: usize) -> (r: Vec<Vec<i32>>)
    ensures
        rows(&r) == Seq::new(n as nat, |i: int| Seq::new(m as nat, |j: int| 0int)),
{
    let mut result: Vec<Vec<i32>> = Vec::new();
    let mut i: usize = 0;
    while i < n
        invariant
            i <= n,
            rows(&result) == Seq::new(i as nat, |k: int| Seq::new(m as nat, |j: int| 0int)),
        decreases n - i,
    {
        let mut line: Vec<i32> = Vec::new();
        let mut j: usize = 0;
        while j < m
            invariant
                j <= m,
                line@.len() == j,
                forall|k: int| 0 <= k < j ==> line@[k] == 0,
            decreases m - j,
        {
            line.push(0);
            j += 1;
        }
        let ghost before = rows(&result);
        assert(line@.map_values(|v: i32| v as int) =~= Seq::new(m as nat, |j: int| 0int));
        result.push(line);
        assert(rows(&result) =~= before.push(Seq::new(m as nat, |j: int| 0int)));
        assert(Seq::new((i + 1) as nat, |k: int| Seq::new(m as nat, |j: int| 0int)) =~= before.push(
            Seq::new(m as nat, |j: int| 0int),
        ));
        i += 1;
    }
    result
}

/// Work group `group` of `total` computes its consecutive share of the
/// entries of `matrix1 * matrix2`, numbered row by row, and stores each in
/// `result`; every other entry of `result` is left as it is.
pub fn compute_consecutive_row(
    group: usize,
    total: usize,
    matrix1: &Vec<Vec<i32>>,
    matrix2: &Vec<Vec<i32>>,
    result: &mut Vec<Vec<i32>>,
)
    requires
        0 < total,
        group < usize::MAX,
        span_start(
            group as int,
            total as int,
            matrix1@.len() as int,
            matrix2@[0]@.len() as int,
        ) <= usize::MAX,
        matrix2@.len() > 0,
        matrix2@[0]@.len() > 0,
        matrix1@.len() * matrix2@[0]@.len() <= usize::MAX,
        forall|l: int, c: int|
            #[trigger] owns_row(
                group as int,
                total as int,
                matrix1@.len() as int,
                matrix2@[0]@.len() as int,
                l,
                c,
            ) ==> cell_ok(rows(matrix1), rows(matrix2), rows(old(result)), l, c),
    ensures
        same_shape(rows(final(result)), rows(old(result))),
        forall|l: int, c: int|
            0 <= l < rows(old(result)).len() && 0 <= c < rows(old(result))[l].len() ==> #[trigger] rows(
                final(result),
            )[l][c] == if owns_row(
                group as int,
                total as int,
                matrix1@.len() as int,
                matrix2@[0]@.len() as int,
                l,
                c,
            ) {
                element(rows(matrix1), rows(matrix2), l, c)
            } else {
                rows(old(result))[l][c]
            },
        rows(final(result)) == group_step(
            Strategy::Rows,
            group as int,
            total as int,
            rows(matrix1),
            rows(matrix2),
            rows(old(result)),
        ),
{
    let ghost a = rows(matrix1);
    let ghost b = rows(matrix2);
    let ghost start_matrix = rows(result);
    let n = matrix1.len();
    let m = matrix2[0].len();
    proof {
        if group < total {
            lemma_span_bounds(group as int, total as int, n as int, m as int);
        }
        lemma_mul_nonnegative(n as int, m as int);
        lemma_div_pos_is_pos((n * m) as int, total as int);
        lemma_mul_nonnegative((n * m) / (total as int), group as int);
    }
    let mut steps_per_group = (n * m) / total;
    let steps_until_now = steps_per_group * group;
    let mut line = steps_until_now / m;
    let mut column = steps_until_now % m;
    if group + 1 == total {
        steps_per_group = n * m - steps_until_now;
    }
    let ghost start = span_start(group as int, total as int, n as int, m as int);
    let ghost end = span_end(group as int, total as int, n as int, m as int);
    proof {
        lemma_fundamental_div_mod(steps_until_now as int, m as int);
        lemma_mul_is_commutative(m as int, line as int);
        assert(steps_until_now == start);
        assert(start + steps_per_group == end);
    }
    let mut step: usize = 0;
    while step < steps_per_group
        invariant
            a == rows(matrix1),
            b == rows(matrix2),
            matrix2@.len() > 0,
            n == matrix1@.len(),
            m == matrix2@[0]@.len(),
            m > 0,
            start == span_start(group as int, total as int, n as int, m as int),
            end == span_end(group as int, total as int, n as int, m as int),
            start + steps_per_group == end,
            step <= steps_per_group,
            column < m,
            line * m + column == start + step,
            same_shape(rows(result), start_matrix),
            forall|l: int, c: int|
                #[trigger] owns_row(group as int, total as int, n as int, m as int, l, c) ==> cell_ok(
                    a,
                    b,
                    start_matrix,
                    l,
                    c,
                ),
            forall|l: int, c: int|
                0 <= l < start_matrix.len() && 0 <= c < start_matrix[l].len() ==> #[trigger] rows(
                    result,
                )[l][c] == if 0 <= c < m && start <= l * m + c < start + step {
                    element(a, b, l, c)
                } else {
                    start_matrix[l][c]
                },
        decreases steps_per_group - step,
    {
        assert(owns_row(group as int, total as int, n as int, m as int, line as int, column as int));
        let value = compute_element(line, column, matrix1, matrix2);
        let ghost before = rows(result);
        assert(rows(result)[line as int].len() == result@[line as int]@.len());
        assert(line < result@.len() && column < result@[line as int]@.len());
        result[line][column] = value;
        proof {
            assert forall|l: int, c: int|
                0 <= l < start_matrix.len() && 0 <= c < start_matrix[l].len() implies #[trigger] rows(
                    result,
                )[l][c] == if 0 <= c < m && start <= l * m + c < start + step + 1 {
                    element(a, b, l, c)
                } else {
                    start_matrix[l][c]
                } by {
                if 0 <= c < m && l * m + c == line * m + column {
                    lemma_lin_unique(l, c, line as int, column as int, m as int);
                }
                if l != line || c != column {
                    assert(rows(result)[l][c] == before[l][c]);
                }
            }
            assert forall|i: int| 0 <= i < rows(result).len() implies #[trigger] rows(result)[i].len()
                == start_matrix[i].len() by {
                assert(rows(result)[i].len() == before[i].len());
            }
            lemma_lin_next(line as int, column as int, m as int);
        }
        column += 1;
        if column == m {
            line += 1;
            column = 0;
        }
        step += 1;
    }
    proof {
        assert(a.len() == n && b[0].len() == m);
        lemma_group_step_cells(Strategy::Rows, group as int, total as int, a, b, start_matrix, rows(result));
    }
}

/// Work group `group` of `total` computes its consecutive share of the
/// entries of `matrix1 * matrix2`, numbered column by column, and stores
/// each in `result`; every other entry of `result` is left as it is.
pub fn compute_consecutive_column(
    group: usize,
    total: usize,
    matrix1: &Vec<Vec<i32>>,
    matrix2: &Vec<Vec<i32>>,
    result: &mut Vec<Vec<i32>>,
)
    requires
        0 < total,
        group < usize::MAX,
        span_start(
            group as int,
            total as int,
            matrix1@.len() as int,
            matrix2@[0]@.len() as int,
        ) <= usize::MAX,
        matrix1@.len() > 0,
        matrix2@.len() > 0,
        matrix1@.len() * matrix2@[0]@.len() <= usize::MAX,
        forall|l: int, c: int|
            #[trigger] owns_column(
                group as int,
                total as int,
                matrix1@.len() as int,
                matrix2@[0]@.len() as int,
                l,
                c,
            ) ==> cell_ok(rows(matrix1), rows(matrix2), rows(old(result)), l, c),
    ensures
        same_shape(rows(final(result)), rows(old(result))),
        forall|l: int, c: int|
            0 <= l < rows(old(result)).len() && 0 <= c < rows(old(result))[l].len() ==> #[trigger] rows(
                final(result),
            )[l][c] == if owns_column(
                group as int,
                total as int,
                matrix1@.len() as int,
                matrix2@[0]@.len() as int,
                l,
                c,
            ) {
                element(rows(matrix1), rows(matrix2), l, c)
            } else {
                rows(old(result))[l][c]
            },
        rows(final(result)) == group_step(
            Strategy::Columns,
            group as int,
            total as int,
            rows(matrix1),
            rows(matrix2),
            rows(old(result)),
        ),
{
    let ghost a = rows(matrix1);
    let ghost b = rows(matrix2);
    let ghost start_matrix = rows(result);
    let n = matrix1.len();
    let m = matrix2[0].len();
    proof {
        if group < total {
            lemma_span_bounds(group as int, total as int, n as int, m as int);
        }
        lemma_mul_nonnegative(n as int, m as int);
        lemma_div_pos_is_pos((n * m) as int, total as int);
        lemma_mul_nonnegative((n * m) / (total as int), group as int);
    }
    let mut steps_per_group = (n * m) / total;
    let steps_until_now = steps_per_group * group;
    let mut line = steps_until_now % n;
    let mut column = steps_until_now / n;
    if group + 1 == total {
        steps_per_group = n * m - steps_until_now;
    }
    let ghost start = span_start(group as int, total as int, n as int, m as int);
    let ghost end = span_end(group as int, total as int, n as int, m as int);
    proof {
        lemma_fundamental_div_mod(steps_until_now as int, n as int);
        lemma_mul_is_commutative(n as int, column as int);
        assert(steps_until_now == start);
        assert(start + steps_per_group == end);
    }
    let mut step: usize = 0;
    while step < steps_per_group
        invariant
            a == rows(matrix1),
            b == rows(matrix2),
            matrix2@.len() > 0,
            n == matrix1@.len(),
            m == matrix2@[0]@.len(),
            n > 0,
            start == span_start(group as int, total as int, n as int, m as int),
            end == span_end(group as int, total as int, n as int, m as int),
            start + steps_per_group == end,
            step <= steps_per_group,
            line < n,
            column * n + line == start + step,
            same_shape(rows(result), start_matrix),
            forall|l: int, c: int|
                #[trigger] owns_column(group as int, total as int, n as int, m as int, l, c)
                    ==> cell_ok(a, b, start_matrix, l, c),
            forall|l: int, c: int|
                0 <= l < start_matrix.len() && 0 <= c < start_matrix[l].len() ==> #[trigger] rows(
                    result,
                )[l][c] == if 0 <= l < n && start <= c * n + l < start + step {
                    element(a, b, l, c)
                } else {
                    start_matrix[l][c]
                },
        decreases steps_per_group - step,
    {
        assert(owns_column(
            group as int,
            total as int,
            n as int,
            m as int,
            line as int,
            column as int,
        ));
        let value = compute_element(line, column, matrix1, matrix2);
        let ghost before = rows(result);
        assert(rows(result)[line as int].len() == result@[line as int]@.len());
        result[line][column] = value;
        proof {
            assert forall|l: int, c: int|
                0 <= l < start_matrix.len() && 0 <= c < start_matrix[l].len() implies #[trigger] rows(
                    result,
                )[l][c] == if 0 <= l < n && start <= c * n + l < start + step + 1 {
                    element(a, b, l, c)
                } else {
                    start_matrix[l][c]
                } by {
                if 0 <= l < n && c * n + l == column * n + line {
                    lemma_lin_unique(c, l, column as int, line as int, n as int);
                }
                if l != line || c != column {
                    assert(rows(result)[l][c] == before[l][c]);
                }
            }
            assert forall|i: int| 0 <= i < rows(result).len() implies #[trigger] rows(result)[i].len()
                == start_matrix[i].len() by {
                assert(rows(result)[i].len() == before[i].len());
            }
            lemma_lin_next(column as int, line as int, n as int);
        }
        assert(column < result@[line as int]@.len());
        assert(column < result@[line as int].len());
        line += 1;
        if line == n {
            column += 1;
            line = 0;
        }
        step += 1;
    }
    proof {
        assert(a.len() == n && b[0].len() == m);
        lemma_group_step_cells(Strategy::Columns, group as int, total as int, a, b, start_matrix, rows(result));
    }
}

/// One past the last entry number that work group `group` of `total`
/// takes under the interleaved strategy among `count` entries: the first
/// number at or past `count` of the form `group + j * total`.
pub open spec fn kth_stop(group: int, total: int, count: int) -> int {
    if count <= group {
        group
    } else {
        group + ((count - 1 - group) / total + 1) * total
    }
}

/// Two numbers with the same remainder less than `total` apart are equal.
proof fn lemma_same_residue(x: int, y: int, total: int)
    requires
        total > 0,
        y <= x < y + total,
        x % total == y % total,
    ensures
        x == y,
{
    lemma_fundamental_div_mod(x, total);
    lemma_fundamental_div_mod(y, total);
    lemma_mod_bound(x, total);
    lemma_mod_bound(y, total);
    let qx = x / total;
    let qy = y / total;
    if qx > qy {
        lemma_mul_inequality(qy + 1, qx, total);
        lemma_mul_is_distributive_add_other_way(total, qy, 1);
        lemma_mul_is_commutative(total, qx);
        lemma_mul_is_commutative(total, qy);
    } else if qx < qy {
        lemma_mul_inequality(qx + 1, qy, total);
        lemma_mul_is_distributive_add_other_way(total, qx, 1);
        lemma_mul_is_commutative(total, qx);
        lemma_mul_is_commutative(total, qy);
    }
}

/// A step of the interleaved walk: from an entry number below `count`, the
/// next one stays within `kth_stop`.
proof fn lemma_kth_step(group: int, total: int, count: int, k: int)
    requires
        0 <= group,
        0 < total,
        0 <= k,
        group + k * total < count,
    ensures
        group + (k + 1) * total <= kth_stop(group, total, count),
        group + (k + 1) * total == group + k * total + total,
        (k * total) % total == 0,
{
    let q = (count - 1 - group) / total;
    lemma_fundamental_div_mod(count - 1 - group, total);
    lemma_mod_bound(count - 1 - group, total);
    lemma_mul_is_commutative(total, q);
    if k > q {
        lemma_mul_inequality(q + 1, k, total);
        lemma_mul_is_distributive_add_other_way(total, q, 1);
    }
    lemma_mul_inequality(k + 1, q + 1, total);
    lemma_mul_is_distributive_add_other_way(total, k, 1);
    lemma_fundamental_div_mod_converse(k * total, total, k, 0);
}

/// Work group `group` of `total` computes every `total`-th entry of
/// `matrix1 * matrix2`, numbered row by row and starting with entry
/// `group`, and stores each in `result`; every other entry of `result` is
/// left as it is.
pub fn compute_consecutive_kth(
    group: usize,
    total: usize,
    matrix1: &Vec<Vec<i32>>,
    matrix2: &Vec<Vec<i32>>,
    result: &mut Vec<Vec<i32>>,
)
    requires
        total > 0 || group >= matrix1@.len() * matrix2@[0]@.len(),
        matrix2@.len() > 0,
        matrix1@.len() * matrix2@[0]@.len() <= usize::MAX,
        kth_stop(
            group as int,
            total as int,
            (matrix1@.len() * matrix2@[0]@.len()) as int,
        ) <= usize::MAX,
        forall|l: int, c: int|
            #[trigger] owns_kth(
                group as int,
                total as int,
                matrix1@.len() as int,
                matrix2@[0]@.len() as int,
                l,
                c,
            ) ==> cell_ok(rows(matrix1), rows(matrix2), rows(old(result)), l, c),
    ensures
        same_shape(rows(final(result)), rows(old(result))),
        forall|l: int, c: int|
            0 <= l < rows(old(result)).len() && 0 <= c < rows(old(result))[l].len() ==> #[trigger] rows(
                final(result),
            )[l][c] == if owns_kth(
                group as int,
                total as int,
                matrix1@.len() as int,
                matrix2@[0]@.len() as int,
                l,
                c,
            ) {
                element(rows(matrix1), rows(matrix2), l, c)
            } else {
                rows(old(result))[l][c]
            },
        rows(final(result)) == group_step(
            Strategy::Kth,
            group as int,
            total as int,
            rows(matrix1),
            rows(matrix2),
            rows(old(result)),
        ),
{
    let ghost a = rows(matrix1);
    let ghost b = rows(matrix2);
    let ghost start_matrix = rows(result);
    let mut index = group;
    let n = matrix1.len();
    let m = matrix2[0].len();
    let ghost mut k: int = 0;
    while index < n * m
        invariant
            a == rows(matrix1),
            b == rows(matrix2),
            matrix2@.len() > 0,
            n == matrix1@.len(),
            m == matrix2@[0]@.len(),
            n * m <= usize::MAX,
            total > 0 || group >= n * m,
            kth_stop(group as int, total as int, (n * m) as int) <= usize::MAX,
            0 <= k,
            index == group + k * total,
            index < n * m || index <= kth_stop(group as int, total as int, (n * m) as int),
            same_shape(rows(result), start_matrix),
            forall|l: int, c: int|
                #[trigger] owns_kth(group as int, total as int, n as int, m as int, l, c) ==> cell_ok(
                    a,
                    b,
                    start_matrix,
                    l,
                    c,
                ),
            forall|l: int, c: int|
                0 <= l < start_matrix.len() && 0 <= c < start_matrix[l].len() ==> #[trigger] rows(
                    result,
                )[l][c] == if owns_kth(group as int, total as int, n as int, m as int, l, c) && l
                    * m + c < index {
                    element(a, b, l, c)
                } else {
                    start_matrix[l][c]
                },
        decreases kth_stop(group as int, total as int, (n * m) as int) - index,
    {
        proof {
            if m == 0 {
                lemma_mul_by_zero_is_zero(n as int);
            }
            if total == 0 {
                lemma_mul_by_zero_is_zero(k);
            }
        }
        let line = index / m;
        let column = index % m;
        proof {
            lemma_fundamental_div_mod(index as int, m as int);
            lemma_mul_is_commutative(m as int, line as int);
            lemma_kth_step(group as int, total as int, (n * m) as int, k);
        }
        assert(owns_kth(group as int, total as int, n as int, m as int, line as int, column as int));
        let value = compute_element(index / m, index % m, matrix1, matrix2);
        let ghost before = rows(result);
        assert(rows(result)[line as int].len() == result@[line as int]@.len());
        result[line][column] = value;
        proof {
            assert forall|l: int, c: int|
                0 <= l < start_matrix.len() && 0 <= c < start_matrix[l].len() implies #[trigger] rows(
                    result,
                )[l][c] == if owns_kth(group as int, total as int, n as int, m as int, l, c) && l
                    * m + c < index + total {
                    element(a, b, l, c)
                } else {
                    start_matrix[l][c]
                } by {
                if owns_kth(group as int, total as int, n as int, m as int, l, c) && index <= l * m
                    + c < index + total {
                    lemma_same_residue(l * m + c - group, index - group, total as int);
                    lemma_lin_unique(l, c, line as int, column as int, m as int);
                }
                if 0 <= c < m && l * m + c == line * m + column {
                    lemma_lin_unique(l, c, line as int, column as int, m as int);
                }
                if l != line || c != column {
                    assert(rows(result)[l][c] == before[l][c]);
                }
            }
            assert forall|i: int| 0 <= i < rows(result).len() implies #[trigger] rows(result)[i].len()
                == start_matrix[i].len() by {
                assert(rows(result)[i].len() == before[i].len());
            }
            k = k + 1;
        }
        index += total;
    }
    proof {
        assert(a.len() == n && b[0].len() == m);
        lemma_group_step_cells(Strategy::Kth, group as int, total as int, a, b, start_matrix, rows(result));
    }
}

/// Among `total` work groups, the one whose consecutive share holds entry
/// number `idx`: the quotient by the share size, the last group taking the
/// remainder.
pub open spec fn span_owner(idx: int, total: int, n: int, m: int) -> int {
    let s = (n * m) / total;
    if s == 0 || idx / s >= total - 1 {
        total - 1
    } else {
        idx / s
    }
}

/// Every entry number below `n * m` lies in the share of exactly one work
/// group: that of `span_owner`.
pub proof fn lemma_span_owner(idx: int, total: int, n: int, m: int)
    requires
        total > 0,
        0 <= n,
        0 <= m,
        0 <= idx < n * m,
    ensures
        0 <= span_owner(idx, total, n, m) < total,
        span_start(span_owner(idx, total, n, m), total, n, m) <= idx < span_end(
            span_owner(idx, total, n, m),
            total,
            n,
            m,
        ),
        forall|g: int|
            #![trigger span_start(g, total, n, m)]
            0 <= g < total && span_start(g, total, n, m) <= idx < span_end(g, total, n, m) ==> g
                == span_owner(idx, total, n, m),
{
    let s = (n * m) / total;
    let o = span_owner(idx, total, n, m);
    lemma_mul_nonnegative(n, m);
    lemma_div_pos_is_pos(n * m, total);
    lemma_fundamental_div_mod(n * m, total);
    lemma_mod_bound(n * m, total);
    lemma_span_bounds(total - 1, total, n, m);
    if s > 0 {
        lemma_div_pos_is_pos(idx, s);
        lemma_fundamental_div_mod(idx, s);
        lemma_mod_bound(idx, s);
        let q = idx / s;
        lemma_mul_is_commutative(s, q);
        if q >= total - 1 {
            lemma_mul_inequality(total - 1, q, s);
        } else {
            lemma_mul_is_distributive_add_other_way(s, q, 1);
        }
    }
    assert forall|g: int|
        #![trigger span_start(g, total, n, m)]
        0 <= g < total && span_start(g, total, n, m) <= idx < span_end(g, total, n, m) implies g
        == o by {
        lemma_span_bounds(g, total, n, m);
        lemma_span_bounds(o, total, n, m);
        if g < o {
            // the share of g ends where that of g + 1 starts, at or before o's
            lemma_mul_inequality(g + 1, o, s);
            lemma_mul_is_distributive_add_other_way(s, g, 1);
        } else if g > o {
            lemma_mul_inequality(o + 1, g, s);
            lemma_mul_is_distributive_add_other_way(s, o, 1);
        }
    }
}

/// Numbering row by row stays below `n * m` on an `n x m` matrix.
proof fn lemma_lin_bound(l: int, c: int, n: int, m: int)
    requires
        0 <= l < n,
        0 <= c < m,
    ensures
        0 <= l * m + c < n * m,
{
    lemma_mul_nonnegative(l, m);
    lemma_mul_inequality(l + 1, n, m);
    lemma_mul_is_distributive_add_other_way(m, l, 1);
}

/// Under the row strategy the work groups share out the entries of the
/// `n x m` product: every entry is computed by exactly one group, and no
/// group computes an entry outside the product.
pub proof fn lemma_row_strategy_partition(total: int, n: int, m: int, l: int, c: int)
    requires
        total > 0,
        0 <= n,
        0 <= m,
    ensures
        0 <= l < n && 0 <= c < m ==> owns_row(span_owner(l * m + c, total, n, m), total, n, m, l, c),
        forall|g: int|
            0 <= g < total && #[trigger] owns_row(g, total, n, m, l, c) ==> 0 <= l < n && 0 <= c < m
                && g == span_owner(l * m + c, total, n, m),
{
    if 0 <= l < n && 0 <= c < m {
        lemma_lin_bound(l, c, n, m);
        lemma_span_owner(l * m + c, total, n, m);
    }
    assert forall|g: int|
        0 <= g < total && #[trigger] owns_row(g, total, n, m, l, c) implies 0 <= l < n && 0 <= c
        < m && g == span_owner(l * m + c, total, n, m) by {
        lemma_span_bounds(g, total, n, m);
        if l >= n {
            lemma_mul_inequality(n, l, m);
        }
        lemma_lin_bound(l, c, n, m);
        lemma_span_owner(l * m + c, total, n, m);
    }
}

/// Under the column strategy the work groups share out the entries of the
/// `n x m` product: every entry is computed by exactly one group, and no
/// group computes an entry outside the product.
pub proof fn lemma_column_strategy_partition(total: int, n: int, m: int, l: int, c: int)
    requires
        total > 0,
        0 <= n,
        0 <= m,
    ensures
        0 <= l < n && 0 <= c < m ==> owns_column(
            span_owner(c * n + l, total, n, m),
            total,
            n,
            m,
            l,
            c,
        ),
        forall|g: int|
            0 <= g < total && #[trigger] owns_column(g, total, n, m, l, c) ==> 0 <= l < n && 0 <= c
                < m && g == span_owner(c * n + l, total, n, m),
{
    lemma_mul_is_commutative(n, m);
    if 0 <= l < n && 0 <= c < m {
        lemma_lin_bound(c, l, m, n);
        lemma_span_owner(c * n + l, total, n, m);
    }
    assert forall|g: int|
        0 <= g < total && #[trigger] owns_column(g, total, n, m, l, c) implies 0 <= l < n && 0 <= c
        < m && g == span_owner(c * n + l, total, n, m) by {
        lemma_span_bounds(g, total, n, m);
        if c >= m {
            lemma_mul_inequality(m, c, n);
        }
        lemma_lin_bound(c, l, m, n);
        lemma_span_owner(c * n + l, total, n, m);
    }
}

/// Under the interleaved strategy the work groups share out the entries of
/// the `n x m` product: every entry is computed by exactly one group, the
/// one given by its number modulo `total`, and no group computes an entry
/// outside the product.
pub proof fn lemma_kth_strategy_partition(total: int, n: int, m: int, l: int, c: int)
    requires
        total > 0,
        0 <= n,
        0 <= m,
    ensures
        0 <= l < n && 0 <= c < m ==> owns_kth((l * m + c) % total, total, n, m, l, c),
        forall|g: int|
            0 <= g < total && #[trigger] owns_kth(g, total, n, m, l, c) ==> 0 <= l < n && 0 <= c < m
                && g == (l * m + c) % total,
{
    if 0 <= l < n && 0 <= c < m {
        lemma_lin_bound(l, c, n, m);
        lemma_mod_bound(l * m + c, total);
        lemma_kth_residue(l * m + c, (l * m + c) % total, total);
    }
    assert forall|g: int|
        0 <= g < total && #[trigger] owns_kth(g, total, n, m, l, c) implies 0 <= l < n && 0 <= c < m
        && g == (l * m + c) % total by {
        if l >= n {
            lemma_mul_inequality(n, l, m);
        }
        lemma_mul_nonnegative(l, m);
        lemma_kth_residue(l * m + c, g, total);
    }
}

/// How entries of the product are shared out among work groups.
#[derive(Clone, Copy)]
pub enum Strategy {
    /// Consecutive entries, numbered row by row.
    Rows,
    /// Consecutive entries, numbered column by column.
    Columns,
    /// Every `total`-th entry, numbered row by row.
    Kth,
}

/// Whether work group `group` computes entry `(l, c)` under `strategy`.
pub open spec fn owns(strategy: Strategy, group: int, total: int, n: int, m: int, l: int, c: int) -> bool {
    match strategy {
        Strategy::Rows => owns_row(group, total, n, m, l, c),
        Strategy::Columns => owns_column(group, total, n, m, l, c),
        Strategy::Kth => owns_kth(group, total, n, m, l, c),
    }
}

/// The work group that computes entry `(l, c)` under `strategy`.
pub open spec fn owner(strategy: Strategy, total: int, n: int, m: int, l: int, c: int) -> int {
    match strategy {
        Strategy::Rows => span_owner(l * m + c, total, n, m),
        Strategy::Columns => span_owner(c * n + l, total, n, m),
        Strategy::Kth => (l * m + c) % total,
    }
}

/// Under every strategy, each entry of the `n x m` product is computed by
/// its owner and by no other work group, and no group computes an entry
/// outside the product.
pub proof fn lemma_strategy_partition(strategy: Strategy, total: int, n: int, m: int, l: int, c: int)
    requires
        total > 0,
        0 <= n,
        0 <= m,
    ensures
        0 <= l < n && 0 <= c < m ==> owns(strategy, owner(strategy, total, n, m, l, c), total, n, m, l, c),
        0 <= l < n && 0 <= c < m ==> 0 <= owner(strategy, total, n, m, l, c) < total,
        forall|g: int|
            0 <= g < total && #[trigger] owns(strategy, g, total, n, m, l, c) ==> 0 <= l < n && 0 <= c
                < m && g == owner(strategy, total, n, m, l, c),
{
    match strategy {
        Strategy::Rows => {
            lemma_row_strategy_partition(total, n, m, l, c);
            if 0 <= l < n && 0 <= c < m {
                lemma_lin_bound(l, c, n, m);
                lemma_span_owner(l * m + c, total, n, m);
            }
        },
        Strategy::Columns => {
            lemma_column_strategy_partition(total, n, m, l, c);
            if 0 <= l < n && 0 <= c < m {
                lemma_lin_bound(c, l, m, n);
                lemma_mul_is_commutative(n, m);
                lemma_span_owner(c * n + l, total, n, m);
            }
        },
        Strategy::Kth => {
            lemma_kth_strategy_partition(total, n, m, l, c);
            lemma_mod_bound(l * m + c, total);
        },
    }
}

/// The entries of the `n x m` product `a b`.
pub open spec fn product_matrix(a: Seq<Seq<int>>, b: Seq<Seq<int>>, n: nat, m: nat) -> Seq<Seq<int>> {
    Seq::new(n, |l: int| Seq::new(m, |c: int| element(a, b, l, c)))
}

/// `r` after work group `group` of `total` has run under `strategy` on the
/// product `a b`: the entries the group owns hold their value in the
/// product, every other entry is as it was.
pub open spec fn group_step(
    strategy: Strategy,
    group: int,
    total: int,
    a: Seq<Seq<int>>,
    b: Seq<Seq<int>>,
    r: Seq<Seq<int>>,
) -> Seq<Seq<int>> {
    Seq::new(
        r.len(),
        |l: int|
            Seq::new(
                r[l].len(),
                |c: int|
                    if owns(strategy, group, total, a.len() as int, b[0].len() as int, l, c) {
                        element(a, b, l, c)
                    } else {
                        r[l][c]
                    },
            ),
    )
}

/// `r` after the work groups listed in `order` have run, one after the
/// other, in that order.
pub open spec fn run_groups(
    strategy: Strategy,
    order: Seq<int>,
    total: int,
    a: Seq<Seq<int>>,
    b: Seq<Seq<int>>,
    r: Seq<Seq<int>>,
) -> Seq<Seq<int>>
    decreases order.len(),
{
    if order.len() == 0 {
        r
    } else {
        group_step(strategy, order.last(), total, a, b, run_groups(strategy, order.drop_last(), total, a, b, r))
    }
}

/// A result that a work group's run leaves as its contract states is
/// `group_step` of the result it started from.
pub proof fn lemma_group_step_cells(
    strategy: Strategy,
    group: int,
    total: int,
    a: Seq<Seq<int>>,
    b: Seq<Seq<int>>,
    before: Seq<Seq<int>>,
    after: Seq<Seq<int>>,
)
    requires
        same_shape(after, before),
        forall|l: int, c: int|
            0 <= l < before.len() && 0 <= c < before[l].len() ==> #[trigger] after[l][c] == if owns(
                strategy,
                group,
                total,
                a.len() as int,
                b[0].len() as int,
                l,
                c,
            ) {
                element(a, b, l, c)
            } else {
                before[l][c]
            },
    ensures
        after == group_step(strategy, group, total, a, b, before),
{
    let s = group_step(strategy, group, total, a, b, before);
    assert forall|l: int| 0 <= l < after.len() implies #[trigger] after[l] == s[l] by {
        assert(after[l] =~= s[l]);
    }
    assert(after =~= s);
}

/// After the groups of `order` have run in turn, an entry of `r` holds its
/// value in the product if one of those groups owns it, and is as it was
/// otherwise; the shape of `r` is kept.
pub proof fn lemma_run_groups_cells(
    strategy: Strategy,
    order: Seq<int>,
    total: int,
    a: Seq<Seq<int>>,
    b: Seq<Seq<int>>,
    r: Seq<Seq<int>>,
)
    ensures
        same_shape(run_groups(strategy, order, total, a, b, r), r),
        forall|l: int, c: int|
            0 <= l < r.len() && 0 <= c < r[l].len() ==> #[trigger] run_groups(
                strategy,
                order,
                total,
                a,
                b,
                r,
            )[l][c] == if exists|i: int|
                0 <= i < order.len() && #[trigger] owns(
                    strategy,
                    order[i],
                    total,
                    a.len() as int,
                    b[0].len() as int,
                    l,
                    c,
                ) {
                element(a, b, l, c)
            } else {
                r[l][c]
            },
    decreases order.len(),
{
    if order.len() > 0 {
        let prev = order.drop_last();
        lemma_run_groups_cells(strategy, prev, total, a, b, r);
        let before = run_groups(strategy, prev, total, a, b, r);
        let after = run_groups(strategy, order, total, a, b, r);
        let n = a.len() as int;
        let m = b[0].len() as int;
        assert forall|l: int, c: int| 0 <= l < r.len() && 0 <= c < r[l].len() implies #[trigger] after[l][c]
            == if exists|i: int|
            0 <= i < order.len() && #[trigger] owns(strategy, order[i], total, n, m, l, c) {
            element(a, b, l, c)
        } else {
            r[l][c]
        } by {
            assert(before[l].len() == r[l].len());
            if owns(strategy, order.last(), total, n, m, l, c) {
                assert(owns(strategy, order[order.len() - 1], total, n, m, l, c));
            } else if exists|i: int| 0 <= i < prev.len() && #[trigger] owns(strategy, prev[i], total, n, m, l, c) {
                let i = choose|i: int| 0 <= i < prev.len() && #[trigger] owns(strategy, prev[i], total, n, m, l, c);
                assert(owns(strategy, order[i], total, n, m, l, c));
            } else {
                assert forall|i: int| 0 <= i < order.len() implies !#[trigger] owns(
                    strategy,
                    order[i],
                    total,
                    n,
                    m,
                    l,
                    c,
                ) by {
                    if i < prev.len() {
                        assert(prev[i] == order[i]);
                    }
                }
            }
        }
    }
}

/// Whatever the order in which the work groups `0 .. total` of a strategy
/// run on a result of the product's shape, and whether some run more than
/// once, the result afterwards is the product `a b`: the groups write
/// disjoint entries, each the value it has in the product, and together
/// they cover every entry.
pub proof fn lemma_groups_any_order(
    strategy: Strategy,
    order: Seq<int>,
    total: int,
    a: Seq<Seq<int>>,
    b: Seq<Seq<int>>,
    r: Seq<Seq<int>>,
)
    requires
        total > 0,
        b.len() > 0,
        r.len() == a.len(),
        forall|l: int| 0 <= l < r.len() ==> #[trigger] r[l].len() == b[0].len(),
        forall|g: int| 0 <= g < total ==> #[trigger] order.contains(g),
    ensures
        run_groups(strategy, order, total, a, b, r) == product_matrix(a, b, a.len(), b[0].len()),
{
    let n = a.len() as int;
    let m = b[0].len() as int;
    let run = run_groups(strategy, order, total, a, b, r);
    let p = product_matrix(a, b, a.len(), b[0].len());
    lemma_run_groups_cells(strategy, order, total, a, b, r);
    assert forall|l: int| 0 <= l < run.len() implies #[trigger] run[l] == p[l] by {
        assert forall|c: int| 0 <= c < run[l].len() implies run[l][c] == p[l][c] by {
            lemma_strategy_partition(strategy, total, n, m, l, c);
            let g = owner(strategy, total, n, m, l, c);
            assert(order.contains(g));
            let i = choose|i: int| 0 <= i < order.len() && order[i] == g;
            assert(owns(strategy, order[i], total, n, m, l, c));
            assert(run[l][c] == element(a, b, l, c));
        }
        assert(run[l] =~= p[l]);
    }
    assert(run =~= p);
}

/// Two strategies, each with any number of work groups run in any order,
/// fill a result of the product's shape with the same matrix.
pub proof fn lemma_strategies_agree(
    first: Strategy,
    first_order: Seq<int>,
    first_total: int,
    second: Strategy,
    second_order: Seq<int>,
    second_total: int,
    a: Seq<Seq<int>>,
    b: Seq<Seq<int>>,
    r: Seq<Seq<int>>,
)
    requires
        first_total > 0,
        second_total > 0,
        b.len() > 0,
        r.len() == a.len(),
        forall|l: int| 0 <= l < r.len() ==> #[trigger] r[l].len() == b[0].len(),
        forall|g: int| 0 <= g < first_total ==> #[trigger] first_order.contains(g),
        forall|g: int| 0 <= g < second_total ==> #[trigger] second_order.contains(g),
    ensures
        run_groups(first, first_order, first_total, a, b, r) == run_groups(
            second,
            second_order,
            second_total,
            a,
            b,
            r,
        ),
{
    lemma_groups_any_order(first, first_order, first_total, a, b, r);
    lemma_groups_any_order(second, second_order, second_total, a, b, r);
}

/// The product `matrix1 * matrix2` computed by the work groups
/// `0 .. total` of `strategy` in turn, each filling its entries of a zero
/// matrix: together they fill every entry.
pub fn compute_by_groups(
    total: usize,
    matrix1: &Vec<Vec<i32>>,
    matrix2: &Vec<Vec<i32>>,
    strategy: Strategy,
) -> (r: Vec<Vec<i32>>)
    requires
        total > 0,
        matrix2@.len() > 0,
        matrix1@.len() * matrix2@[0]@.len() <= usize::MAX,
        strategy is Rows ==> matrix2@[0]@.len() > 0,
        strategy is Columns ==> matrix1@.len() > 0,
        strategy is Kth ==> forall|g: int|
            0 <= g < total ==> #[trigger] kth_stop(
                g,
                total as int,
                (matrix1@.len() * matrix2@[0]@.len()) as int,
            ) <= usize::MAX,
        forall|l: int, c: int|
            0 <= l < matrix1@.len() && 0 <= c < matrix2@[0]@.len() ==> #[trigger] element_safe(
                rows(matrix1),
                rows(matrix2),
                l,
                c,
            ),
    ensures
        rows(&r) == product_matrix(
            rows(matrix1),
            rows(matrix2),
            matrix1@.len(),
            matrix2@[0]@.len(),
        ),
{
    let ghost a = rows(matrix1);
    let ghost b = rows(matrix2);
    let n = matrix1.len();
    let m = matrix2[0].len();
    let mut result = build_matrix(n, m);
    let mut group: usize = 0;
    while group < total
        invariant
            a == rows(matrix1),
            b == rows(matrix2),
            n == matrix1@.len(),
            m == matrix2@[0]@.len(),
            matrix2@.len() > 0,
            n * m <= usize::MAX,
            total > 0,
            group <= total,
            strategy is Rows ==> m > 0,
            strategy is Columns ==> n > 0,
            strategy is Kth ==> forall|g: int|
                0 <= g < total ==> #[trigger] kth_stop(g, total as int, (n * m) as int) <= usize::MAX,
            forall|l: int, c: int|
                0 <= l < n && 0 <= c < m ==> #[trigger] element_safe(a, b, l, c),
            rows(&result).len() == n,
            forall|l: int| 0 <= l < n ==> #[trigger] rows(&result)[l].len() == m,
            forall|l: int, c: int|
                0 <= l < n && 0 <= c < m ==> #[trigger] rows(&result)[l][c] == if owner(
                    strategy,
                    total as int,
                    n as int,
                    m as int,
                    l,
                    c,
                ) < group {
                    element(a, b, l, c)
                } else {
                    0
                },
        decreases total - group,
    {
        let ghost before = rows(&result);
        proof {
            lemma_span_bounds(group as int, total as int, n as int, m as int);
            assert forall|l: int, c: int|
                #[trigger] owns(strategy, group as int, total as int, n as int, m as int, l, c)
                    implies cell_ok(a, b, before, l, c) by {
                lemma_strategy_partition(strategy, total as int, n as int, m as int, l, c);
            }
        }
        match strategy {
            Strategy::Rows => {
                proof {
                    assert forall|l: int, c: int|
                        #[trigger] owns_row(group as int, total as int, n as int, m as int, l, c)
                            implies cell_ok(a, b, before, l, c) by {
                        assert(owns(strategy, group as int, total as int, n as int, m as int, l, c));
                    }
                }
                compute_consecutive_row(group, total, matrix1, matrix2, &mut result);
            },
            Strategy::Columns => {
                proof {
                    assert forall|l: int, c: int|
                        #[trigger] owns_column(group as int, total as int, n as int, m as int, l, c)
                            implies cell_ok(a, b, before, l, c) by {
                        assert(owns(strategy, group as int, total as int, n as int, m as int, l, c));
                    }
                }
                compute_consecutive_column(group, total, matrix1, matrix2, &mut result);
            },
            Strategy::Kth => {
                proof {
                    assert forall|l: int, c: int|
                        #[trigger] owns_kth(group as int, total as int, n as int, m as int, l, c)
                            implies cell_ok(a, b, before, l, c) by {
                        assert(owns(strategy, group as int, total as int, n as int, m as int, l, c));
                    }
                    assert(kth_stop(group as int, total as int, (n * m) as int) <= usize::MAX);
                }
                compute_consecutive_kth(group, total, matrix1, matrix2, &mut result);
            },
        }
        proof {
            assert forall|l: int, c: int|
                0 <= l < n && 0 <= c < m implies #[trigger] rows(&result)[l][c] == if owner(
                    strategy,
                    total as int,
                    n as int,
                    m as int,
                    l,
                    c,
                ) < group + 1 {
                    element(a, b, l, c)
                } else {
                    0
                } by {
                lemma_strategy_partition(strategy, total as int, n as int, m as int, l, c);
                assert(before[l].len() == m);
                if owner(strategy, total as int, n as int, m as int, l, c) == group {
                    assert(owns(strategy, group as int, total as int, n as int, m as int, l, c));
                } else {
                    assert(!owns(strategy, group as int, total as int, n as int, m as int, l, c));
                }
            }
            assert forall|l: int| 0 <= l < n implies #[trigger] rows(&result)[l].len() == m by {
                assert(before[l].len() == m);
            }
        }
        group += 1;
    }
    proof {
        assert forall|l: int, c: int| 0 <= l < n && 0 <= c < m implies #[trigger] rows(&result)[l][c]
            == element(a, b, l, c) by {
            lemma_strategy_partition(strategy, total as int, n as int, m as int, l, c);
        }
        assert forall|l: int| 0 <= l < n implies #[trigger] rows(&result)[l] =~= product_matrix(
            a,
            b,
            n as nat,
            m as nat,
        )[l] by {}
        assert(rows(&result) =~= product_matrix(a, b, n as nat, m as nat));
    }
    result
}

/// The work group that computes entry `(l, c)` of the `n x m` product
/// under `strategy` among `total` groups.
pub fn owner_of(strategy: Strategy, total: usize, n: usize, m: usize, l: usize, c: usize) -> (r:
    usize)
    requires
        total > 0,
        l < n,
        c < m,
        n * m <= usize::MAX,
    ensures
        r == owner(strategy, total as int, n as int, m as int, l as int, c as int),
        r < total,
{
    proof {
        lemma_strategy_partition(strategy, total as int, n as int, m as int, l as int, c as int);
        lemma_lin_bound(l as int, c as int, n as int, m as int);
        lemma_lin_bound(c as int, l as int, m as int, n as int);
        lemma_mul_is_commutative(n as int, m as int);
    }
    match strategy {
        Strategy::Rows => {
            let idx = l * m + c;
            let share = (n * m) / total;
            if share == 0 || idx / share >= total - 1 {
                total - 1
            } else {
                idx / share
            }
        },
        Strategy::Columns => {
            let idx = c * n + l;
            let share = (n * m) / total;
            if share == 0 || idx / share >= total - 1 {
                total - 1
            } else {
                idx / share
            }
        },
        Strategy::Kth => (l * m + c) % total,
    }
}

} // verus!
