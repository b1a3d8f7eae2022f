use vstd::prelude::*;

verus! {

/// The number of `true` entries.
pub open spec fn count_true_spec(row: Seq<bool>) -> int
    decreases row.len(),
{
    if row.len() == 0 {
        0
    } else {
        count_true_spec(row.drop_last()) + (if row.last() { 1int } else { 0int })
    }
}

/// The sum of `low + i` over the positions `i` of the `true` entries.
pub open spec fn weighted_sum(row: Seq<bool>, low: int) -> int
    decreases row.len(),
{
    if row.len() == 0 {
        0
    } else {
        weighted_sum(row.drop_last(), low) + (if row.last() { low + row.len() - 1 } else { 0int })
    }
}

proof fn lemma_set_true(row: Seq<bool>, k: int, low: int)
    requires
        0 <= k < row.len(),
        !row[k],
    ensures
        count_true_spec(row.update(k, true)) == count_true_spec(row) + 1,
        weighted_sum(row.update(k, true), low) == weighted_sum(row, low) + low + k,
    decreases row.len(),
{
    let u = row.update(k, true);
    if k == row.len() - 1 {
        assert(u.drop_last() =~= row.drop_last());
    } else {
        assert(u.drop_last() =~= row.drop_last().update(k, true));
        lemma_set_true(row.drop_last(), k, low);
    }
}

/// A row with `n` entries set whose positions, offset by `low`, sum to `total`.
pub open spec fn is_partition_row(row: Seq<bool>, len: int, n: int, low: int, total: int) -> bool {
    row.len() == len && count_true_spec(row) == n && weighted_sum(row, low) == total
}

fn copy_row(row: &Vec<bool>) -> (r: Vec<bool>)
    ensures
        r@ == row@,
{
    let mut r: Vec<bool> = Vec::new();
    let mut i: usize = 0;
    while i < row.len()
        invariant
            i <= row@.len(),
            r@ == row@.subrange(0, i as int),
        decreases row@.len() - i,
    {
        r.push(row[i]);
        i += 1;
        assert(r@ =~= row@.subrange(0, i as int));
    }
    assert(r@ =~= row@);
    r
}

/// The number of `true` entries at positions `a..b`.
pub open spec fn range_count(row: Seq<bool>, a: int, b: int) -> int
    decreases b - a,
{
    if b <= a {
        0
    } else {
        range_count(row, a, b - 1) + (if row[b - 1] { 1int } else { 0int })
    }
}

/// The sum of `low + j` over the positions `j` in `a..b` of `true` entries.
pub open spec fn range_weight(row: Seq<bool>, low: int, a: int, b: int) -> int
    decreases b - a,
{
    if b <= a {
        0
    } else {
        range_weight(row, low, a, b - 1) + (if row[b - 1] { low + b - 1 } else { 0int })
    }
}

/// `row` and `other` agree on the positions below `c`.
pub open spec fn agree_below(row: Seq<bool>, other: Seq<bool>, c: int) -> bool {
    forall|j: int| 0 <= j < c ==> #[trigger] row[j] == other[j]
}

proof fn lemma_whole_range(row: Seq<bool>, low: int)
    ensures
        count_true_spec(row) == range_count(row, 0, row.len() as int),
        weighted_sum(row, low) == range_weight(row, low, 0, row.len() as int),
    decreases row.len(),
{
    if row.len() > 0 {
        lemma_whole_range(row.drop_last(), low);
        lemma_range_prefix(row.drop_last(), row, low, 0, row.len() - 1);
    }
}

/// Ranges only read the entries inside them.
proof fn lemma_range_prefix(a: Seq<bool>, b: Seq<bool>, low: int, x: int, y: int)
    requires
        0 <= x,
        y <= a.len(),
        y <= b.len(),
        forall|j: int| x <= j < y ==> #[trigger] a[j] == b[j],
    ensures
        range_count(a, x, y) == range_count(b, x, y),
        range_weight(a, low, x, y) == range_weight(b, low, x, y),
    decreases y - x,
{
    if x < y {
        lemma_range_prefix(a, b, low, x, y - 1);
    }
}

proof fn lemma_range_split(row: Seq<bool>, low: int, a: int, m: int, b: int)
    requires
        a <= m <= b,
    ensures
        range_count(row, a, b) == range_count(row, a, m) + range_count(row, m, b),
        range_weight(row, low, a, b) == range_weight(row, low, a, m) + range_weight(row, low, m, b),
    decreases b - m,
{
    if m < b {
        lemma_range_split(row, low, a, m, b - 1);
    }
}

proof fn lemma_range_empty(row: Seq<bool>, low: int, a: int, b: int)
    requires
        a <= b,
        range_count(row, a, b) == 0,
    ensures
        forall|j: int| a <= j < b ==> !#[trigger] row[j],
        range_weight(row, low, a, b) == 0,
    decreases b - a,
{
    if a < b {
        assert(range_count(row, a, b - 1) >= 0) by {
            lemma_range_count_nonneg(row, a, b - 1);
        }
        lemma_range_empty(row, low, a, b - 1);
    }
}

proof fn lemma_range_count_nonneg(row: Seq<bool>, a: int, b: int)
    ensures
        range_count(row, a, b) >= 0,
    decreases b - a,
{
    if a < b {
        lemma_range_count_nonneg(row, a, b - 1);
    }
}

proof fn lemma_range_false(row: Seq<bool>, low: int, a: int, b: int)
    requires
        forall|j: int| a <= j < b ==> !#[trigger] row[j],
    ensures
        range_count(row, a, b) == 0,
        range_weight(row, low, a, b) == 0,
    decreases b - a,
{
    if a < b {
        lemma_range_false(row, low, a, b - 1);
    }
}

/// `m` entries set among positions `a..b` weigh at least as much as the
/// first `m` positions and at most as much as the last `m`.
proof fn lemma_range_weight_bounds(row: Seq<bool>, low: int, a: int, b: int)
    requires
        a <= b,
    ensures
        range_count(row, a, b) <= b - a,
        ({
            let m = range_count(row, a, b);
            m * (low + a) + m * (m - 1) / 2 <= range_weight(row, low, a, b) <= m * (low + b - 1) - m * (m - 1) / 2
        }),
    decreases b - a,
{
    lemma_range_count_nonneg(row, a, b);
    if a < b {
        lemma_range_weight_bounds(row, low, a, b - 1);
        lemma_range_count_nonneg(row, a, b - 1);
        let m0 = range_count(row, a, b - 1);
        let w0 = range_weight(row, low, a, b - 1);
        if row[b - 1] {
            let m = m0 + 1;
            assert(m0 * (low + a) + m0 * (m0 - 1) / 2 + (low + b - 1) >= m * (low + a) + m * (m - 1) / 2) by (nonlinear_arith)
                requires
                    m == m0 + 1,
                    m0 <= b - 1 - a,
                    m0 >= 0,
            {
                assert(m * (m - 1) / 2 == m0 * (m0 - 1) / 2 + m0) by {
                    assert(m * (m - 1) == m0 * (m0 - 1) + 2 * m0) by (nonlinear_arith)
                        requires m == m0 + 1;
                }
            }
            assert(m0 * (low + b - 2) - m0 * (m0 - 1) / 2 + (low + b - 1) <= m * (low + b - 1) - m * (m - 1) / 2) by (nonlinear_arith)
                requires
                    m == m0 + 1,
                    m0 >= 0,
            {
                assert(m * (m - 1) / 2 == m0 * (m0 - 1) / 2 + m0) by {
                    assert(m * (m - 1) == m0 * (m0 - 1) + 2 * m0) by (nonlinear_arith)
                        requires m == m0 + 1;
                }
            }
        } else {
            assert(m0 * (low + b - 2) - m0 * (m0 - 1) / 2 <= m0 * (low + b - 1) - m0 * (m0 - 1) / 2) by (nonlinear_arith)
                requires
                    m0 >= 0,
            ;
        }
    }
}

proof fn lemma_range_weight_nonneg(row: Seq<bool>, low: int, a: int, b: int)
    requires
        low + a >= 0,
    ensures
        range_weight(row, low, a, b) >= 0,
    decreases b - a,
{
    if a < b {
        lemma_range_weight_nonneg(row, low, a, b - 1);
    }
}

/// Some entry of `a..b` is set: the first such entry.
proof fn lemma_first_true(row: Seq<bool>, a: int, b: int) -> (t: int)
    requires
        a <= b,
        range_count(row, a, b) > 0,
    ensures
        a <= t < b,
        row[t],
        forall|j: int| a <= j < t ==> !#[trigger] row[j],
    decreases b - a,
{
    if range_count(row, a, b - 1) > 0 {
        lemma_first_true(row, a, b - 1)
    } else {
        lemma_range_count_nonneg(row, a, b - 1);
        lemma_range_empty(row, 0, a, b - 1);
        b - 1
    }
}

/// `a` comes before `b`: at the first position where they differ, `a` has
/// the entry set. For rows with the same number of entries set, this is the
/// lexicographic order of their sorted positions.
pub open spec fn row_before(a: Seq<bool>, b: Seq<bool>) -> bool {
    exists|j: int| 0 <= j < a.len() && j < b.len() && agree_below(a, b, j) && #[trigger] a[j] && !b[j]
}

/// The first entry of `row` set from position `c` on is at `t`.
pub open spec fn first_set_from(row: Seq<bool>, c: int, t: int) -> bool {
    &&& c <= t < row.len()
    &&& row[t]
    &&& forall|j: int| c <= j < t ==> !#[trigger] row[j]
}

/// One of the rows `rs` is `row`.
pub open spec fn rows_contain(rs: Seq<Vec<bool>>, row: Seq<bool>) -> bool {
    exists|k: int| 0 <= k < rs.len() && (#[trigger] rs[k])@ == row
}

/// A row that agrees with `cur` below `c`, where `cur` has no entry set
/// from `c` on, has the difference of counts and weights from `c` on.
proof fn lemma_row_rest(row: Seq<bool>, cur: Seq<bool>, low: int, c: int)
    requires
        row.len() == cur.len(),
        0 <= c <= cur.len(),
        agree_below(row, cur, c),
        forall|j: int| c <= j < cur.len() ==> !#[trigger] cur[j],
    ensures
        range_count(row, c, row.len() as int) == count_true_spec(row) - count_true_spec(cur),
        range_weight(row, low, c, row.len() as int) == weighted_sum(row, low) - weighted_sum(cur, low),
{
    let l = row.len() as int;
    lemma_whole_range(row, low);
    lemma_whole_range(cur, low);
    lemma_range_split(row, low, 0, c, l);
    lemma_range_split(cur, low, 0, c, l);
    lemma_range_prefix(row, cur, low, 0, c);
    lemma_range_false(cur, low, c, l);
}

fn partition_impl(
    sum: i64,
    i: i64,
    n: i64,
    value_low: i64,
    cur_value_low: i64,
    value_high: i64,
    res: &mut Vec<Vec<bool>>,
    current: &mut Vec<bool>,
    Ghost(total): Ghost<int>,
)
    requires
        0 <= i <= n <= 0x8000,
        -0x8000 <= value_low <= cur_value_low,
        value_low - 1 <= value_high <= 0x8000,
        cur_value_low <= value_high + 1,
        -0x8000_0000 <= sum <= 0x8000_0000,
        old(current)@.len() == value_high - value_low + 1,
        count_true_spec(old(current)@) == i,
        weighted_sum(old(current)@, value_low as int) + sum == total,
        forall|j: int| cur_value_low - value_low <= j < old(current)@.len() ==> !old(current)@[j],
        forall|r: int| 0 <= r < old(res)@.len() ==> is_partition_row((#[trigger] old(res)@[r])@, value_high - value_low + 1, n as int, value_low as int, total),
    ensures
        final(current)@ == old(current)@,
        forall|r: int| 0 <= r < final(res)@.len() ==> is_partition_row((#[trigger] final(res)@[r])@, value_high - value_low + 1, n as int, value_low as int, total),
        old(res)@.is_prefix_of(final(res)@),
        value_low >= 0 ==> forall|row: Seq<bool>|
            #[trigger] is_partition_row(row, value_high - value_low + 1, n as int, value_low as int, total)
                && agree_below(row, old(current)@, cur_value_low - value_low) ==> rows_contain(final(res)@, row),
        forall|k: int| old(res)@.len() <= k < final(res)@.len() ==> agree_below((#[trigger] final(res)@[k])@, old(current)@, cur_value_low - value_low),
        forall|a: int, b: int| old(res)@.len() <= a < b < final(res)@.len() ==> row_before(final(res)@[a]@, final(res)@[b]@),
    decreases n - i,
{
    let ghost c = cur_value_low - value_low;
    let ghost cur0 = current@;
    let ghost len = value_high - value_low + 1;
    if i == n {
        let ghost prev = res@;
        if sum == 0 {
            let row = copy_row(current);
            res.push(row);
            proof {
                assert forall|r: int| 0 <= r < res@.len() implies is_partition_row((#[trigger] res@[r])@, value_high - value_low + 1, n as int, value_low as int, total) by {
                    if r < prev.len() {
                        assert(res@[r] == prev[r]);
                    }
                }
            }
        }
        proof {
            assert forall|row: Seq<bool>|
                #[trigger] is_partition_row(row, len, n as int, value_low as int, total) && agree_below(row, cur0, c)
                    implies rows_contain(res@, row) by {
                lemma_row_rest(row, cur0, value_low as int, c);
                lemma_range_empty(row, value_low as int, c, len);
                assert(row =~= cur0);
                assert(res@[prev.len() as int]@ == cur0);
            }
        }
        return;
    }
    let rem = n - i;
    assert(-0x8000 * 0x8000 <= cur_value_low * rem <= 0x8001 * 0x8000) by (nonlinear_arith)
        requires
            -0x8000 <= cur_value_low <= 0x8001,
            0 < rem <= 0x8000,
    ;
    assert(-0x8001 * 0x8000 <= value_high * rem <= 0x8000 * 0x8000) by (nonlinear_arith)
        requires
            -0x8001 <= value_high <= 0x8000,
            0 < rem <= 0x8000,
    ;
    assert(0 <= rem * (rem - 1) <= 0x8000 * 0x8000) by (nonlinear_arith)
        requires
            0 < rem <= 0x8000,
    ;
    let min_possible = cur_value_low * rem + (rem * (rem - 1)) / 2;
    let max_possible = value_high * rem - (rem * (rem - 1)) / 2;
    proof {
        assert forall|row: Seq<bool>|
            #[trigger] is_partition_row(row, len, n as int, value_low as int, total) && agree_below(row, cur0, c)
                implies ({
                    &&& range_count(row, c, len) == rem
                    &&& range_weight(row, value_low as int, c, len) == sum
                    &&& min_possible <= sum <= max_possible
                    &&& rem <= value_high - cur_value_low + 1
                }) by {
            lemma_row_rest(row, cur0, value_low as int, c);
            lemma_range_weight_bounds(row, value_low as int, c, len);
            let m = range_count(row, c, len);
            assert(m == rem);
            assert(m * (value_low + c) == cur_value_low * rem) by (nonlinear_arith)
                requires m == rem, c == cur_value_low - value_low;
            assert(m * (value_low + len - 1) == value_high * rem) by (nonlinear_arith)
                requires m == rem, len == value_high - value_low + 1;
            assert(m * (m - 1) / 2 == (rem * (rem - 1)) / 2);
        }
    }
    if !(min_possible <= sum && sum <= max_possible) {
        return;
    }
    if value_high - cur_value_low + 1 < rem {
        return;
    }
    let mut v = cur_value_low;
    while v <= value_high
        invariant
            0 <= i < n <= 0x8000,
            -0x8000 <= value_low <= cur_value_low <= v,
            value_high <= 0x8000,
            v <= value_high + 1,
            -0x4000_0000 - 0x4000_0000 <= sum <= 0x4000_0000 + 0x4000_0000,
            min_possible <= sum <= max_possible,
            -0x8000 * 0x8000 <= cur_value_low * rem,
            value_high * rem <= 0x8000 * 0x8000,
            0 <= rem * (rem - 1),
            min_possible == cur_value_low * rem + (rem * (rem - 1)) / 2,
            max_possible == value_high * rem - (rem * (rem - 1)) / 2,
            current@ == old(current)@,
            old(current)@.len() == value_high - value_low + 1,
            count_true_spec(old(current)@) == i,
            weighted_sum(old(current)@, value_low as int) + sum == total,
            forall|j: int| cur_value_low - value_low <= j < old(current)@.len() ==> !old(current)@[j],
            forall|r: int| 0 <= r < res@.len() ==> is_partition_row((#[trigger] res@[r])@, value_high - value_low + 1, n as int, value_low as int, total),
            old(res)@.is_prefix_of(res@),
            cur0 == old(current)@,
            c == cur_value_low - value_low,
            len == value_high - value_low + 1,
            rem == n - i,
            forall|row: Seq<bool>|
                #[trigger] is_partition_row(row, len, n as int, value_low as int, total) && agree_below(row, cur0, c)
                    ==> range_count(row, c, len) == rem && range_weight(row, value_low as int, c, len) == sum,
            value_low >= 0 ==> forall|row: Seq<bool>, t: int|
                #[trigger] is_partition_row(row, len, n as int, value_low as int, total) && agree_below(row, cur0, c)
                    && c <= t < v - value_low && #[trigger] row[t] && (forall|j: int| c <= j < t ==> !#[trigger] row[j])
                    ==> rows_contain(res@, row),
            forall|k: int| old(res)@.len() <= k < res@.len() ==> agree_below((#[trigger] res@[k])@, cur0, c)
                && exists|t: int| t < v - value_low && #[trigger] first_set_from(res@[k]@, c, t),
            forall|a: int, b: int| old(res)@.len() <= a < b < res@.len() ==> row_before(res@[a]@, res@[b]@),
        decreases value_high + 1 - v,
    {
        let ghost res0 = res@;
        let ghost t0 = v - value_low;
        if sum - v >= 0 {
            let k = (v - value_low) as usize;
            proof {
                lemma_set_true(current@, k as int, value_low as int);
            }
            current.set(k, true);
            let ghost cur1 = current@;
            partition_impl(sum - v, i + 1, n, value_low, v + 1, value_high, res, current, Ghost(total));
            current.set(k, false);
            assert(current@ =~= old(current)@);
            proof {
                assert forall|q: int| old(res)@.len() <= q < res@.len() implies agree_below((#[trigger] res@[q])@, cur0, c)
                    && exists|t: int| t < v + 1 - value_low && #[trigger] first_set_from(res@[q]@, c, t) by {
                    if q < res0.len() {
                        assert(res@[q] == res0[q]);
                        assert(agree_below(res0[q]@, cur0, c) && exists|t: int| t < v - value_low && #[trigger] first_set_from(res0[q]@, c, t));
                        let t = choose|t: int| t < v - value_low && #[trigger] first_set_from(res0[q]@, c, t);
                        assert(first_set_from(res@[q]@, c, t));
                    } else {
                        let row = res@[q]@;
                        assert(agree_below(row, cur1, t0 + 1));
                        assert forall|j: int| 0 <= j < c implies #[trigger] row[j] == cur0[j] by {
                            assert(row[j] == cur1[j]);
                        }
                        assert(row[t0] == cur1[t0]);
                        assert forall|j: int| c <= j < t0 implies !#[trigger] row[j] by {
                            assert(row[j] == cur1[j]);
                        }
                        assert(first_set_from(row, c, t0));
                    }
                }
                assert forall|a: int, b: int| old(res)@.len() <= a < b < res@.len() implies row_before(res@[a]@, res@[b]@) by {
                    if b < res0.len() {
                        assert(res@[a] == res0[a] && res@[b] == res0[b]);
                    } else if a < res0.len() {
                        let ra = res@[a]@;
                        let rb = res@[b]@;
                        assert(res@[a] == res0[a]);
                        let ta = choose|t: int| t < v - value_low && #[trigger] first_set_from(res0[a]@, c, t);
                        assert(first_set_from(ra, c, ta));
                        assert(agree_below(rb, cur1, t0 + 1));
                        assert(agree_below(ra, rb, ta)) by {
                            assert forall|j: int| 0 <= j < ta implies #[trigger] ra[j] == rb[j] by {
                                if j < c {
                                    assert(ra[j] == cur0[j]);
                                    assert(rb[j] == cur1[j]);
                                } else {
                                    assert(!ra[j]);
                                    assert(rb[j] == cur1[j]);
                                }
                            }
                        }
                        assert(rb[ta] == cur1[ta]);
                        assert(ra[ta] && !rb[ta]);
                    }
                }
                if value_low >= 0 {
                    assert forall|row: Seq<bool>, t: int|
                        #[trigger] is_partition_row(row, len, n as int, value_low as int, total) && agree_below(row, cur0, c)
                            && c <= t < v + 1 - value_low && #[trigger] row[t] && (forall|j: int| c <= j < t ==> !#[trigger] row[j])
                            implies rows_contain(res@, row) by {
                        if t < t0 {
                            let q = choose|q: int| 0 <= q < res0.len() && (#[trigger] res0[q])@ == row;
                            assert(res@[q] == res0[q]);
                        } else {
                            assert(agree_below(row, cur1, t0 + 1)) by {
                                assert forall|j: int| 0 <= j < t0 + 1 implies #[trigger] row[j] == cur1[j] by {
                                    if j < c {
                                        assert(row[j] == cur0[j]);
                                    } else if j < t0 {
                                        assert(!row[j]);
                                    }
                                }
                            }
                        }
                    }
                }
            }
        } else {
            proof {
                assert forall|q: int| old(res)@.len() <= q < res@.len() implies agree_below((#[trigger] res@[q])@, cur0, c)
                    && exists|t: int| t < v + 1 - value_low && #[trigger] first_set_from(res@[q]@, c, t) by {
                    assert(old(res)@.len() <= q < res@.len());
                    assert(agree_below(res@[q]@, cur0, c));
                    assert(exists|t: int| t < v - value_low && #[trigger] first_set_from(res@[q]@, c, t));
                    let t = choose|t: int| t < v - value_low && #[trigger] first_set_from(res@[q]@, c, t);
                    assert(first_set_from(res@[q]@, c, t));
                }
                if value_low >= 0 {
                    assert forall|row: Seq<bool>, t: int|
                        #[trigger] is_partition_row(row, len, n as int, value_low as int, total) && agree_below(row, cur0, c)
                            && c <= t < v + 1 - value_low && #[trigger] row[t] && (forall|j: int| c <= j < t ==> !#[trigger] row[j])
                            implies rows_contain(res@, row) by {
                        if t == t0 {
                            lemma_range_split(row, value_low as int, c, t0, len);
                            lemma_range_split(row, value_low as int, t0, t0 + 1, len);
                            lemma_range_false(row, value_low as int, c, t0);
                            lemma_range_weight_nonneg(row, value_low as int, t0 + 1, len);
                            assert(row[t0]);
                            assert(range_weight(row, value_low as int, t0, t0) == 0);
                            assert(range_weight(row, value_low as int, t0, t0 + 1) == v);
                            assert(range_weight(row, value_low as int, c, len) == sum);
                            assert(false);
                        }
                    }
                }
            }
        }
        v += 1;
    }
    proof {
        if value_low >= 0 {
            assert forall|row: Seq<bool>|
                #[trigger] is_partition_row(row, len, n as int, value_low as int, total) && agree_below(row, cur0, c)
                    implies rows_contain(res@, row) by {
                let t = lemma_first_true(row, c, len);
                assert(row[t]);
            }
        }
    }
}

/// The sets of `n` distinct values between `value_low` and `value_high`
/// that add up to `sum`, each as a row of flags indexed by value minus
/// `value_low`, in lexicographic order of the chosen values. A value is
/// only tried while it does not exceed what is left of the sum, so with
/// negative values some sets can be missed; with `value_low >= 0` every
/// set is listed.
pub fn partitions(sum: i32, n: i32, value_low: i32, value_high: i32) -> (r: Vec<Vec<bool>>)
    requires
        0 <= n <= 0x8000,
        -0x8000 <= value_low,
        value_low - 1 <= value_high <= 0x8000,
    ensures
        forall|k: int| 0 <= k < r@.len() ==> is_partition_row((#[trigger] r@[k])@, value_high - value_low + 1, n as int, value_low as int, sum as int),
        value_low >= 0 ==> forall|row: Seq<bool>|
            #[trigger] is_partition_row(row, value_high - value_low + 1, n as int, value_low as int, sum as int) ==> rows_contain(r@, row),
        forall|a: int, b: int| 0 <= a < b < r@.len() ==> row_before(r@[a]@, r@[b]@),
{
    let mut ret: Vec<Vec<bool>> = Vec::new();
    let len = (value_high - value_low + 1) as usize;
    let mut current: Vec<bool> = Vec::new();
    let mut k: usize = 0;
    while k < len
        invariant
            k <= len,
            current@.len() == k,
            forall|j: int| 0 <= j < k ==> !current@[j],
        decreases len - k,
    {
        current.push(false);
        k += 1;
    }
    proof {
        lemma_all_false(current@, value_low as int);
    }
    partition_impl(sum as i64, 0, n as i64, value_low as i64, value_low as i64, value_high as i64, &mut ret, &mut current, Ghost(sum as int));
    proof {
        assert forall|row: Seq<bool>| agree_below(row, current@, 0) by {}
    }
    ret
}

proof fn lemma_all_false(row: Seq<bool>, low: int)
    requires
        forall|j: int| 0 <= j < row.len() ==> !row[j],
    ensures
        count_true_spec(row) == 0,
        weighted_sum(row, low) == 0,
    decreases row.len(),
{
    if row.len() > 0 {
        lemma_all_false(row.drop_last(), low);
    }
}

} // verus!
