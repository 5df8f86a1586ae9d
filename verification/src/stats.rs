//! Percentile summaries for latency vectors.

use vstd::prelude::*;

use crate::sort;
use crate::text;

verus! {

/// Min / mean / p50 / p99 / max over a slice of samples.
#[derive(Debug, Clone, Copy, PartialEq, Eq, Structural)]
pub struct Summary {
    pub min: u64,
    pub mean: u64,
    pub p50: u64,
    pub p99: u64,
    pub max: u64,
}

/// The sum of what `f` gives for each sample.
pub open spec fn sum_over(s: Seq<u64>, f: spec_fn(u64) -> nat) -> nat
    decreases s.len(),
{
    if s.len() == 0 {
        0
    } else {
        sum_over(s.drop_last(), f) + f(s.last())
    }
}

/// The sum of the samples.
pub open spec fn total(s: Seq<u64>) -> nat {
    sum_over(s, |v: u64| v as nat)
}

/// The position, among `n` samples in ascending order, that lies nearest to `percent` of
/// the way from the first to the last; the later one where two are as near.
pub open spec fn rank(percent: nat, n: nat) -> int {
    (percent * (n - 1) + 50) / 100
}

/// The sample at the position for `percent` once the samples are in ascending order.
pub open spec fn percentile(s: Seq<u64>, percent: nat) -> u64 {
    sort::sorted(s)[rank(percent, s.len())]
}

/// The summary of `s`: all zero where there is no sample, and the mean rounded down.
pub open spec fn summary_of(s: Seq<u64>) -> Summary {
    if s.len() == 0 {
        Summary { min: 0, mean: 0, p50: 0, p99: 0, max: 0 }
    } else {
        Summary {
            min: sort::sorted(s).first(),
            mean: (total(s) / s.len()) as u64,
            p50: percentile(s, 50),
            p99: percentile(s, 99),
            max: sort::sorted(s).last(),
        }
    }
}

/// Adds up the samples.
fn sum(vals: &[u64]) -> (r: u64)
    requires
        total(vals@) <= u64::MAX,
    ensures
        r == total(vals@),
{
    let mut sum: u64 = 0;
    let mut i: usize = 0;
    while i < vals.len()
        invariant
            i <= vals.len(),
            total(vals@) <= u64::MAX,
            sum == total(vals@.take(i as int)),
        decreases vals.len() - i,
    {
        proof {
            assert(vals@.take(i + 1).drop_last() =~= vals@.take(i as int));
            lemma_more_samples_sum_to_no_less(vals@, i + 1);
        }
        sum += vals[i];
        i += 1;
    }
    assert(vals@.take(i as int) =~= vals@);
    sum
}

proof fn lemma_more_samples_sum_to_no_less(s: Seq<u64>, k: int)
    requires
        0 <= k <= s.len(),
    ensures
        total(s.take(k)) <= total(s),
    decreases s.len() - k,
{
    if k < s.len() {
        assert(s.take(k + 1).drop_last() =~= s.take(k));
        lemma_more_samples_sum_to_no_less(s, k + 1);
    } else {
        assert(s.take(k) =~= s);
    }
}

/// The position of a percentile among `n` samples in ascending order.
fn position(percent: u8, n: usize) -> (r: usize)
    requires
        n > 0,
        percent <= 100,
    ensures
        r == rank(percent as nat, n as nat),
        r < n,
{
    let last: u128 = (n - 1) as u128;
    assert(percent * last <= 100 * last) by (nonlinear_arith)
        requires
            percent <= 100,
            last >= 0,
    ;
    ((percent as u128 * last + 50) / 100) as usize
}

/// Summarizes the samples, in whatever order they come.
pub fn summarize(vals: &[u64]) -> (r: Summary)
    requires
        total(vals@) <= u64::MAX,
    ensures
        r == summary_of(vals@),
{
    if vals.is_empty() {
        return Summary { min: 0, mean: 0, p50: 0, p99: 0, max: 0 };
    }
    let s = sort::sort(vals);
    let n: usize = vals.len();
    proof {
        sort::law_sorted_is_an_ascending_arrangement(vals@);
        lemma_mean_is_no_larger_than_sum(total(vals@), n as nat);
    }
    Summary {
        min: s[0],
        mean: sum(vals) / n as u64,
        p50: s[position(50, n)],
        p99: s[position(99, n)],
        max: s[n - 1],
    }
}

proof fn lemma_mean_is_no_larger_than_sum(sum: nat, n: nat)
    requires
        n > 0,
    ensures
        sum / n <= sum,
{
    vstd::arithmetic::div_mod::lemma_div_is_ordered_by_denominator(sum as int, 1, n as int);
    vstd::arithmetic::div_mod::lemma_div_basics(sum as int);
}

/// A table row: the name in a column of 14 characters, then the five figures, each in a
/// column of 8.
pub open spec fn row(name: Seq<char>, s: Summary) -> Seq<char> {
    "  "@ + text::flush_left(name, 14) + column(s.min) + column(s.mean) + column(s.p50) + column(
        s.p99,
    ) + column(s.max)
}

/// One figure of a row, after the blank that sets it off.
pub open spec fn column(n: u64) -> Seq<char> {
    " "@ + text::flush_right(text::decimal(n as nat), 8)
}

fn push_column(out: &mut String, n: u64)
    ensures
        final(out)@ == old(out)@ + column(n),
{
    out.append(" ");
    text::push_number(out, n, 8);
    assert(out@ =~= old(out)@ + column(n));
}

/// The table row that `print_row` prints for these samples.
pub fn format_row(name: &str, vals: &[u64]) -> (r: String)
    requires
        total(vals@) <= u64::MAX,
    ensures
        r@ == row(name@, summary_of(vals@)),
{
    let s = summarize(vals);
    let mut out = String::new();
    out.append("  ");
    text::push_left(&mut out, name, 14);
    push_column(&mut out, s.min);
    push_column(&mut out, s.mean);
    push_column(&mut out, s.p50);
    push_column(&mut out, s.p99);
    push_column(&mut out, s.max);
    assert(out@ =~= row(name@, s));
    out
}

// ---- laws ----

/// A percentile's position is one of a sample, and no position is nearer to where it points.
pub proof fn law_rank_is_nearest(percent: nat, n: nat, other: int)
    requires
        percent <= 100,
        n > 0,
    ensures
        0 <= rank(percent, n) < n,
        vstd::math::abs(100 * rank(percent, n) - percent * (n - 1)) <= vstd::math::abs(
            100 * other - percent * (n - 1),
        ),
{
    assert(0 <= percent * (n - 1) <= 100 * (n - 1)) by (nonlinear_arith)
        requires
            0 <= percent <= 100,
            n > 0,
    ;
}

proof fn lemma_sum_over_push(s: Seq<u64>, v: u64, f: spec_fn(u64) -> nat)
    ensures
        sum_over(s.push(v), f) == sum_over(s, f) + f(v),
{
    assert(s.push(v).drop_last() =~= s);
}

proof fn lemma_sum_over_remove(s: Seq<u64>, i: int, f: spec_fn(u64) -> nat)
    requires
        0 <= i < s.len(),
    ensures
        sum_over(s, f) == sum_over(s.remove(i), f) + f(s[i]),
    decreases s.len(),
{
    if i == s.len() - 1 {
        assert(s.remove(i) =~= s.drop_last());
    } else {
        let rest = s.drop_last();
        lemma_sum_over_remove(rest, i, f);
        assert(s.remove(i) =~= rest.remove(i).push(s.last()));
        lemma_sum_over_push(rest.remove(i), s.last(), f);
    }
}

/// Sums do not depend on the order of the samples.
pub proof fn law_sum_ignores_order(s: Seq<u64>, t: Seq<u64>, f: spec_fn(u64) -> nat)
    requires
        s.to_multiset() == t.to_multiset(),
    ensures
        sum_over(s, f) == sum_over(t, f),
    decreases s.len(),
{
    broadcast use vstd::seq_lib::group_to_multiset_ensures;

    assert(s.len() == t.len()) by {
        assert(s.len() == s.to_multiset().len());
        assert(t.len() == t.to_multiset().len());
    }
    if s.len() > 0 {
        let v = s.last();
        assert(s.contains(v));
        assert(t.to_multiset().count(v) > 0);
        assert(t.contains(v));
        let i = choose|i: int| 0 <= i < t.len() && t[i] == v;
        assert(s.drop_last() =~= s.remove(s.len() - 1));
        assert(s.drop_last().to_multiset() =~= t.remove(i).to_multiset());
        law_sum_ignores_order(s.drop_last(), t.remove(i), f);
        lemma_sum_over_remove(t, i, f);
    }
}

/// The summary does not depend on the order of the samples.
pub proof fn law_summary_ignores_order(s: Seq<u64>, t: Seq<u64>)
    requires
        s.to_multiset() == t.to_multiset(),
    ensures
        summary_of(s) == summary_of(t),
{
    sort::law_sorted_is_an_ascending_arrangement(s);
    sort::law_ascending_arrangement_is_unique(t, sort::sorted(s));
    law_sum_ignores_order(s, t, |v: u64| v as nat);
    s.to_multiset_ensures();
    t.to_multiset_ensures();
}

/// Where two positions are as near to where a percentile points, the later one is taken.
pub proof fn law_rank_takes_the_later(percent: nat, n: nat, other: int)
    requires
        percent <= 100,
        n > 0,
        vstd::math::abs(100 * other - percent * (n - 1)) == vstd::math::abs(
            100 * rank(percent, n) - percent * (n - 1),
        ),
    ensures
        other <= rank(percent, n),
{
}

/// The sum grows by each sample, and starts at zero.
pub proof fn law_total_adds_each_sample(s: Seq<u64>, v: u64)
    ensures
        total(Seq::empty()) == 0,
        total(s.push(v)) == total(s) + v,
{
    lemma_sum_over_push(s, v, |v: u64| v as nat);
}

/// Without samples every figure is zero.
pub proof fn law_no_sample_is_all_zero()
    ensures
        summary_of(Seq::empty()).min == 0,
        summary_of(Seq::empty()).mean == 0,
        summary_of(Seq::empty()).p50 == 0,
        summary_of(Seq::empty()).p99 == 0,
        summary_of(Seq::empty()).max == 0,
{
}

/// How many samples are `x` or less.
pub open spec fn at_most(s: Seq<u64>, x: u64) -> nat {
    sum_over(
        s,
        |v: u64|
            if v <= x {
                1
            } else {
                0
            },
    )
}

/// How many samples are `x` or more.
pub open spec fn at_least(s: Seq<u64>, x: u64) -> nat {
    sum_over(
        s,
        |v: u64|
            if v >= x {
                1
            } else {
                0
            },
    )
}

proof fn lemma_at_most_of_ascending(t: Seq<u64>, k: int, m: int)
    requires
        sort::ascending(t),
        0 <= k < t.len(),
        0 <= m <= t.len(),
    ensures
        at_most(t.take(m), t[k]) >= vstd::math::min(m, k + 1),
    decreases m,
{
    if m > 0 {
        lemma_at_most_of_ascending(t, k, m - 1);
        assert(t.take(m).drop_last() =~= t.take(m - 1));
        assert(m - 1 < k ==> t[m - 1] <= t[k]);
    }
}

proof fn lemma_at_least_of_ascending(t: Seq<u64>, k: int, m: int)
    requires
        sort::ascending(t),
        0 <= k < t.len(),
        0 <= m <= t.len(),
    ensures
        at_least(t.take(m), t[k]) >= m - k,
    decreases m,
{
    if m > 0 {
        lemma_at_least_of_ascending(t, k, m - 1);
        assert(t.take(m).drop_last() =~= t.take(m - 1));
        assert(k < m - 1 ==> t[k] <= t[m - 1]);
    }
}

/// A percentile splits the samples at its position: as many as lie up to that position are
/// no larger, and as many as lie from it on are no smaller.
pub proof fn law_percentile_splits_the_samples(s: Seq<u64>, percent: nat)
    requires
        s.len() > 0,
        percent <= 100,
    ensures
        s.contains(percentile(s, percent)),
        at_most(s, percentile(s, percent)) >= rank(percent, s.len()) + 1,
        at_least(s, percentile(s, percent)) >= s.len() - rank(percent, s.len()),
{
    let t = sort::sorted(s);
    let k = rank(percent, s.len());
    let x = percentile(s, percent);
    let low = |v: u64|
        if v <= x {
            1nat
        } else {
            0
        };
    let high = |v: u64|
        if v >= x {
            1nat
        } else {
            0
        };
    sort::law_sorted_is_an_ascending_arrangement(s);
    law_rank_is_nearest(percent, s.len(), 0);
    lemma_arrangement_has_the_same_samples(s, t, k);
    law_sum_ignores_order(s, t, low);
    law_sum_ignores_order(s, t, high);
    lemma_at_most_of_ascending(t, k, t.len() as int);
    lemma_at_least_of_ascending(t, k, t.len() as int);
    assert(t.take(t.len() as int) =~= t);
}

/// Both percentiles of a summary split the samples where they should: the median halfway and
/// the other at 99 in a hundred. Each is a sample, with as many samples no larger as lie up
/// to its position and as many no smaller as lie from it on.
pub proof fn law_summary_percentiles_split_the_samples(s: Seq<u64>)
    requires
        s.len() > 0,
    ensures
        s.contains(summary_of(s).p50),
        at_most(s, summary_of(s).p50) >= rank(50, s.len()) + 1,
        at_least(s, summary_of(s).p50) >= s.len() - rank(50, s.len()),
        s.contains(summary_of(s).p99),
        at_most(s, summary_of(s).p99) >= rank(99, s.len()) + 1,
        at_least(s, summary_of(s).p99) >= s.len() - rank(99, s.len()),
{
    law_percentile_splits_the_samples(s, 50);
    law_percentile_splits_the_samples(s, 99);
}

/// A sample more counts among those up to `x` and among those from `x` on if it is one.
pub proof fn law_samples_are_counted_one_by_one(s: Seq<u64>, v: u64, x: u64)
    ensures
        at_most(Seq::empty(), x) == 0,
        at_least(Seq::empty(), x) == 0,
        at_most(s.push(v), x) == at_most(s, x) + if v <= x {
            1nat
        } else {
            0
        },
        at_least(s.push(v), x) == at_least(s, x) + if v >= x {
            1nat
        } else {
            0
        },
{
    assert(s.push(v).drop_last() =~= s);
}

proof fn lemma_arrangement_has_the_same_samples(s: Seq<u64>, t: Seq<u64>, k: int)
    requires
        s.to_multiset() == t.to_multiset(),
        0 <= k < t.len(),
    ensures
        s.contains(t[k]),
{
    broadcast use vstd::seq_lib::group_to_multiset_ensures;

    assert(t.contains(t[k]));
    assert(s.to_multiset().count(t[k]) > 0);
}

/// The extremes are samples, and every sample lies between them.
pub proof fn law_extremes_bound_the_samples(s: Seq<u64>)
    requires
        s.len() > 0,
    ensures
        s.contains(summary_of(s).min),
        s.contains(summary_of(s).max),
        forall|i: int|
            0 <= i < s.len() ==> summary_of(s).min <= #[trigger] s[i] <= summary_of(s).max,
{
    let t = sort::sorted(s);
    sort::law_sorted_is_an_ascending_arrangement(s);
    lemma_arrangement_has_the_same_samples(s, t, 0);
    lemma_arrangement_has_the_same_samples(s, t, t.len() - 1);
    assert forall|i: int| 0 <= i < s.len() implies t[0] <= #[trigger] s[i] <= t[t.len() - 1] by {
        lemma_arrangement_has_the_same_samples(t, s, i);
        let j = choose|j: int| 0 <= j < t.len() && t[j] == s[i];
        assert(j > 0 ==> t[0] <= t[j]);
        assert(j < t.len() - 1 ==> t[j] <= t[t.len() - 1]);
    }
}

proof fn lemma_sum_lies_between(s: Seq<u64>, low: u64, high: u64)
    requires
        forall|i: int| 0 <= i < s.len() ==> low <= #[trigger] s[i] <= high,
    ensures
        low * s.len() <= total(s) <= high * s.len(),
    decreases s.len(),
{
    if s.len() > 0 {
        let rest = s.drop_last();
        assert forall|i: int| 0 <= i < rest.len() implies low <= #[trigger] rest[i] <= high by {
            assert(rest[i] == s[i]);
        }
        lemma_sum_lies_between(rest, low, high);
        assert(low * s.len() == low * rest.len() + low) by (nonlinear_arith)
            requires
                s.len() == rest.len() + 1,
        ;
        assert(high * s.len() == high * rest.len() + high) by (nonlinear_arith)
            requires
                s.len() == rest.len() + 1,
        ;
    }
}

/// The figures of a summary come in order: the percentiles between the extremes and the
/// higher one last, and the mean between the extremes too.
pub proof fn law_summary_is_ordered(s: Seq<u64>)
    ensures
        summary_of(s).min <= summary_of(s).p50 <= summary_of(s).p99 <= summary_of(s).max,
        summary_of(s).min <= summary_of(s).mean <= summary_of(s).max,
        s.len() > 0 ==> summary_of(s).mean == total(s) / s.len(),
{
    if s.len() > 0 {
        let t = sort::sorted(s);
        let n = s.len();
        let (low, high) = (t[0], t[n - 1]);
        sort::law_sorted_is_an_ascending_arrangement(s);
        law_rank_is_nearest(50, n, 0);
        law_rank_is_nearest(99, n, 0);
        law_extremes_bound_the_samples(s);
        lemma_sum_lies_between(s, low, high);
        let sum = total(s);
        assert(low <= sum / n <= high) by (nonlinear_arith)
            requires
                low * n <= sum <= high * n,
                n > 0,
        ;
    }
}

/// Eight digits are enough for every number under a hundred million.
proof fn lemma_short_decimal(n: nat)
    requires
        n < 100_000_000,
    ensures
        text::decimal(n).len() <= 8,
{
    reveal_with_fuel(text::decimal, 8);
}

/// Rows line up: whatever the samples, a name of up to 14 characters and figures of up to
/// eight digits fill the same width.
pub proof fn law_rows_line_up(name: Seq<char>, s: Summary)
    requires
        name.len() <= 14,
        s.min < 100_000_000,
        s.mean < 100_000_000,
        s.p50 < 100_000_000,
        s.p99 < 100_000_000,
        s.max < 100_000_000,
    ensures
        row(name, s).len() == 61,
{
    reveal_strlit("  ");
    reveal_strlit(" ");
    lemma_short_decimal(s.min as nat);
    lemma_short_decimal(s.mean as nat);
    lemma_short_decimal(s.p50 as nat);
    lemma_short_decimal(s.p99 as nat);
    lemma_short_decimal(s.max as nat);
}

proof fn lemma_column_is_a_field(a: Seq<char>, n: u64)
    ensures
        text::fields(a + column(n)) == text::fields(a).push(text::decimal(n as nat)),
{
    reveal_strlit(" ");
    let digits = text::decimal(n as nat);
    let figure = text::flush_right(digits, 8);
    text::law_decimal_is_digits(n as nat);
    text::law_word_is_its_own_field(digits);
    text::law_blanks_add_no_field(
        digits,
        if digits.len() < 8 {
            (8 - digits.len()) as nat
        } else {
            0
        },
    );
    assert(a + column(n) =~= a.push(' ') + figure);
    text::law_fields_split_at_whitespace(a, ' ', figure);
    assert(text::fields(a) + seq![digits] =~= text::fields(a).push(digits));
}

/// A row reads back: the fields of the name, then the five figures in the order min, mean,
/// p50, p99, max, whatever their size.
pub proof fn law_row_reads_back(name: Seq<char>, s: Summary)
    ensures
        text::fields(row(name, s)) == text::fields(name) + seq![
            text::decimal(s.min as nat),
            text::decimal(s.mean as nat),
            text::decimal(s.p50 as nat),
            text::decimal(s.p99 as nat),
            text::decimal(s.max as nat),
        ],
{
    reveal_strlit("  ");
    let label = text::flush_left(name, 14);
    let a = "  "@ + label;
    assert("  "@ =~= text::blanks(2));
    text::law_blanks_add_no_field(label, 2);
    text::law_blanks_add_no_field(
        name,
        if name.len() < 14 {
            (14 - name.len()) as nat
        } else {
            0
        },
    );
    assert(text::fields(a) == text::fields(name));
    let b = a + column(s.min);
    let c = b + column(s.mean);
    let d = c + column(s.p50);
    let e = d + column(s.p99);
    lemma_column_is_a_field(a, s.min);
    lemma_column_is_a_field(b, s.mean);
    lemma_column_is_a_field(c, s.p50);
    lemma_column_is_a_field(d, s.p99);
    lemma_column_is_a_field(e, s.max);
    assert(text::fields(row(name, s)) =~= text::fields(name) + seq![
        text::decimal(s.min as nat),
        text::decimal(s.mean as nat),
        text::decimal(s.p50 as nat),
        text::decimal(s.p99 as nat),
        text::decimal(s.max as nat),
    ]);
}

/// The figures of a row, read as numbers, are those of the summary, in the order min, mean,
/// p50, p99, max after a name that is one word.
pub proof fn law_row_figures_read_back(name: Seq<char>, s: Summary)
    requires
        text::is_word(name),
    ensures
        text::fields(row(name, s)).len() == 6,
        text::fields(row(name, s))[0] == name,
        text::number(text::fields(row(name, s))[1]) == Some(s.min),
        text::number(text::fields(row(name, s))[2]) == Some(s.mean),
        text::number(text::fields(row(name, s))[3]) == Some(s.p50),
        text::number(text::fields(row(name, s))[4]) == Some(s.p99),
        text::number(text::fields(row(name, s))[5]) == Some(s.max),
{
    law_row_reads_back(name, s);
    text::law_word_is_its_own_field(name);
    text::law_number_of_decimal(s.min);
    text::law_number_of_decimal(s.mean);
    text::law_number_of_decimal(s.p50);
    text::law_number_of_decimal(s.p99);
    text::law_number_of_decimal(s.max);
}

/// `part` stands in `s` and ends at position `end`.
pub open spec fn ends_at(s: Seq<char>, part: Seq<char>, end: int) -> bool {
    &&& part.len() <= end <= s.len()
    &&& s.subrange(end - part.len(), end) == part
}

/// The name of a row stands in it whole, after two blanks, however long it is.
pub proof fn law_row_holds_the_name(name: Seq<char>, s: Summary)
    ensures
        row(name, s)[0] == ' ',
        row(name, s)[1] == ' ',
        ends_at(row(name, s), name, (2 + name.len()) as int),
{
    reveal_strlit("  ");
    assert(row(name, s).subrange(2, (2 + name.len()) as int) =~= name);
}

/// The name of a row starts after two blanks. Where it and the figures fit their columns,
/// each figure ends where its column does.
pub proof fn law_row_columns(name: Seq<char>, s: Summary)
    requires
        name.len() <= 14,
        s.min < 100_000_000,
        s.mean < 100_000_000,
        s.p50 < 100_000_000,
        s.p99 < 100_000_000,
        s.max < 100_000_000,
    ensures
        ends_at(row(name, s), name, (2 + name.len()) as int),
        ends_at(row(name, s), text::decimal(s.min as nat), 25),
        ends_at(row(name, s), text::decimal(s.mean as nat), 34),
        ends_at(row(name, s), text::decimal(s.p50 as nat), 43),
        ends_at(row(name, s), text::decimal(s.p99 as nat), 52),
        ends_at(row(name, s), text::decimal(s.max as nat), 61),
{
    reveal_strlit("  ");
    reveal_strlit(" ");
    lemma_short_decimal(s.min as nat);
    lemma_short_decimal(s.mean as nat);
    lemma_short_decimal(s.p50 as nat);
    lemma_short_decimal(s.p99 as nat);
    lemma_short_decimal(s.max as nat);
    let r = row(name, s);
    assert(r.subrange(2, (2 + name.len()) as int) =~= name);
    lemma_column_ends(r, s.min, 25);
    lemma_column_ends(r, s.mean, 34);
    lemma_column_ends(r, s.p50, 43);
    lemma_column_ends(r, s.p99, 52);
    lemma_column_ends(r, s.max, 61);
}

/// A figure ends where its column does.
proof fn lemma_column_ends(s: Seq<char>, n: u64, end: int)
    requires
        9 <= end <= s.len(),
        column(n).len() == 9,
        forall|i: int| 0 <= i < 9 ==> s[end - 9 + i] == #[trigger] column(n)[i],
    ensures
        ends_at(s, text::decimal(n as nat), end),
{
    let digits = text::decimal(n as nat);
    let c = column(n);
    assert forall|i: int| 0 <= i < digits.len() implies s.subrange(
        end - digits.len(),
        end,
    )[i] == digits[i] by {
        assert(c[9 - digits.len() + i] == digits[i]);
        assert(s[end - 9 + (9 - digits.len() + i)] == c[9 - digits.len() + i]);
    }
    assert(s.subrange(end - digits.len(), end) =~= digits);
}

} // verus!
