//! The tally of an off-CPU sampler: how often each thread was found asleep, and where.

use std::collections::BTreeMap;

use vstd::prelude::*;

use crate::proc_probe;
use crate::text;

verus! {

/// `a` comes before `b` in a dictionary that goes by code points.
pub open spec fn precedes(a: Seq<char>, b: Seq<char>) -> bool
    decreases a.len(),
{
    if b.len() == 0 {
        false
    } else if a.len() == 0 {
        true
    } else if a[0] == b[0] {
        precedes(a.drop_first(), b.drop_first())
    } else {
        a[0] < b[0]
    }
}

/// The rows stand in dictionary order, and no location has two.
pub open spec fn in_order(rows: Seq<(String, u32)>) -> bool {
    forall|i: int, j: int| 0 <= i < j < rows.len() ==> precedes(rows[i].0@, rows[j].0@)
}

/// What the rows count: location -> number of samples.
pub open spec fn counts(rows: Seq<(String, u32)>) -> Map<Seq<char>, nat>
    decreases rows.len(),
{
    if rows.len() == 0 {
        Map::empty()
    } else {
        counts(rows.drop_last()).insert(rows.last().0@, rows.last().1 as nat)
    }
}

/// A sleep location that counts: neither missing nor the `0` of a thread that is on a CPU or
/// runnable.
pub open spec fn is_parked(location: Seq<char>) -> bool {
    location.len() > 0 && location != seq!['0']
}

/// What a tally says of one thread.
pub open spec fn of_thread(
    tally: Map<u64, Map<Seq<char>, nat>>,
    tid: u64,
) -> Map<Seq<char>, nat> {
    if tally.contains_key(tid) {
        tally[tid]
    } else {
        Map::empty()
    }
}

/// How often the thread was found at the location.
pub open spec fn samples_at(
    tally: Map<u64, Map<Seq<char>, nat>>,
    tid: u64,
    location: Seq<char>,
) -> nat {
    if of_thread(tally, tid).contains_key(location) {
        of_thread(tally, tid)[location]
    } else {
        0
    }
}

/// The tally after one more sample: one more at that location where it counts, and the same
/// tally where it does not.
pub open spec fn sampled(
    tally: Map<u64, Map<Seq<char>, nat>>,
    tid: u64,
    location: Seq<char>,
) -> Map<u64, Map<Seq<char>, nat>> {
    if is_parked(location) {
        tally.insert(
            tid,
            of_thread(tally, tid).insert(location, samples_at(tally, tid, location) + 1),
        )
    } else {
        tally
    }
}

/// The tally after a run of samples, each a thread and a location.
pub open spec fn sampled_all(
    tally: Map<u64, Map<Seq<char>, nat>>,
    samples: Seq<(u64, Seq<char>)>,
) -> Map<u64, Map<Seq<char>, nat>>
    decreases samples.len(),
{
    if samples.len() == 0 {
        tally
    } else {
        sampled(sampled_all(tally, samples.drop_last()), samples.last().0, samples.last().1)
    }
}

/// How many of the samples found the thread at the location.
pub open spec fn occurrences(
    samples: Seq<(u64, Seq<char>)>,
    tid: u64,
    location: Seq<char>,
) -> nat
    decreases samples.len(),
{
    if samples.len() == 0 {
        0
    } else {
        occurrences(samples.drop_last(), tid, location) + if samples.last() == (tid, location) {
            1nat
        } else {
            0
        }
    }
}

/// The samples of one pass of the sampler: one for each listed thread, in the order of the
/// list, from the text of its wchan file (nothing where that could not be read).
pub open spec fn pass_samples(tids: Seq<u64>, texts: Seq<Option<String>>) -> Seq<
    (u64, Seq<char>),
> {
    Seq::new(
        tids.len(),
        |i: int|
            (
                tids[i],
                text::trimmed(
                    match texts[i] {
                        Some(s) => s@,
                        None => Seq::empty(),
                    },
                ),
            ),
    )
}

/// After these samples every count is still one that 32 bits hold.
pub open spec fn fits(
    tally: Map<u64, Map<Seq<char>, nat>>,
    samples: Seq<(u64, Seq<char>)>,
) -> bool {
    forall|tid: u64, location: Seq<char>| #[trigger]
        samples_at(sampled_all(tally, samples), tid, location) <= u32::MAX
}

/// What the rows of each thread count.
pub open spec fn tally_of(m: Map<u64, Vec<(String, u32)>>) -> Map<u64, Map<Seq<char>, nat>> {
    m.map_values(|rows: Vec<(String, u32)>| counts(rows@))
}

/// The rows of each thread stand in order.
pub open spec fn all_in_order(m: Map<u64, Vec<(String, u32)>>) -> bool {
    forall|tid: u64| m.contains_key(tid) ==> in_order((#[trigger] m[tid])@)
}

proof fn lemma_precedes_is_strict(a: Seq<char>)
    ensures
        !precedes(a, a),
    decreases a.len(),
{
    if a.len() > 0 {
        lemma_precedes_is_strict(a.drop_first());
    }
}

proof fn lemma_precedes_is_transitive(a: Seq<char>, b: Seq<char>, c: Seq<char>)
    requires
        precedes(a, b),
        precedes(b, c),
    ensures
        precedes(a, c),
    decreases a.len(),
{
    if a.len() > 0 && a[0] == b[0] && b[0] == c[0] {
        lemma_precedes_is_transitive(a.drop_first(), b.drop_first(), c.drop_first());
    }
}

proof fn lemma_precedes_is_total(a: Seq<char>, b: Seq<char>)
    ensures
        a == b || precedes(a, b) || precedes(b, a),
    decreases a.len(),
{
    if a.len() == 0 {
        if b.len() == 0 {
            assert(a =~= b);
        }
    } else if b.len() > 0 && a[0] == b[0] {
        lemma_precedes_is_total(a.drop_first(), b.drop_first());
        if a.drop_first() == b.drop_first() {
            assert(a =~= seq![a[0]] + a.drop_first());
            assert(b =~= seq![b[0]] + b.drop_first());
        }
    }
}

/// A location is counted if and only if it has a row.
proof fn lemma_counted_has_row(rows: Seq<(String, u32)>, location: Seq<char>)
    ensures
        counts(rows).contains_key(location) <==> exists|i: int|
            0 <= i < rows.len() && (#[trigger] rows[i]).0@ == location,
    decreases rows.len(),
{
    if rows.len() > 0 {
        let rest = rows.drop_last();
        lemma_counted_has_row(rest, location);
        if counts(rest).contains_key(location) {
            let i = choose|i: int| 0 <= i < rest.len() && (#[trigger] rest[i]).0@ == location;
            assert(rows[i] == rest[i]);
        }
        if rows.last().0@ == location {
            assert(rows[rows.len() - 1].0@ == location);
        }
        assert forall|i: int| 0 <= i < rows.len() && (#[trigger] rows[i]).0@ == location implies {
            ||| i == rows.len() - 1
            ||| counts(rest).contains_key(location)
        } by {
            if i < rest.len() {
                assert(rest[i] == rows[i]);
            }
        }
    }
}

/// Each row counts what it says.
proof fn lemma_row_counts(rows: Seq<(String, u32)>, i: int)
    requires
        in_order(rows),
        0 <= i < rows.len(),
    ensures
        counts(rows).contains_key(rows[i].0@),
        counts(rows)[rows[i].0@] == rows[i].1,
    decreases rows.len(),
{
    if i < rows.len() - 1 {
        let rest = rows.drop_last();
        lemma_row_counts(rest, i);
        lemma_precedes_is_strict(rows[i].0@);
        assert(precedes(rows[i].0@, rows[rows.len() - 1].0@));
    }
}

/// A row with another number counts that number.
proof fn lemma_row_updated(rows: Seq<(String, u32)>, at: int, row: (String, u32))
    requires
        in_order(rows),
        0 <= at < rows.len(),
        row.0@ == rows[at].0@,
    ensures
        in_order(rows.update(at, row)),
        counts(rows.update(at, row)) == counts(rows).insert(row.0@, row.1 as nat),
    decreases rows.len(),
{
    let rest = rows.drop_last();
    let after = rows.update(at, row);
    if at == rows.len() - 1 {
        assert(after.drop_last() =~= rest);
    } else {
        lemma_row_updated(rest, at, row);
        assert(after.drop_last() =~= rest.update(at, row));
        lemma_precedes_is_strict(row.0@);
        assert(precedes(rows[at].0@, rows[rows.len() - 1].0@));
    }
    assert(counts(after) =~= counts(rows).insert(row.0@, row.1 as nat));
    assert forall|i: int, j: int| 0 <= i < j < after.len() implies precedes(
        after[i].0@,
        after[j].0@,
    ) by {
        assert(precedes(rows[i].0@, rows[j].0@));
    }
}

/// A row more counts its number.
proof fn lemma_row_inserted(rows: Seq<(String, u32)>, at: int, row: (String, u32))
    requires
        0 <= at <= rows.len(),
        forall|i: int| at <= i < rows.len() ==> precedes(row.0@, (#[trigger] rows[i]).0@),
    ensures
        counts(rows.insert(at, row)) == counts(rows).insert(row.0@, row.1 as nat),
    decreases rows.len(),
{
    let after = rows.insert(at, row);
    if at == rows.len() {
        assert(after.drop_last() =~= rows);
    } else {
        let rest = rows.drop_last();
        lemma_row_inserted(rest, at, row);
        assert(after.drop_last() =~= rest.insert(at, row));
        lemma_precedes_is_strict(row.0@);
        assert(precedes(row.0@, rows[rows.len() - 1].0@));
        assert(counts(after) =~= counts(rows).insert(row.0@, row.1 as nat));
    }
}

/// A row more, in its place, leaves the rows in order.
proof fn lemma_insertion_keeps_order(rows: Seq<(String, u32)>, at: int, row: (String, u32))
    requires
        in_order(rows),
        0 <= at <= rows.len(),
        forall|i: int| 0 <= i < at ==> precedes((#[trigger] rows[i]).0@, row.0@),
        forall|i: int| at <= i < rows.len() ==> precedes(row.0@, (#[trigger] rows[i]).0@),
    ensures
        in_order(rows.insert(at, row)),
{
    let after = rows.insert(at, row);
    assert forall|i: int, j: int| 0 <= i < j < after.len() implies precedes(
        after[i].0@,
        after[j].0@,
    ) by {
        let i0 = if i < at {
            i
        } else {
            i - 1
        };
        let j0 = if j < at {
            j
        } else {
            j - 1
        };
        if i != at {
            assert(after[i] == rows[i0]);
        }
        if j != at {
            assert(after[j] == rows[j0]);
        }
    }
}

/// Whether `a` comes before `b`.
fn comes_before(a: &[char], b: &[char]) -> (r: bool)
    ensures
        r == precedes(a@, b@),
{
    let mut i: usize = 0;
    assert(a@.skip(0) =~= a@);
    assert(b@.skip(0) =~= b@);
    while i < a.len() && i < b.len()
        invariant
            i <= a.len(),
            i <= b.len(),
            precedes(a@, b@) == precedes(a@.skip(i as int), b@.skip(i as int)),
        decreases a.len() - i,
    {
        if a[i] != b[i] {
            return a[i] < b[i];
        }
        assert(a@.skip(i as int).drop_first() =~= a@.skip(i + 1));
        assert(b@.skip(i as int).drop_first() =~= b@.skip(i + 1));
        i += 1;
    }
    i < b.len()
}

/// Where the row of a location is, or where it would stand.
fn find_row(rows: &Vec<(String, u32)>, location: &str) -> (r: (usize, bool))
    requires
        in_order(rows@),
    ensures
        r.0 <= rows.len(),
        r.1 ==> r.0 < rows.len() && rows@[r.0 as int].0@ == location@,
        !r.1 ==> {
            &&& forall|i: int| 0 <= i < r.0 ==> precedes((#[trigger] rows@[i]).0@, location@)
            &&& forall|i: int|
                r.0 <= i < rows.len() ==> precedes(location@, (#[trigger] rows@[i]).0@)
        },
{
    let sought = text::chars_of(location);
    let mut i: usize = 0;
    while i < rows.len()
        invariant
            i <= rows.len(),
            in_order(rows@),
            sought@ == location@,
            forall|k: int| 0 <= k < i ==> precedes((#[trigger] rows@[k]).0@, location@),
        decreases rows.len() - i,
    {
        let here = text::chars_of(rows[i].0.as_str());
        if comes_before(&sought, &here) {
            proof {
                assert forall|k: int| i <= k < rows.len() implies precedes(
                    location@,
                    (#[trigger] rows@[k]).0@,
                ) by {
                    if k > i {
                        lemma_precedes_is_transitive(location@, rows@[i as int].0@, rows@[k].0@);
                    }
                }
            }
            return (i, false);
        }
        if !comes_before(&here, &sought) {
            proof {
                lemma_precedes_is_total(here@, sought@);
            }
            return (i, true);
        }
        i += 1;
    }
    (i, false)
}

/// Counts one more sample at the location.
fn add_sample(rows: &mut Vec<(String, u32)>, location: String)
    requires
        in_order(old(rows)@),
        counts(old(rows)@).contains_key(location@) ==> counts(old(rows)@)[location@] < u32::MAX,
    ensures
        in_order(final(rows)@),
        counts(final(rows)@) == counts(old(rows)@).insert(
            location@,
            1 + if counts(old(rows)@).contains_key(location@) {
                counts(old(rows)@)[location@]
            } else {
                0
            },
        ),
{
    let (at, found) = find_row(rows, location.as_str());
    proof {
        lemma_counted_has_row(rows@, location@);
        lemma_precedes_is_strict(location@);
        if found {
            lemma_row_counts(rows@, at as int);
            lemma_row_updated(rows@, at as int, (location, (rows@[at as int].1 + 1) as u32));
        } else {
            lemma_row_inserted(rows@, at as int, (location, 1));
            lemma_insertion_keeps_order(rows@, at as int, (location, 1));
        }
    }
    if found {
        let n: u32 = rows[at].1;
        rows[at] = (location, n + 1);
    } else {
        rows.insert(at, (location, 1));
    }
}

/// Rows count no more than 32 bits hold.
proof fn lemma_counts_are_small(rows: Seq<(String, u32)>, location: Seq<char>)
    requires
        counts(rows).contains_key(location),
    ensures
        counts(rows)[location] <= u32::MAX,
    decreases rows.len(),
{
    if rows.len() > 0 && rows.last().0@ != location {
        lemma_counts_are_small(rows.drop_last(), location);
    }
}

/// Fewer samples find a thread at a location no more often.
proof fn lemma_fewer_samples(samples: Seq<(u64, Seq<char>)>, k: int, tid: u64, location: Seq<char>)
    requires
        0 <= k <= samples.len(),
    ensures
        occurrences(samples.take(k), tid, location) <= occurrences(samples, tid, location),
    decreases samples.len() - k,
{
    if k < samples.len() {
        assert(samples.take(k + 1).drop_last() =~= samples.take(k));
        lemma_fewer_samples(samples, k + 1, tid, location);
    } else {
        assert(samples.take(k) =~= samples);
    }
}

/// A sample that is among others occurs there.
proof fn lemma_occurs(samples: Seq<(u64, Seq<char>)>, tid: u64, location: Seq<char>)
    requires
        occurrences(samples, tid, location) > 0,
    ensures
        exists|i: int| 0 <= i < samples.len() && #[trigger] samples[i] == (tid, location),
    decreases samples.len(),
{
    let rest = samples.drop_last();
    if samples.last() == (tid, location) {
        assert(samples[samples.len() - 1] == (tid, location));
    } else {
        lemma_occurs(rest, tid, location);
        let i = choose|i: int| 0 <= i < rest.len() && #[trigger] rest[i] == (tid, location);
        assert(samples[i] == rest[i]);
    }
}

/// Whether a sleep location counts.
fn counts_as_parked(location: &String) -> (r: bool)
    ensures
        r == is_parked(location@),
{
    let chars = text::chars_of(location.as_str());
    assert(chars.len() == 1 && chars@[0] == '0' ==> chars@ =~= seq!['0']);
    chars.len() > 1 || (chars.len() == 1 && chars[0] != '0')
}

/// The text of a file, borrowed.
fn borrowed(text: &Option<String>) -> (r: Option<&str>)
    ensures
        proc_probe::contents(r) == match *text {
            Some(s) => s@,
            None => Seq::empty(),
        },
{
    match text {
        Some(s) => Some(s.as_str()),
        None => None,
    }
}

/// How often each thread was found asleep, by the location where.
pub struct WchanTally {
    rows: BTreeMap<u64, Vec<(String, u32)>>,
}

impl View for WchanTally {
    type V = Map<u64, Map<Seq<char>, nat>>;

    closed spec fn view(&self) -> Map<u64, Map<Seq<char>, nat>> {
        tally_of(self.rows@)
    }
}

impl WchanTally {
    /// The rows of every thread stand in order, one for each location.
    pub closed spec fn wf(self) -> bool {
        all_in_order(self.rows@)
    }

    /// A tally of no sample.
    pub fn new() -> (r: Self)
        ensures
            r.wf(),
            r@ == Map::<u64, Map<Seq<char>, nat>>::empty(),
    {
        let r = WchanTally { rows: BTreeMap::new() };
        assert(r@ =~= Map::empty());
        r
    }

    /// How often the thread was found at the location.
    pub fn count(&self, tid: u64, location: &str) -> (r: u32)
        requires
            self.wf(),
        ensures
            r == samples_at(self@, tid, location@),
    {
        match self.rows.get(&tid) {
            Some(rows) => {
                assert(self@.contains_key(tid) && self@[tid] == counts(rows@));
                let (at, found) = find_row(rows, location);
                proof {
                    lemma_counted_has_row(rows@, location@);
                    lemma_precedes_is_strict(location@);
                    if found {
                        lemma_row_counts(rows@, at as int);
                    }
                }
                if found {
                    rows[at].1
                } else {
                    0
                }
            },
            None => 0,
        }
    }

    /// Takes one sample: the text of the thread's wchan file, or `None` where it could not
    /// be read.
    pub fn sample(&mut self, tid: u64, text: Option<&str>)
        requires
            old(self).wf(),
            is_parked(text::trimmed(proc_probe::contents(text))) ==> samples_at(
                old(self)@,
                tid,
                text::trimmed(proc_probe::contents(text)),
            ) < u32::MAX,
        ensures
            final(self).wf(),
            final(self)@ == sampled(
                old(self)@,
                tid,
                text::trimmed(proc_probe::contents(text)),
            ),
    {
        let location = proc_probe::tid_wchan(text);
        if !counts_as_parked(&location) {
            return;
        }
        let ghost key = location@;
        let mut rows = match self.rows.remove(&tid) {
            Some(rows) => rows,
            None => Vec::new(),
        };
        assert(counts(rows@) =~= of_thread(old(self)@, tid));
        add_sample(&mut rows, location);
        self.rows.insert(tid, rows);
        assert(self@ =~= sampled(old(self)@, tid, key));
    }

    /// Whether every count still fits after a pass over the threads.
    pub fn pass_fits(&self, tids: &[u64], texts: &Vec<Option<String>>) -> (r: bool)
        requires
            self.wf(),
            tids.len() == texts.len(),
        ensures
            r == fits(self@, pass_samples(tids@, texts@)),
    {
        let ghost all = pass_samples(tids@, texts@);
        let n: usize = tids.len();
        let mut locations: Vec<String> = Vec::new();
        let mut i: usize = 0;
        while i < n
            invariant
                i <= n,
                n == tids.len(),
                n == texts.len(),
                all == pass_samples(tids@, texts@),
                locations.len() == i,
                forall|k: int| 0 <= k < i ==> (#[trigger] locations@[k])@ == all[k].1,
            decreases n - i,
        {
            locations.push(proc_probe::tid_wchan(borrowed(&texts[i])));
            i += 1;
        }
        i = 0;
        while i < n
            invariant
                i <= n,
                self.wf(),
                n == tids.len(),
                n == texts.len(),
                n == all.len(),
                all == pass_samples(tids@, texts@),
                locations.len() == n,
                forall|k: int| 0 <= k < n ==> (#[trigger] locations@[k])@ == all[k].1,
                forall|k: int|
                    #![trigger all[k]]
                    0 <= k < i && is_parked(all[k].1) ==> samples_at(self@, all[k].0, all[k].1)
                        + occurrences(all, all[k].0, all[k].1) <= u32::MAX,
            decreases n - i,
        {
            if counts_as_parked(&locations[i]) {
                let before: u32 = self.count(tids[i], locations[i].as_str());
                let mut more: usize = 0;
                let mut j: usize = 0;
                while j < n
                    invariant
                        i < n,
                        j <= n,
                        more <= j,
                        n == tids.len(),
                        n == all.len(),
                        all == pass_samples(tids@, texts@),
                        locations.len() == n,
                        forall|k: int| 0 <= k < n ==> (#[trigger] locations@[k])@ == all[k].1,
                        more == occurrences(all.take(j as int), all[i as int].0, all[i as int].1),
                    decreases n - j,
                {
                    assert(all.take(j + 1).drop_last() =~= all.take(j as int));
                    assert(all[j as int].0 == tids@[j as int]);
                    assert(locations@[j as int]@ == all[j as int].1);
                    assert(locations@[i as int]@ == all[i as int].1);
                    if tids[j] == tids[i] && locations[j] == locations[i] {
                        more += 1;
                    }
                    j += 1;
                }
                assert(all.take(j as int) =~= all);
                if before as u128 + more as u128 > u32::MAX as u128 {
                    proof {
                        let (tid, location) = all[i as int];
                        law_every_sample_counts_once(self@, all, tid, location);
                        assert(samples_at(sampled_all(self@, all), tid, location) > u32::MAX);
                    }
                    return false;
                }
            }
            i += 1;
        }
        proof {
            assert forall|tid: u64, location: Seq<char>| #[trigger]
                samples_at(sampled_all(self@, all), tid, location) <= u32::MAX by {
                law_every_sample_counts_once(self@, all, tid, location);
                if of_thread(self@, tid).contains_key(location) {
                    lemma_counts_are_small(self.rows@[tid]@, location);
                }
                if is_parked(location) && occurrences(all, tid, location) > 0 {
                    lemma_occurs(all, tid, location);
                }
            }
        }
        true
    }

    /// Takes the samples of one pass: one for each listed thread, a thread that is listed
    /// twice twice, and none for any other.
    pub fn sample_pass(&mut self, tids: &[u64], texts: &Vec<Option<String>>)
        requires
            old(self).wf(),
            tids.len() == texts.len(),
            fits(old(self)@, pass_samples(tids@, texts@)),
        ensures
            final(self).wf(),
            final(self)@ == sampled_all(old(self)@, pass_samples(tids@, texts@)),
    {
        let ghost all = pass_samples(tids@, texts@);
        let ghost start = self@;
        let mut i: usize = 0;
        while i < tids.len()
            invariant
                i <= tids.len(),
                tids.len() == texts.len(),
                tids.len() == all.len(),
                all == pass_samples(tids@, texts@),
                fits(start, all),
                self.wf(),
                self@ == sampled_all(start, all.take(i as int)),
            decreases tids.len() - i,
        {
            proof {
                let (tid, location) = all[i as int];
                assert(all.take(i + 1).drop_last() =~= all.take(i as int));
                lemma_fewer_samples(all, i + 1, tid, location);
                law_every_sample_counts_once(start, all, tid, location);
                law_every_sample_counts_once(start, all.take(i as int), tid, location);
                assert(samples_at(sampled_all(start, all), tid, location) <= u32::MAX);
            }
            self.sample(tids[i], borrowed(&texts[i]));
            i += 1;
        }
        assert(all.take(i as int) =~= all);
    }

    /// The tally as rows: for each thread with a sample that counts, the locations in
    /// dictionary order, each with its number of samples.
    pub fn into_rows(self) -> (r: BTreeMap<u64, Vec<(String, u32)>>)
        requires
            self.wf(),
        ensures
            tally_of(r@) == self@,
            all_in_order(r@),
    {
        self.rows
    }
}

// ---- laws ----

/// A run of samples adds to each count exactly the samples that found the thread at that
/// location asleep, and nothing for one on a CPU or runnable.
pub proof fn law_every_sample_counts_once(
    tally: Map<u64, Map<Seq<char>, nat>>,
    samples: Seq<(u64, Seq<char>)>,
    tid: u64,
    location: Seq<char>,
)
    ensures
        samples_at(sampled_all(tally, samples), tid, location) == samples_at(tally, tid, location)
            + if is_parked(location) {
            occurrences(samples, tid, location)
        } else {
            0
        },
    decreases samples.len(),
{
    if samples.len() > 0 {
        law_every_sample_counts_once(tally, samples.drop_last(), tid, location);
    }
}

/// A thread is in the tally of a run if and only if some sample found it asleep.
pub proof fn law_threads_in_the_tally(samples: Seq<(u64, Seq<char>)>, tid: u64)
    ensures
        sampled_all(Map::empty(), samples).contains_key(tid) <==> exists|i: int|
            0 <= i < samples.len() && (#[trigger] samples[i]).0 == tid && is_parked(samples[i].1),
    decreases samples.len(),
{
    if samples.len() > 0 {
        let rest = samples.drop_last();
        law_threads_in_the_tally(rest, tid);
        if sampled_all(Map::empty(), rest).contains_key(tid) {
            let i = choose|i: int|
                0 <= i < rest.len() && (#[trigger] rest[i]).0 == tid && is_parked(rest[i].1);
            assert(samples[i] == rest[i]);
        }
        assert(samples[samples.len() - 1] == samples.last());
        assert forall|i: int|
            0 <= i < samples.len() && (#[trigger] samples[i]).0 == tid && is_parked(
                samples[i].1,
            ) implies sampled_all(Map::empty(), samples).contains_key(tid) by {
            if i < rest.len() {
                assert(rest[i] == samples[i]);
            }
        }
    }
}

/// The tally after passes over the same list of threads, each with what was read.
pub open spec fn sampled_passes(
    tally: Map<u64, Map<Seq<char>, nat>>,
    tids: Seq<u64>,
    passes: Seq<Seq<Option<String>>>,
) -> Map<u64, Map<Seq<char>, nat>>
    decreases passes.len(),
{
    if passes.len() == 0 {
        tally
    } else {
        sampled_all(
            sampled_passes(tally, tids, passes.drop_last()),
            pass_samples(tids, passes.last()),
        )
    }
}

/// How often a thread is on the list.
pub open spec fn times_listed(tids: Seq<u64>, tid: u64) -> nat
    decreases tids.len(),
{
    if tids.len() == 0 {
        0
    } else {
        times_listed(tids.drop_last(), tid) + if tids.last() == tid {
            1nat
        } else {
            0
        }
    }
}

/// How many of the samples are of the thread.
pub open spec fn samples_of(samples: Seq<(u64, Seq<char>)>, tid: u64) -> nat
    decreases samples.len(),
{
    if samples.len() == 0 {
        0
    } else {
        samples_of(samples.drop_last(), tid) + if samples.last().0 == tid {
            1nat
        } else {
            0
        }
    }
}

/// A pass samples each thread as often as it is listed: once if it is listed once, and not
/// at all if it is not.
pub proof fn law_pass_samples_each_listed_thread(
    tids: Seq<u64>,
    texts: Seq<Option<String>>,
    tid: u64,
)
    ensures
        samples_of(pass_samples(tids, texts), tid) == times_listed(tids, tid),
    decreases tids.len(),
{
    if tids.len() > 0 {
        law_pass_samples_each_listed_thread(tids.drop_last(), texts, tid);
        assert(pass_samples(tids, texts).drop_last() =~= pass_samples(tids.drop_last(), texts));
    }
}

proof fn lemma_occurrences_are_samples(
    samples: Seq<(u64, Seq<char>)>,
    tid: u64,
    location: Seq<char>,
)
    ensures
        occurrences(samples, tid, location) <= samples_of(samples, tid),
    decreases samples.len(),
{
    if samples.len() > 0 {
        lemma_occurrences_are_samples(samples.drop_last(), tid, location);
    }
}

/// No location of a thread is counted more often than the thread was polled: the number of
/// passes, times how often it is listed.
pub proof fn law_counts_stay_within_the_passes(
    tids: Seq<u64>,
    passes: Seq<Seq<Option<String>>>,
    tid: u64,
    location: Seq<char>,
)
    ensures
        samples_at(sampled_passes(Map::empty(), tids, passes), tid, location) <= passes.len()
            * times_listed(tids, tid),
    decreases passes.len(),
{
    if passes.len() > 0 {
        let rest = passes.drop_last();
        let last = pass_samples(tids, passes.last());
        law_counts_stay_within_the_passes(tids, rest, tid, location);
        law_every_sample_counts_once(
            sampled_passes(Map::empty(), tids, rest),
            last,
            tid,
            location,
        );
        lemma_occurrences_are_samples(last, tid, location);
        law_pass_samples_each_listed_thread(tids, passes.last(), tid);
        let n = times_listed(tids, tid);
        assert(passes.len() * n == rest.len() * n + n) by (nonlinear_arith)
            requires
                passes.len() == rest.len() + 1,
        ;
    }
}

proof fn lemma_thread_was_sampled(
    tally: Map<u64, Map<Seq<char>, nat>>,
    samples: Seq<(u64, Seq<char>)>,
    tid: u64,
)
    requires
        sampled_all(tally, samples).contains_key(tid),
        !tally.contains_key(tid),
    ensures
        exists|i: int| 0 <= i < samples.len() && (#[trigger] samples[i]).0 == tid,
    decreases samples.len(),
{
    if samples.len() > 0 {
        let rest = samples.drop_last();
        if samples.last().0 == tid {
            assert(samples[samples.len() - 1].0 == tid);
        } else {
            lemma_thread_was_sampled(tally, rest, tid);
            let i = choose|i: int| 0 <= i < rest.len() && (#[trigger] rest[i]).0 == tid;
            assert(samples[i] == rest[i]);
        }
    }
}

/// Every thread in the tally of a run is one of the listed threads.
pub proof fn law_only_listed_threads_are_tallied(
    tids: Seq<u64>,
    passes: Seq<Seq<Option<String>>>,
    tid: u64,
)
    requires
        sampled_passes(Map::empty(), tids, passes).contains_key(tid),
    ensures
        tids.contains(tid),
    decreases passes.len(),
{
    if passes.len() > 0 {
        let before = sampled_passes(Map::empty(), tids, passes.drop_last());
        if before.contains_key(tid) {
            law_only_listed_threads_are_tallied(tids, passes.drop_last(), tid);
        } else {
            let last = pass_samples(tids, passes.last());
            lemma_thread_was_sampled(before, last, tid);
            let i = choose|i: int| 0 <= i < last.len() && (#[trigger] last[i]).0 == tid;
            assert(tids[i] == tid);
        }
    }
}

/// Which samples count, by their text alone: any location but an empty one and `0` makes the
/// count of that thread there one higher, and touches no other count; those two leave the
/// whole tally as it was.
pub proof fn law_sample_counts_any_location(
    tally: Map<u64, Map<Seq<char>, nat>>,
    tid: u64,
    location: Seq<char>,
    other_tid: u64,
    other: Seq<char>,
)
    ensures
        location == Seq::<char>::empty() || location == seq!['0'] ==> sampled(
            tally,
            tid,
            location,
        ) == tally,
        location != Seq::<char>::empty() && location != seq!['0'] ==> {
            &&& samples_at(sampled(tally, tid, location), tid, location) == samples_at(
                tally,
                tid,
                location,
            ) + 1
            &&& (other_tid != tid || other != location) ==> samples_at(
                sampled(tally, tid, location),
                other_tid,
                other,
            ) == samples_at(tally, other_tid, other)
            &&& sampled(tally, tid, location).contains_key(other_tid) <==> other_tid == tid
                || tally.contains_key(other_tid)
        },
{
    if location.len() == 0 {
        assert(location =~= Seq::empty());
    }
}

/// Nothing is counted in an empty tally.
pub proof fn law_empty_tally_counts_nothing(tid: u64, location: Seq<char>)
    ensures
        samples_at(Map::empty(), tid, location) == 0,
{
}

/// A pass goes thread by thread to the end of its list: with one thread more, it is the
/// shorter pass and then one sample of that thread, of the trimmed text of its file, or of
/// nothing where that could not be read. Over no thread it changes nothing.
pub proof fn law_pass_goes_thread_by_thread(
    tally: Map<u64, Map<Seq<char>, nat>>,
    tids: Seq<u64>,
    texts: Seq<Option<String>>,
    tid: u64,
    text: Option<String>,
)
    requires
        tids.len() == texts.len(),
    ensures
        sampled_all(tally, pass_samples(Seq::empty(), Seq::empty())) == tally,
        text matches Some(s) ==> sampled_all(
            tally,
            pass_samples(tids.push(tid), texts.push(text)),
        ) == sampled(sampled_all(tally, pass_samples(tids, texts)), tid, text::trimmed(s@)),
        text is None ==> sampled_all(tally, pass_samples(tids.push(tid), texts.push(text)))
            == sampled(sampled_all(tally, pass_samples(tids, texts)), tid, Seq::empty()),
{
    let longer = pass_samples(tids.push(tid), texts.push(text));
    assert(longer.drop_last() =~= pass_samples(tids, texts));
    proc_probe::law_nothing_reads_as_zero();
}

/// The count of a thread at a location after more samples: what it was, and one for each
/// sample that found the thread there, unless the location is an empty one or `0`.
pub open spec fn count_after(
    tally: Map<u64, Map<Seq<char>, nat>>,
    samples: Seq<(u64, Seq<char>)>,
    tid: u64,
    location: Seq<char>,
) -> nat {
    if location.len() == 0 || location == seq!['0'] {
        samples_at(tally, tid, location)
    } else {
        samples_at(tally, tid, location) + occurrences(samples, tid, location)
    }
}

/// Samples fit if and only if no count after them is more than 32 bits hold.
pub proof fn law_samples_fit_by_their_counts(
    tally: Map<u64, Map<Seq<char>, nat>>,
    samples: Seq<(u64, Seq<char>)>,
)
    ensures
        fits(tally, samples) <==> forall|tid: u64, location: Seq<char>| #[trigger]
            count_after(tally, samples, tid, location) <= u32::MAX,
{
    let after = sampled_all(tally, samples);
    if fits(tally, samples) {
        assert forall|tid: u64, location: Seq<char>| #[trigger]
            count_after(tally, samples, tid, location) <= u32::MAX by {
            law_every_sample_counts_once(tally, samples, tid, location);
            assert(samples_at(after, tid, location) <= u32::MAX);
        }
    }
    if forall|tid: u64, location: Seq<char>| #[trigger]
        count_after(tally, samples, tid, location) <= u32::MAX {
        assert forall|tid: u64, location: Seq<char>| #[trigger]
            samples_at(after, tid, location) <= u32::MAX by {
            law_every_sample_counts_once(tally, samples, tid, location);
            assert(count_after(tally, samples, tid, location) <= u32::MAX);
        }
    }
}

/// The rows say what the counts are: each row holds the count of its location, and every
/// location with a count has a row.
pub proof fn law_rows_hold_the_counts(
    rows: Map<u64, Vec<(String, u32)>>,
    tid: u64,
    i: int,
    location: Seq<char>,
)
    requires
        all_in_order(rows),
        rows.contains_key(tid),
    ensures
        tally_of(rows).contains_key(tid),
        0 <= i < rows[tid].len() ==> samples_at(tally_of(rows), tid, rows[tid]@[i].0@)
            == rows[tid]@[i].1,
        samples_at(tally_of(rows), tid, location) > 0 ==> exists|k: int|
            0 <= k < rows[tid].len() && (#[trigger] rows[tid]@[k]).0@ == location,
{
    assert(tally_of(rows)[tid] == counts(rows[tid]@));
    if 0 <= i < rows[tid].len() {
        lemma_row_counts(rows[tid]@, i);
    }
    lemma_counted_has_row(rows[tid]@, location);
}

/// Rows of a thread come in dictionary order of their locations, and no location twice.
pub proof fn law_rows_come_in_order(
    rows: Map<u64, Vec<(String, u32)>>,
    tid: u64,
    i: int,
    j: int,
)
    requires
        all_in_order(rows),
        rows.contains_key(tid),
        0 <= i < j < rows[tid].len(),
    ensures
        precedes(rows[tid]@[i].0@, rows[tid]@[j].0@),
        rows[tid]@[i].0@ != rows[tid]@[j].0@,
{
    lemma_precedes_is_strict(rows[tid]@[i].0@);
}

/// Dictionary order goes by the first character that differs, or, where none does, by
/// length: what a text starts with comes before it.
pub proof fn law_dictionary_order(start: Seq<char>, a: Seq<char>, b: Seq<char>)
    requires
        a.len() == 0 || b.len() == 0 || a[0] != b[0],
    ensures
        precedes(start + a, start + b) <==> b.len() > 0 && (a.len() == 0 || a[0] < b[0]),
    decreases start.len(),
{
    if start.len() == 0 {
        assert(start + a =~= a);
        assert(start + b =~= b);
    } else {
        law_dictionary_order(start.drop_first(), a, b);
        assert((start + a).drop_first() =~= start.drop_first() + a);
        assert((start + b).drop_first() =~= start.drop_first() + b);
    }
}

} // verus!
