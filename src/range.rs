//! Range queries over the newest-first stream of samples.
//!
//! A query walks the stream from the newest sample. It passes over the
//! samples taken at or after `start` (when `start` is not 0), then over
//! `offset` more, then takes up to `count` samples, and stops early at the
//! first sample taken before `end` (when `end` is not 0).
use vstd::prelude::*;
use crate::record::{parse, records, Ping};

verus! {

/// The parameters of a range query.
#[derive(Clone, Copy, Debug, PartialEq, Eq, Structural)]
pub struct RangeQuery {
    pub offset: usize,
    pub count: usize,
    pub start: i64,
    pub end: i64,
}

impl RangeQuery {
    /// A query's time bounds are given newest first: `start` is not before
    /// `end` where both are set.
    pub open spec fn valid(self) -> bool {
        self.start != 0 && self.end != 0 ==> self.start >= self.end
    }
}

/// The sample was taken at or after the start of the query.
pub open spec fn is_newer(p: Ping, start: i64) -> bool {
    start != 0 && p.time >= start
}

/// The sample was taken before the end of the query.
pub open spec fn is_older(p: Ping, end: i64) -> bool {
    end != 0 && p.time < end
}

/// The first index at or after `i` of a sample that is not newer than
/// `start`, or the length where there is none.
pub open spec fn first_not_newer(s: Seq<Ping>, start: i64, i: int) -> int
    decreases s.len() - i,
{
    if i >= s.len() {
        s.len() as int
    } else if !is_newer(s[i], start) {
        i
    } else {
        first_not_newer(s, start, i + 1)
    }
}

/// The first index at or after `i` of a sample older than `end`, or the
/// length where there is none.
pub open spec fn first_older(s: Seq<Ping>, end: i64, i: int) -> int
    decreases s.len() - i,
{
    if i >= s.len() {
        s.len() as int
    } else if is_older(s[i], end) {
        i
    } else {
        first_older(s, end, i + 1)
    }
}

pub open spec fn min(a: int, b: int) -> int {
    if a <= b {
        a
    } else {
        b
    }
}

/// Where the selection of a query begins in `s`.
pub open spec fn selection_start(s: Seq<Ping>, q: RangeQuery) -> int {
    min(first_not_newer(s, q.start, 0) + q.offset, s.len() as int)
}

/// Where the selection of a query would end in `s` without its end time.
pub open spec fn selection_limit(s: Seq<Ping>, q: RangeQuery) -> int {
    min(selection_start(s, q) + q.count, s.len() as int)
}

/// Where the selection of a query ends in `s`.
pub open spec fn selection_end(s: Seq<Ping>, q: RangeQuery) -> int {
    min(first_older(s, q.end, selection_start(s, q)), selection_limit(s, q))
}

/// The samples of the newest-first stream `s` that a query selects.
pub open spec fn select(s: Seq<Ping>, q: RangeQuery) -> Seq<Ping> {
    s.subrange(selection_start(s, q), selection_end(s, q))
}

/// Whether the selection from `s` is final: no sample after those of `s`
/// can join it, because it holds `count` samples or a sample before `end`
/// has been met.
pub open spec fn selection_closed(s: Seq<Ping>, q: RangeQuery) -> bool {
    select(s, q).len() == q.count || first_older(s, q.end, selection_start(s, q))
        < selection_limit(s, q)
}

/// The samples of a set of log files, newest first, from their texts in
/// chronological order.
pub open spec fn log_stream(texts: Seq<Seq<char>>) -> Seq<Ping>
    decreases texts.len(),
{
    if texts.len() == 0 {
        seq![]
    } else {
        records(texts.last()).reverse() + log_stream(texts.drop_last())
    }
}

/// The texts of a set of log files.
pub open spec fn texts_of(files: Seq<String>) -> Seq<Seq<char>> {
    files.map_values(|f: String| f@)
}

pub proof fn lemma_first_not_newer_bounds(s: Seq<Ping>, start: i64, i: int)
    requires
        0 <= i <= s.len(),
    ensures
        i <= first_not_newer(s, start, i) <= s.len(),
        first_not_newer(s, start, i) < s.len() ==> !is_newer(
            s[first_not_newer(s, start, i)],
            start,
        ),
        forall|j: int| i <= j < first_not_newer(s, start, i) ==> is_newer(#[trigger] s[j], start),
    decreases s.len() - i,
{
    if i < s.len() && is_newer(s[i], start) {
        lemma_first_not_newer_bounds(s, start, i + 1);
    }
}

pub proof fn lemma_first_not_newer_is(s: Seq<Ping>, start: i64, i: int, k: int)
    requires
        0 <= i <= k <= s.len(),
        forall|j: int| i <= j < k ==> is_newer(#[trigger] s[j], start),
        k == s.len() || !is_newer(s[k], start),
    ensures
        first_not_newer(s, start, i) == k,
    decreases k - i,
{
    if i < k {
        lemma_first_not_newer_is(s, start, i + 1, k);
    }
}

pub proof fn lemma_first_older_bounds(s: Seq<Ping>, end: i64, i: int)
    requires
        0 <= i <= s.len(),
    ensures
        i <= first_older(s, end, i) <= s.len(),
        first_older(s, end, i) < s.len() ==> is_older(s[first_older(s, end, i)], end),
        forall|j: int| i <= j < first_older(s, end, i) ==> !is_older(#[trigger] s[j], end),
    decreases s.len() - i,
{
    if i < s.len() && !is_older(s[i], end) {
        lemma_first_older_bounds(s, end, i + 1);
    }
}

pub proof fn lemma_first_older_is(s: Seq<Ping>, end: i64, i: int, k: int)
    requires
        0 <= i <= k <= s.len(),
        forall|j: int| i <= j < k ==> !is_older(#[trigger] s[j], end),
        k == s.len() || is_older(s[k], end),
    ensures
        first_older(s, end, i) == k,
    decreases k - i,
{
    if i < k {
        lemma_first_older_is(s, end, i + 1, k);
    }
}

/// How the first-index searches change when one sample is added at the end.
proof fn lemma_search_push(s: Seq<Ping>, p: Ping, q: RangeQuery, i: int)
    requires
        0 <= i <= s.len(),
    ensures
        first_not_newer(s, q.start, i) < s.len() ==> first_not_newer(s.push(p), q.start, i)
            == first_not_newer(s, q.start, i),
        first_not_newer(s, q.start, i) == s.len() ==> first_not_newer(s.push(p), q.start, i)
            == if is_newer(p, q.start) {
            s.len() as int + 1
        } else {
            s.len() as int
        },
        first_older(s, q.end, i) < s.len() ==> first_older(s.push(p), q.end, i) == first_older(
            s,
            q.end,
            i,
        ),
        first_older(s, q.end, i) == s.len() ==> first_older(s.push(p), q.end, i) == if is_older(
            p,
            q.end,
        ) {
            s.len() as int
        } else {
            s.len() as int + 1
        },
{
    let t = s.push(p);
    lemma_first_not_newer_bounds(s, q.start, i);
    lemma_first_older_bounds(s, q.end, i);
    let a = first_not_newer(s, q.start, i);
    assert forall|j: int| i <= j < a implies is_newer(#[trigger] t[j], q.start) by {
        assert(t[j] == s[j]);
        assert(is_newer(s[j], q.start));
    }
    if a < s.len() {
        assert(t[a] == s[a]);
        lemma_first_not_newer_is(t, q.start, i, a);
    } else if is_newer(p, q.start) {
        lemma_first_not_newer_is(t, q.start, i, s.len() as int + 1);
    } else {
        lemma_first_not_newer_is(t, q.start, i, s.len() as int);
    }
    let b = first_older(s, q.end, i);
    assert forall|j: int| i <= j < b implies !is_older(#[trigger] t[j], q.end) by {
        assert(t[j] == s[j]);
        assert(!is_older(s[j], q.end));
    }
    if b < s.len() {
        assert(t[b] == s[b]);
        lemma_first_older_is(t, q.end, i, b);
    } else if is_older(p, q.end) {
        lemma_first_older_is(t, q.end, i, s.len() as int);
    } else {
        lemma_first_older_is(t, q.end, i, s.len() as int + 1);
    }
}

/// A closed selection stays as it is when one more sample comes.
proof fn lemma_closed_push(s: Seq<Ping>, p: Ping, q: RangeQuery)
    requires
        selection_closed(s, q),
    ensures
        selection_closed(s.push(p), q),
        select(s.push(p), q) == select(s, q),
        (first_older(s.push(p), q.end, selection_start(s.push(p), q)) < selection_limit(
            s.push(p),
            q,
        )) == (first_older(s, q.end, selection_start(s, q)) < selection_limit(s, q)),
{
    let t = s.push(p);
    let len = s.len() as int;
    lemma_first_not_newer_bounds(s, q.start, 0);
    let a0 = first_not_newer(s, q.start, 0);
    let a = selection_start(s, q);
    lemma_first_older_bounds(s, q.end, a);
    let fo = first_older(s, q.end, a);
    let b0 = selection_limit(s, q);
    lemma_search_push(s, p, q, 0);
    lemma_selection_bounds(s, q);
    lemma_selection_bounds(t, q);
    if q.count == 0 {
        assert(select(t, q) =~= seq![]);
        assert(select(s, q) =~= seq![]);
    } else {
        // The selection is not empty, or it was cut short by an older sample:
        // either way it began before the end of `s`.
        assert(a < len);
        assert(a0 < len);
        assert(selection_start(t, q) == a);
        lemma_search_push(s, p, q, a);
        assert(select(t, q) =~= select(s, q));
    }
}

/// A closed selection stays as it is whatever samples follow: a reader may
/// stop reading older files once its selection is closed.
pub proof fn lemma_closed_selection_final(s: Seq<Ping>, more: Seq<Ping>, q: RangeQuery)
    requires
        selection_closed(s, q),
    ensures
        selection_closed(s + more, q),
        select(s + more, q) == select(s, q),
    decreases more.len(),
{
    if more.len() == 0 {
        assert(s + more =~= s);
    } else {
        let init = more.drop_last();
        lemma_closed_selection_final(s, init, q);
        lemma_closed_push(s + init, more.last(), q);
        assert((s + init).push(more.last()) =~= s + more);
    }
}

/// A selection holds at most `count` samples, and they stand in it in the
/// order of the stream, one after the other: where the stream is strictly
/// newest first, so is every selection from it.
pub proof fn lemma_selection_ordered(s: Seq<Ping>, q: RangeQuery)
    requires
        forall|i: int, j: int| 0 <= i < j < s.len() ==> s[i].time > s[j].time,
    ensures
        select(s, q).len() <= q.count,
        forall|i: int, j: int|
            0 <= i < j < select(s, q).len() ==> select(s, q)[i].time > select(s, q)[j].time,
{
    lemma_selection_bounds(s, q);
    let a = selection_start(s, q);
    let r = select(s, q);
    assert forall|i: int, j: int| 0 <= i < j < r.len() implies r[i].time > r[j].time by {
        assert(r[i] == s[a + i]);
        assert(r[j] == s[a + j]);
    }
}

/// Samples in strictly increasing time.
pub open spec fn ascending(s: Seq<Ping>) -> bool {
    forall|i: int, j: int| 0 <= i < j < s.len() ==> s[i].time < s[j].time
}

/// Samples in strictly decreasing time.
pub open spec fn descending(s: Seq<Ping>) -> bool {
    forall|i: int, j: int| 0 <= i < j < s.len() ==> s[i].time > s[j].time
}

/// Log files as the writer leaves them: each in increasing time, and every
/// sample of a file older than every sample of a later one.
pub open spec fn logs_in_order(texts: Seq<Seq<char>>) -> bool {
    &&& forall|i: int| 0 <= i < texts.len() ==> ascending(#[trigger] records(texts[i]))
    &&& forall|i: int, j: int, a: int, b: int|
        0 <= i < j < texts.len() && 0 <= a < records(texts[i]).len() && 0 <= b < records(
            texts[j],
        ).len() ==> (#[trigger] records(texts[i])[a]).time < (#[trigger] records(texts[j])[b]).time
}

/// Every sample of the stream of a set of files lies below a bound that all
/// samples of the files lie below.
proof fn lemma_log_stream_below(texts: Seq<Seq<char>>, bound: int)
    requires
        forall|i: int, a: int|
            0 <= i < texts.len() && 0 <= a < records(texts[i]).len() ==> (#[trigger] records(
                texts[i],
            )[a]).time < bound,
    ensures
        forall|k: int| 0 <= k < log_stream(texts).len() ==> (#[trigger] log_stream(texts)[k]).time < bound,
    decreases texts.len(),
{
    if texts.len() > 0 {
        let init = texts.drop_last();
        assert forall|i: int, a: int|
            0 <= i < init.len() && 0 <= a < records(init[i]).len() implies (#[trigger] records(
                init[i],
            )[a]).time < bound by {
            assert(init[i] == texts[i]);
        }
        lemma_log_stream_below(init, bound);
        let last = records(texts.last()).reverse();
        let rest = log_stream(init);
        assert forall|k: int| 0 <= k < log_stream(texts).len() implies (#[trigger] log_stream(
            texts,
        )[k]).time < bound by {
            if k < last.len() {
                let n = records(texts.last()).len();
                assert(log_stream(texts)[k] == records(texts[texts.len() - 1])[n - 1 - k]);
            } else {
                assert(log_stream(texts)[k] == rest[k - last.len()]);
            }
        }
    }
}

/// Log files in order give a stream in strictly decreasing time, so every
/// range query over them returns its samples strictly newest first.
pub proof fn lemma_ordered_logs_select_descending(texts: Seq<Seq<char>>, q: RangeQuery)
    requires
        logs_in_order(texts),
    ensures
        descending(log_stream(texts)),
        descending(select(log_stream(texts), q)),
        select(log_stream(texts), q).len() <= q.count,
{
    lemma_log_stream_descending(texts);
    lemma_selection_ordered(log_stream(texts), q);
}

proof fn lemma_log_stream_descending(texts: Seq<Seq<char>>)
    requires
        logs_in_order(texts),
    ensures
        descending(log_stream(texts)),
    decreases texts.len(),
{
    if texts.len() > 0 {
        let m = texts.len() - 1;
        let init = texts.drop_last();
        assert(logs_in_order(init)) by {
            assert forall|i: int| 0 <= i < init.len() implies ascending(
                #[trigger] records(init[i]),
            ) by {
                assert(init[i] == texts[i]);
                assert(ascending(records(texts[i])));
            }
            assert forall|i: int, j: int, a: int, b: int|
                0 <= i < j < init.len() && 0 <= a < records(init[i]).len() && 0 <= b < records(
                    init[j],
                ).len() implies (#[trigger] records(init[i])[a]).time < (#[trigger] records(
                init[j],
            )[b]).time by {
                assert(init[i] == texts[i]);
                assert(init[j] == texts[j]);
            }
        }
        lemma_log_stream_descending(init);
        let f = records(texts[m]);
        assert(ascending(f));
        let last = f.reverse();
        let rest = log_stream(init);
        assert(texts.last() == texts[m]);
        if f.len() > 0 {
            let bound = f[0].time as int;
            assert forall|i: int, a: int|
                0 <= i < init.len() && 0 <= a < records(init[i]).len() implies (#[trigger] records(
                    init[i],
                )[a]).time < bound by {
                assert(init[i] == texts[i]);
                assert(records(texts[i])[a].time < records(texts[m])[0].time);
            }
            lemma_log_stream_below(init, bound);
        }
        let all = log_stream(texts);
        assert(all == last + rest);
        assert forall|i: int, j: int| 0 <= i < j < all.len() implies all[i].time > all[j].time by {
            if j < last.len() {
                assert(all[i] == f[f.len() - 1 - i]);
                assert(all[j] == f[f.len() - 1 - j]);
            } else if i < last.len() {
                assert(all[i] == f[f.len() - 1 - i]);
                assert(all[j] == rest[j - last.len()]);
                assert(f[0].time <= f[f.len() - 1 - i].time);
            } else {
                assert(all[i] == rest[i - last.len()]);
                assert(all[j] == rest[j - last.len()]);
            }
        }
    }
}

proof fn lemma_selection_bounds(s: Seq<Ping>, q: RangeQuery)
    ensures
        0 <= selection_start(s, q) <= selection_end(s, q) <= selection_limit(s, q) <= s.len(),
        selection_limit(s, q) <= selection_start(s, q) + q.count,
{
    lemma_first_not_newer_bounds(s, q.start, 0);
    lemma_first_older_bounds(s, q.end, selection_start(s, q));
}

/// A range query in progress over a newest-first stream that is handed to
/// it piece by piece.
pub struct RangeReader {
    query: RangeQuery,
    /// Every sample so far was newer than the start of the query.
    skipping_newer: bool,
    /// How many samples of the offset have been passed over.
    skipped: usize,
    taken: Vec<Ping>,
    /// A sample older than the end of the query has been met.
    stopped: bool,
    seen: Ghost<Seq<Ping>>,
}

impl RangeReader {
    /// The samples handed to the reader so far, newest first.
    pub closed spec fn seen(&self) -> Seq<Ping> {
        self.seen@
    }

    pub closed spec fn query(&self) -> RangeQuery {
        self.query
    }

    pub closed spec fn wf(&self) -> bool {
        let s = self.seen@;
        let q = self.query;
        let len = s.len() as int;
        let a0 = first_not_newer(s, q.start, 0);
        &&& self.taken@ == select(s, q)
        &&& self.stopped == (first_older(s, q.end, selection_start(s, q)) < selection_limit(s, q))
        &&& !self.is_closed() ==> {
            &&& self.skipping_newer == (a0 == len)
            &&& self.skipping_newer ==> self.skipped == 0
            &&& !self.skipping_newer ==> self.skipped == min(q.offset as int, len - a0)
        }
    }

    pub closed spec fn is_closed(&self) -> bool {
        self.taken@.len() == self.query.count || self.stopped
    }

    /// A reader for the given query that has seen nothing yet.
    pub fn new(offset: usize, count: usize, start: i64, end: i64) -> (r: RangeReader)
        ensures
            r.wf(),
            r.seen() == Seq::<Ping>::empty(),
            r.query() == (RangeQuery { offset, count, start, end }),
    {
        let r = RangeReader {
            query: RangeQuery { offset, count, start, end },
            skipping_newer: true,
            skipped: 0,
            taken: Vec::new(),
            stopped: false,
            seen: Ghost(Seq::empty()),
        };
        assert(r.taken@ =~= select(r.seen@, r.query));
        r
    }

    /// Whether the selection is final: no sample handed in later can change
    /// it.
    pub fn is_done(&self) -> (r: bool)
        requires
            self.wf(),
        ensures
            r == selection_closed(self.seen(), self.query()),
    {
        self.taken.len() == self.query.count || self.stopped
    }

    /// Which of `n_files` log files, in chronological order, to hand in next
    /// once `fed` of them have been handed in newest first: the next older
    /// one, or `None` where the selection is final or every file was read.
    pub fn next_file(&self, n_files: usize, fed: usize) -> (r: Option<usize>)
        requires
            self.wf(),
        ensures
            r == if selection_closed(self.seen(), self.query()) || fed >= n_files {
                None::<usize>
            } else {
                Some((n_files - 1 - fed) as usize)
            },
    {
        if self.is_done() || fed >= n_files {
            None
        } else {
            Some(n_files - 1 - fed)
        }
    }

    /// The samples selected from what the reader has seen, newest first.
    pub fn selected(&self) -> (r: Vec<Ping>)
        requires
            self.wf(),
        ensures
            r@ == select(self.seen(), self.query()),
    {
        self.taken.clone()
    }

    /// Hands the next sample of the stream to the reader.
    pub fn push(&mut self, p: Ping)
        requires
            old(self).wf(),
        ensures
            final(self).wf(),
            final(self).seen() == old(self).seen().push(p),
            final(self).query() == old(self).query(),
    {
        let ghost s = self.seen@;
        let ghost q = self.query;
        let ghost t = s.push(p);
        proof {
            lemma_search_push(s, p, q, 0);
            lemma_first_not_newer_bounds(s, q.start, 0);
            lemma_selection_bounds(s, q);
        }
        if self.taken.len() == self.query.count || self.stopped {
            proof {
                lemma_closed_push(s, p, q);
                self.seen = Ghost(t);
            }
            return;
        }
        let start = self.query.start;
        if self.skipping_newer {
            if start != 0 && p.time >= start {
                proof {
                    self.seen = Ghost(t);
                    assert(self.taken@ =~= select(t, q));
                    lemma_first_older_is(t, q.end, t.len() as int, t.len() as int);
                }
                return;
            }
            self.skipping_newer = false;
        }
        if self.skipped < self.query.offset {
            self.skipped = self.skipped + 1;
            proof {
                self.seen = Ghost(t);
                assert(self.taken@ =~= select(t, q));
                lemma_first_older_is(t, q.end, t.len() as int, t.len() as int);
            }
            return;
        }
        let end = self.query.end;
        let ghost a = selection_start(s, q);
        proof {
            lemma_first_older_bounds(s, q.end, a);
            lemma_search_push(s, p, q, a);
            assert(selection_start(t, q) == a);
        }
        if end == 0 || p.time >= end {
            self.taken.push(p);
        } else {
            self.stopped = true;
        }
        proof {
            self.seen = Ghost(t);
            assert(self.taken@ =~= select(t, q));
        }
    }

    /// Hands the next samples of the stream to the reader, newest first.
    pub fn feed(&mut self, samples: &Vec<Ping>)
        requires
            old(self).wf(),
        ensures
            final(self).wf(),
            final(self).seen() == old(self).seen() + samples@,
            final(self).query() == old(self).query(),
    {
        let mut i: usize = 0;
        while i < samples.len()
            invariant
                i <= samples@.len(),
                self.wf(),
                self.seen() == old(self).seen() + samples@.take(i as int),
                self.query() == old(self).query(),
            decreases samples@.len() - i,
        {
            self.push(samples[i]);
            assert(samples@.take(i + 1) =~= samples@.take(i as int).push(samples@[i as int]));
            i = i + 1;
        }
        assert(samples@.take(i as int) =~= samples@);
    }

    /// Hands the samples of one more log file to the reader: the file that
    /// precedes, in time, those handed in before.
    pub fn feed_text(&mut self, text: &str)
        requires
            old(self).wf(),
        ensures
            final(self).wf(),
            final(self).seen() == old(self).seen() + records(text@).reverse(),
            final(self).query() == old(self).query(),
    {
        let samples = parse(text);
        self.feed(&samples);
    }
}

/// The samples that a range query selects from a set of log files, newest
/// first; `files` holds the texts of the files in chronological order.
pub fn read_log(files: &Vec<String>, offset: usize, count: usize, start: i64, end: i64) -> (r: Vec<
    Ping,
>)
    requires
        (RangeQuery { offset, count, start, end }).valid(),
    ensures
        r@ == select(log_stream(texts_of(files@)), RangeQuery { offset, count, start, end }),
{
    let mut reader = RangeReader::new(offset, count, start, end);
    let ghost texts = texts_of(files@);
    let ghost q = RangeQuery { offset, count, start, end };
    let mut i: usize = files.len();
    assert(texts.take(i as int) =~= texts);
    assert(log_stream(texts) =~= reader.seen() + log_stream(texts.take(i as int)));
    if i == 0 {
        assert(log_stream(texts) =~= reader.seen());
    }
    while i > 0
        invariant_except_break
            i <= files@.len(),
            texts == texts_of(files@),
            reader.wf(),
            reader.query() == q,
            log_stream(texts) == reader.seen() + log_stream(texts.take(i as int)),
            i == 0 ==> log_stream(texts) == reader.seen(),
        ensures
            reader.wf(),
            reader.query() == q,
            select(reader.seen(), q) == select(log_stream(texts), q),
        decreases i,
    {
        if reader.is_done() {
            proof {
                lemma_closed_selection_final(reader.seen(), log_stream(texts.take(i as int)), q);
            }
            break;
        }
        reader.feed_text(files[i - 1].as_str());
        proof {
            let rest = texts.take(i as int);
            assert(rest.drop_last() =~= texts.take(i - 1));
            assert(rest.last() == files@[i - 1]@);
            assert(log_stream(rest) == records(rest.last()).reverse() + log_stream(rest.drop_last()));
            assert(log_stream(texts) =~= reader.seen() + log_stream(texts.take(i - 1)));
            if i == 1 {
                assert(texts.take(0) =~= Seq::<Seq<char>>::empty());
                assert(log_stream(texts) =~= reader.seen());
            }
        }
        i = i - 1;
    }
    reader.selected()
}

} // verus!
