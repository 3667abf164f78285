//! The hourly history of a newest-first run of samples.
//!
//! The history is a gapless grid of one-hour windows, newest first. The
//! first window is the hour of the first (newest) sample; it is labelled
//! with its upper boundary, so a window labelled `t` covers `[t - 3600, t)`.
//! Each following window is one hour earlier. A sample joins the window of
//! its hour, or the current window where that hour was already passed.
use vstd::prelude::*;
use crate::range::{log_stream, select, texts_of, RangeQuery};
use crate::record::Ping;
use crate::stats::{accumulate_range, lemma_empty_window, stats_of, PingStats, HOUR};

verus! {

/// The hour that second `t` lies in, counted from the epoch (rounded down,
/// also before it).
pub open spec fn hour_of(t: int) -> int {
    t / 3600
}

/// How many windows back from the first one the hour `h` lies, for a first
/// window of hour `top` (0 for hours not before it).
pub open spec fn hours_back(top: int, h: int) -> nat {
    if h >= top {
        0
    } else {
        (top - h) as nat
    }
}

/// The window that the sample `s[i]` goes to: the window of its hour, or the
/// current one where an earlier sample already reached further back.
pub open spec fn window_index(s: Seq<Ping>, i: int) -> nat
    decreases i,
{
    if i <= 0 {
        0
    } else {
        let prev = window_index(s, i - 1);
        let here = hours_back(hour_of(s[0].time as int), hour_of(s[i].time as int));
        if here > prev {
            here
        } else {
            prev
        }
    }
}

/// The samples among the first `n` of `s` that go to window `k`, in order.
pub open spec fn window_samples(s: Seq<Ping>, n: int, k: nat) -> Seq<Ping>
    decreases n,
{
    if n <= 0 {
        seq![]
    } else if window_index(s, n - 1) == k {
        window_samples(s, n - 1, k).push(s[n - 1])
    } else {
        window_samples(s, n - 1, k)
    }
}

/// The label of window `k`: the upper boundary of its hour.
pub open spec fn window_time(s: Seq<Ping>, k: int) -> int {
    (hour_of(s[0].time as int) + 1 - k) * 3600
}

/// The number of windows in the history of `s`.
pub open spec fn history_len(s: Seq<Ping>) -> nat {
    if s.len() == 0 {
        0
    } else {
        window_index(s, s.len() - 1) + 1
    }
}

/// The hourly history of the newest-first samples `s`.
pub open spec fn history(s: Seq<Ping>) -> Seq<PingStats> {
    Seq::new(
        history_len(s),
        |k: int| stats_of(window_samples(s, s.len() as int, k as nat), window_time(s, k) as i64),
    )
}

/// The times of the samples are far enough from the ends of `i64` for the
/// hour boundaries around them to be `i64` values too.
pub open spec fn times_in_range(s: Seq<Ping>) -> bool {
    forall|i: int|
        0 <= i < s.len() ==> i64::MIN + 3600 <= #[trigger] s[i].time <= i64::MAX - 3600
}

proof fn lemma_window_index_monotone(s: Seq<Ping>, i: int, j: int)
    requires
        0 <= i <= j,
    ensures
        window_index(s, i) <= window_index(s, j),
    decreases j - i,
{
    if i < j {
        lemma_window_index_monotone(s, i, j - 1);
    }
}

/// Once the windows have gone past `k`, window `k` takes no more samples.
proof fn lemma_window_closed(s: Seq<Ping>, i: int, m: int, k: nat)
    requires
        0 <= i <= m,
        window_index(s, i) > k,
    ensures
        window_samples(s, m, k) == window_samples(s, i, k),
    decreases m - i,
{
    if i < m {
        lemma_window_closed(s, i, m - 1, k);
        lemma_window_index_monotone(s, i, m - 1);
    }
}

/// A window that no sample before `m` has reached holds none of them.
proof fn lemma_window_unreached(s: Seq<Ping>, m: int, k: nat)
    requires
        m >= 1,
        window_index(s, m - 1) < k,
    ensures
        window_samples(s, m, k) == Seq::<Ping>::empty(),
    decreases m,
{
    if m > 1 {
        lemma_window_index_monotone(s, m - 2, m - 1);
        lemma_window_unreached(s, m - 1, k);
    } else {
        assert(window_samples(s, 0, k) =~= Seq::<Ping>::empty());
    }
}

/// Second `t` lies before the start of hour `h` exactly when its hour is
/// before `h`.
proof fn lemma_before_hour(t: int, h: int)
    ensures
        (t < h * 3600) == (hour_of(t) < h),
{
    let q = t / 3600;
    let r = t % 3600;
    assert(t == q * 3600 + r && 0 <= r < 3600) by {
        vstd::arithmetic::div_mod::lemma_fundamental_div_mod(t, 3600);
    }
    if q < h {
        assert(q * 3600 + 3600 <= h * 3600) by (nonlinear_arith)
            requires
                q < h,
        ;
    } else {
        assert(q * 3600 >= h * 3600) by (nonlinear_arith)
            requires
                q >= h,
        ;
    }
}

/// The start of the hour of `t`, in seconds.
fn hour_start(t: i64) -> (r: i64)
    requires
        t >= i64::MIN + 3600,
    ensures
        r == hour_of(t as int) * 3600,
        r <= t,
{
    if t >= 0 {
        let q = (t as u64) / 3600;
        proof {
            vstd::arithmetic::div_mod::lemma_fundamental_div_mod(t as int, 3600);
        }
        (q * 3600) as i64
    } else {
        let u = (-(t as i128) - 1) as u64;
        let q = u / 3600;
        proof {
            let tq = -(q as int) - 1;
            vstd::arithmetic::div_mod::lemma_fundamental_div_mod(u as int, 3600);
            assert(t as int == tq * 3600 + (3599 - u as int % 3600));
            vstd::arithmetic::div_mod::lemma_fundamental_div_mod_converse(
                t as int,
                3600,
                tq,
                3599 - u as int % 3600,
            );
        }
        -((q as i64 + 1) * 3600)
    }
}

/// The hourly history of a newest-first run of samples: a gapless grid of
/// one-hour windows from the hour of the first sample down to that of the
/// last, each with the statistics of its samples; hours without samples
/// give windows with a count of 0.
pub fn generate_history(log: &[Ping]) -> (r: Vec<PingStats>)
    requires
        times_in_range(log@),
    ensures
        r@ == history(log@),
{
    let ghost s = log@;
    let n = log.len();
    let mut chunks: Vec<PingStats> = Vec::new();
    if n == 0 {
        assert(chunks@ =~= history(s));
        return chunks;
    }
    let ghost top = hour_of(s[0].time as int);
    let mut until = hour_start(log[0].time);
    let mut start: usize = 0;
    let mut i: usize = 0;
    while i < n
        invariant
            n == s.len() > 0,
            s == log@,
            times_in_range(s),
            top == hour_of(s[0].time as int),
            start <= i <= n,
            until == (top - chunks@.len()) * 3600,
            i == 0 ==> chunks@.len() == 0 && start == 0,
            i > 0 ==> window_index(s, i - 1) == chunks@.len(),
            until <= s[0].time,
            window_samples(s, i as int, chunks@.len()) == s.subrange(start as int, i as int),
            forall|k: int|
                0 <= k < chunks@.len() ==> #[trigger] chunks@[k] == stats_of(
                    window_samples(s, n as int, k as nat),
                    window_time(s, k) as i64,
                ),
        decreases n - i,
    {
        let t = log[i].time;
        let ghost k0 = chunks@.len();
        let ghost here = hours_back(top, hour_of(t as int));
        proof {
            if i == 0 {
                assert(hour_of(t as int) == top);
            }
        }
        while t < until
            invariant
                n == s.len() > 0,
                s == log@,
                times_in_range(s),
                top == hour_of(s[0].time as int),
                start <= i < n,
                t == s[i as int].time,
                here == hours_back(top, hour_of(t as int)),
                i == 0 ==> chunks@.len() == 0,
                until == (top - chunks@.len()) * 3600,
                k0 <= chunks@.len(),
                chunks@.len() == k0 || chunks@.len() <= here,
                i > 0 ==> window_index(s, i - 1) == k0,
                until <= s[0].time,
                window_samples(s, i as int, chunks@.len()) == s.subrange(start as int, i as int),
                forall|k: int|
                    0 <= k < chunks@.len() ==> #[trigger] chunks@[k] == stats_of(
                        window_samples(s, n as int, k as nat),
                        window_time(s, k) as i64,
                    ),
            decreases until - t + 3600,
        {
            let ghost k = chunks@.len();
            proof {
                lemma_before_hour(t as int, top - k);
                assert(here > k);
                if i > 0 {
                    assert(window_index(s, i as int) >= here);
                    lemma_window_closed(s, i as int, n as int, k);
                    lemma_window_unreached(s, i as int, k + 1);
                } else {
                    assert(false);
                }
            }
            let w = accumulate_range(log, start, i, until + HOUR);
            chunks.push(w);
            start = i;
            until = until - 3600;
            proof {
                assert(s.subrange(i as int, i as int) =~= Seq::<Ping>::empty());
                assert(chunks@[k as int] == w);
            }
        }
        proof {
            let k = chunks@.len();
            lemma_before_hour(t as int, top - k);
            assert(window_index(s, i as int) == k);
            assert(window_samples(s, i + 1, k) =~= s.subrange(start as int, i + 1));
        }
        i = i + 1;
    }
    proof {
        let k = chunks@.len();
        assert(window_samples(s, n as int, k) == s.subrange(start as int, n as int));
    }
    let w = accumulate_range(log, start, n, until + HOUR);
    chunks.push(w);
    assert(chunks@ =~= history(s));
    chunks
}

/// Consecutive windows of a history are exactly one hour apart.
pub proof fn lemma_history_hourly(s: Seq<Ping>)
    requires
        times_in_range(s),
    ensures
        forall|k: int|
            0 <= k && k + 1 < history(s).len() ==> #[trigger] history(s)[k].time == history(
                s,
            )[k + 1].time + 3600,
{
    assert forall|k: int| 0 <= k && k + 1 < history(s).len() implies #[trigger] history(
        s,
    )[k].time == history(s)[k + 1].time + 3600 by {
        lemma_window_times(s, k);
        lemma_window_times(s, k + 1);
    }
}

/// A window with a count of 0 (an hour without samples) has no minimum,
/// maximum or average, and no lost samples.
pub proof fn lemma_history_empty_window(s: Seq<Ping>)
    requires
        s.len() <= usize::MAX,
    ensures
        forall|k: int|
            0 <= k < history(s).len() && (#[trigger] history(s)[k]).count == 0 ==> {
                &&& history(s)[k].lost == 0
                &&& history(s)[k].min == None::<u64>
                &&& history(s)[k].max == None::<u64>
                &&& history(s)[k].avg == None::<u64>
            },
{
    assert forall|k: int|
        0 <= k < history(s).len() && (#[trigger] history(s)[k]).count == 0 implies {
        &&& history(s)[k].lost == 0
        &&& history(s)[k].min == None::<u64>
        &&& history(s)[k].max == None::<u64>
        &&& history(s)[k].avg == None::<u64>
    } by {
        let w = window_samples(s, s.len() as int, k as nat);
        lemma_window_samples_len(s, s.len() as int, k as nat);
        assert(w.len() == 0);
        assert(w =~= Seq::<Ping>::empty());
        lemma_empty_window(window_time(s, k) as i64);
    }
}

proof fn lemma_window_samples_len(s: Seq<Ping>, n: int, k: nat)
    requires
        0 <= n <= s.len(),
    ensures
        window_samples(s, n, k).len() <= n,
    decreases n,
{
    if n > 0 {
        lemma_window_samples_len(s, n - 1, k);
    }
}

/// The history of `samples`, where their times lie in the range that
/// `generate_history` handles; `None` where one does not.
pub fn checked_history(samples: &[Ping]) -> (r: Option<Vec<PingStats>>)
    ensures
        match r {
            Some(h) => times_in_range(samples@) && h@ == history(samples@),
            None => !times_in_range(samples@),
        },
{
    let mut i: usize = 0;
    while i < samples.len()
        invariant
            i <= samples@.len(),
            forall|j: int|
                0 <= j < i ==> i64::MIN + 3600 <= #[trigger] samples@[j].time <= i64::MAX - 3600,
        decreases samples@.len() - i,
    {
        let t = samples[i].time;
        if t < i64::MIN + 3600 || t > i64::MAX - 3600 {
            return None;
        }
        i = i + 1;
    }
    Some(generate_history(samples))
}

/// The number of samples that a history query reads for `count` windows:
/// 65 for each, or as many as there are where that does not fit in `usize`.
pub open spec fn history_sample_count(count: usize) -> usize {
    if count * 65 > usize::MAX {
        usize::MAX
    } else {
        (count * 65) as usize
    }
}

pub fn history_reads(count: usize) -> (r: usize)
    ensures
        r == history_sample_count(count),
{
    if count > usize::MAX / 65 {
        usize::MAX
    } else {
        count * 65
    }
}

/// The hourly history of the samples that a range query selects from a set
/// of log files, reading 65 samples for each window asked for; `files`
/// holds the texts of the files in chronological order. Empty where a
/// selected sample lies too close to the ends of `i64` for its hour to be
/// labelled.
pub fn read_history(files: &Vec<String>, offset: usize, count: usize, start: i64, end: i64) -> (r:
    Vec<PingStats>)
    requires
        (RangeQuery { offset, count, start, end }).valid(),
    ensures
        ({
            let q = RangeQuery { offset, count: history_sample_count(count), start, end };
            let sel = select(log_stream(texts_of(files@)), q);
            r@ == if times_in_range(sel) {
                history(sel)
            } else {
                Seq::<PingStats>::empty()
            }
        }),
{
    let reads = history_reads(count);
    let pings = crate::range::read_log(files, offset, reads, start, end);
    match checked_history(pings.as_slice()) {
        Some(h) => h,
        None => Vec::new(),
    }
}

/// Window labels lie on the hour grid and fit in an `i64`.
proof fn lemma_window_times(s: Seq<Ping>, k: int)
    requires
        0 <= k < history(s).len(),
        times_in_range(s),
    ensures
        i64::MIN <= window_time(s, k) <= i64::MAX,
        history(s)[k].time == window_time(s, k),
{
    let n = s.len() as int;
    lemma_window_index_monotone(s, 0, n - 1);
    lemma_window_index_reach(s, n - 1);
    let top = hour_of(s[0].time as int);
    let last = window_index(s, n - 1);
    lemma_before_hour(s[0].time as int, top + 1);
    lemma_before_hour(s[0].time as int, top);
    assert(top * 3600 <= s[0].time);
    assert(s[0].time < (top + 1) * 3600);
    assert((top + 1 - k) * 3600 <= (top + 1) * 3600) by (nonlinear_arith)
        requires
            k >= 0,
    ;
    assert((top + 1 - k) * 3600 >= (top + 1 - last) * 3600) by (nonlinear_arith)
        requires
            k <= last,
    ;
}

/// The windows reach back no further than the hour of the oldest sample.
proof fn lemma_window_index_reach(s: Seq<Ping>, i: int)
    requires
        0 <= i < s.len(),
        times_in_range(s),
    ensures
        (hour_of(s[0].time as int) + 1 - window_index(s, i)) * 3600 >= i64::MIN + 3600,
    decreases i,
{
    let top = hour_of(s[0].time as int);
    lemma_before_hour(s[0].time as int, top + 1);
    if i > 0 {
        lemma_window_index_reach(s, i - 1);
        let h = hour_of(s[i].time as int);
        let here = hours_back(top, h);
        if here > window_index(s, i - 1) {
            lemma_before_hour(s[i].time as int, h + 1);
            assert(top + 1 - window_index(s, i) == h + 1);
        }
    }
}

} // verus!
