//! Aggregates over samples: the statistics of one window, and the hourly
//! history of a newest-first run of samples.
use vstd::prelude::*;
use crate::record::{Ping, LOST_PING};

verus! {

/// The length of one history window, in seconds.
pub const HOUR: i64 = 3600;

/// The statistics of the samples of one window. Latencies are in
/// microseconds; `min`, `max` and `avg` are `None` where no sample counts
/// towards them.
#[derive(Clone, Copy, Debug, PartialEq, Eq, Structural)]
pub struct PingStats {
    /// The least latency of the samples that were not lost.
    pub min: Option<u64>,
    /// The greatest latency of the samples that were not lost.
    pub max: Option<u64>,
    /// The latencies of the samples that were not lost, summed and divided
    /// by the number of all samples, lost ones included (rounded down).
    pub avg: Option<u64>,
    /// How many samples were lost.
    pub lost: usize,
    /// How many samples there were.
    pub count: usize,
    /// The time that labels the window.
    pub time: i64,
}

/// The least latency among the samples of `s` that were not lost.
pub open spec fn ok_min(s: Seq<Ping>) -> Option<u64>
    decreases s.len(),
{
    if s.len() == 0 {
        None
    } else {
        let m = ok_min(s.drop_last());
        let p = s.last();
        if p.is_lost() {
            m
        } else {
            match m {
                Some(v) => Some(if p.ping < v {
                    p.ping
                } else {
                    v
                }),
                None => Some(p.ping),
            }
        }
    }
}

/// The greatest latency among the samples of `s` that were not lost.
pub open spec fn ok_max(s: Seq<Ping>) -> Option<u64>
    decreases s.len(),
{
    if s.len() == 0 {
        None
    } else {
        let m = ok_max(s.drop_last());
        let p = s.last();
        if p.is_lost() {
            m
        } else {
            match m {
                Some(v) => Some(if p.ping > v {
                    p.ping
                } else {
                    v
                }),
                None => Some(p.ping),
            }
        }
    }
}

/// The sum of the latencies of the samples of `s` that were not lost.
pub open spec fn ok_sum(s: Seq<Ping>) -> nat
    decreases s.len(),
{
    if s.len() == 0 {
        0
    } else if s.last().is_lost() {
        ok_sum(s.drop_last())
    } else {
        (ok_sum(s.drop_last()) + s.last().ping) as nat
    }
}

/// The number of lost samples in `s`.
pub open spec fn lost_count(s: Seq<Ping>) -> nat
    decreases s.len(),
{
    if s.len() == 0 {
        0
    } else if s.last().is_lost() {
        lost_count(s.drop_last()) + 1
    } else {
        lost_count(s.drop_last())
    }
}

/// The statistics of the samples `s` of a window labelled `time`.
pub open spec fn stats_of(s: Seq<Ping>, time: i64) -> PingStats {
    PingStats {
        min: ok_min(s),
        max: ok_max(s),
        avg: if s.len() == 0 {
            None
        } else {
            Some((ok_sum(s) / s.len()) as u64)
        },
        lost: lost_count(s) as usize,
        count: s.len() as usize,
        time,
    }
}

proof fn lemma_ok_sum_bound(s: Seq<Ping>)
    ensures
        ok_sum(s) <= s.len() * (LOST_PING - 1),
        lost_count(s) <= s.len(),
    decreases s.len(),
{
    if s.len() > 0 {
        lemma_ok_sum_bound(s.drop_last());
    }
}

/// The statistics of `pings[lo..hi]`, for a window labelled `time`.
pub(crate) fn accumulate_range(pings: &[Ping], lo: usize, hi: usize, time: i64) -> (r: PingStats)
    requires
        lo <= hi <= pings@.len(),
    ensures
        r == stats_of(pings@.subrange(lo as int, hi as int), time),
{
    let ghost s = pings@.subrange(lo as int, hi as int);
    let mut min: Option<u64> = None;
    let mut max: Option<u64> = None;
    let mut sum: u128 = 0;
    let mut lost: usize = 0;
    let mut i: usize = lo;
    while i < hi
        invariant
            lo <= i <= hi <= pings@.len(),
            s == pings@.subrange(lo as int, hi as int),
            min == ok_min(s.take(i - lo)),
            max == ok_max(s.take(i - lo)),
            sum == ok_sum(s.take(i - lo)),
            lost == lost_count(s.take(i - lo)),
            sum <= (i - lo) * 999_999,
            lost <= i - lo,
        decreases hi - i,
    {
        let p = pings[i];
        let ghost k = i - lo;
        assert(s.take(k + 1).drop_last() =~= s.take(k));
        assert(s.take(k + 1).last() == p);
        if p.ping < LOST_PING {
            min = match min {
                Some(v) => Some(if p.ping < v { p.ping } else { v }),
                None => Some(p.ping),
            };
            max = match max {
                Some(v) => Some(if p.ping > v { p.ping } else { v }),
                None => Some(p.ping),
            };
            sum = sum + p.ping as u128;
        } else {
            lost = lost + 1;
        }
        i = i + 1;
    }
    assert(s.take(hi - lo) =~= s);
    let count = hi - lo;
    let avg = if count == 0 {
        None
    } else {
        proof {
            lemma_ok_sum_bound(s);
            let total = sum as int;
            let c = count as int;
            assert(total / c < LOST_PING) by (nonlinear_arith)
                requires
                    c > 0,
                    total <= c * (LOST_PING - 1),
            {
            }
        }
        Some((sum / (count as u128)) as u64)
    };
    PingStats { min, max, avg, lost, count, time }
}

/// The statistics of the samples `pings`, for a window labelled `time`.
/// A latency of `LOST_PING` or more counts as lost: it adds to `lost` and
/// `count` only.
pub fn accumulate(pings: &[Ping], time: i64) -> (r: PingStats)
    ensures
        r == stats_of(pings@, time),
{
    let r = accumulate_range(pings, 0, pings.len(), time);
    assert(pings@.subrange(0, pings@.len() as int) =~= pings@);
    r
}

/// A window without samples has a count of 0 and no minimum, maximum or
/// average.
pub proof fn lemma_empty_window(time: i64)
    ensures
        stats_of(Seq::<Ping>::empty(), time) == (PingStats {
            min: None,
            max: None,
            avg: None,
            lost: 0,
            count: 0,
            time,
        }),
{
}

/// A window whose samples were all lost has no minimum or maximum, and
/// counts each of them as lost.
pub proof fn lemma_all_lost_window(s: Seq<Ping>, time: i64)
    requires
        forall|i: int| 0 <= i < s.len() ==> (#[trigger] s[i]).is_lost(),
        s.len() <= usize::MAX,
    ensures
        stats_of(s, time).min == None::<u64>,
        stats_of(s, time).max == None::<u64>,
        stats_of(s, time).lost == s.len(),
        stats_of(s, time).count == s.len(),
{
    lemma_all_lost(s);
}

proof fn lemma_all_lost(s: Seq<Ping>)
    requires
        forall|i: int| 0 <= i < s.len() ==> (#[trigger] s[i]).is_lost(),
    ensures
        ok_min(s) == None::<u64>,
        ok_max(s) == None::<u64>,
        lost_count(s) == s.len(),
    decreases s.len(),
{
    if s.len() > 0 {
        let d = s.drop_last();
        assert forall|i: int| 0 <= i < d.len() implies (#[trigger] d[i]).is_lost() by {
            assert(d[i] == s[i]);
        }
        lemma_all_lost(d);
        assert(s.last() == s[s.len() - 1]);
    }
}

} // verus!
