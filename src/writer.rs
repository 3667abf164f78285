//! The decisions of the writer: which file a sample goes to, when old files
//! are pruned, and when the next sample is due.
use vstd::prelude::*;
use crate::logfiles::{
    date_text, days_before, expired_logs, is_log_name, log_file_name, log_name_of, retention_cutoff,
    text_lt, Date, RETENTION_DAYS,
};
use crate::record::{encode, Ping};

verus! {

/// What appending one sample to the log takes.
pub struct AppendPlan {
    /// The file of the day that the sample is appended to.
    pub file_name: String,
    /// The expired log files to delete before the day's file is started.
    pub prune: Vec<String>,
    /// The text to append: the sample's record line and its line break.
    pub entry: String,
}

/// The log files among `entries` that are due for deletion on the day
/// `today`, in the order of the listing.
pub open spec fn expired_on(entries: Seq<String>, today: Date) -> Seq<String> {
    match days_before(today.year, today.month, today.day, RETENTION_DAYS) {
        Some((y, m, d)) => entries.filter(
            |e: String|
                is_log_name(e@) && text_lt(e@, date_text(Date { year: y, month: m, day: d })),
        ),
        None => Seq::empty(),
    }
}

/// Whether a directory listing holds the name `name`.
pub open spec fn lists(entries: Seq<String>, name: Seq<char>) -> bool {
    exists|i: int| 0 <= i < entries.len() && (#[trigger] entries[i])@ == name
}

/// How to append `sample` to a log directory whose listing is `entries`, on
/// the day `today` (the day of the wall clock, not of the sample). Retention
/// is checked once a day: only where the day's file does not exist yet are
/// the expired files pruned.
pub fn plan_append(today: &Date, entries: &Vec<String>, sample: &Ping) -> (r: AppendPlan)
    ensures
        r.file_name@ == log_name_of(*today),
        r.entry@ == encode(*sample).push('\n'),
        r.prune@ == if lists(entries@, log_name_of(*today)) {
            Seq::<String>::empty()
        } else {
            expired_on(entries@, *today)
        },
{
    let file_name = log_file_name(today);
    let mut exists = false;
    let mut i: usize = 0;
    while i < entries.len()
        invariant
            i <= entries@.len(),
            file_name@ == log_name_of(*today),
            exists == (exists|j: int| 0 <= j < i && (#[trigger] entries@[j])@ == file_name@),
        decreases entries@.len() - i,
    {
        if entries[i] == file_name {
            exists = true;
        }
        i = i + 1;
    }
    let prune = if exists {
        Vec::new()
    } else {
        match retention_cutoff(today) {
            Some(cutoff) => expired_logs(entries, cutoff.as_str()),
            None => Vec::new(),
        }
    };
    AppendPlan { file_name, prune, entry: sample.to_entry() }
}

/// The next multiple of `interval` seconds after `now`: when the next
/// sample is due.
pub fn next_tick(now: u64, interval: u64) -> (r: u64)
    requires
        interval > 0,
        now + interval <= u64::MAX,
    ensures
        r == (now + interval) / interval as int * interval,
        now < r <= now + interval,
{
    let n = now + interval;
    let q = n / interval;
    proof {
        vstd::arithmetic::div_mod::lemma_fundamental_div_mod(n as int, interval as int);
        vstd::arithmetic::div_mod::lemma_mod_bound(n as int, interval as int);
        assert(q * interval <= n) by (nonlinear_arith)
            requires
                n == interval * q + n % interval,
                n % interval >= 0,
        ;
    }
    q * interval
}

} // verus!
