//! The set of daily log files: their names, their order and the retention
//! rule.
//!
//! A log file is named after its day, `YYMMDD.txt`. Names of that shape
//! order chronologically both as strings and by their date number.
use vstd::prelude::*;
use crate::record::chars_of;
use crate::text::{
    all_digits, digit_value, digits_value, fixed_digits, is_digit, is_number_at, lemma_digits_bound,
    number_value, parse_number, pow10, push_char, push_fixed_digits,
};

verus! {

/// Log files are kept for eight weeks.
pub const RETENTION_DAYS: u64 = 56;

/// A calendar day of the proleptic Gregorian calendar.
#[derive(Clone, Copy, Debug, PartialEq, Eq, Structural)]
pub struct Date {
    pub year: i32,
    pub month: u32,
    pub day: u32,
}

pub open spec fn is_leap_year(y: int) -> bool {
    (y % 4 == 0 && y % 100 != 0) || y % 400 == 0
}

pub open spec fn days_in_month(y: int, m: int) -> int {
    if m == 2 {
        if is_leap_year(y) {
            29
        } else {
            28
        }
    } else if m == 4 || m == 6 || m == 9 || m == 11 {
        30
    } else {
        31
    }
}

impl Date {
    /// The day exists in the calendar.
    pub open spec fn valid(self) -> bool {
        1 <= self.month <= 12 && 1 <= self.day <= days_in_month(self.year as int, self.month as int)
    }

    /// The day, where the three numbers name one.
    pub fn new(year: i32, month: u32, day: u32) -> (r: Option<Date>)
        ensures
            r == (if (Date { year, month, day }).valid() {
                Some(Date { year, month, day })
            } else {
                None
            }),
    {
        let leap = (year % 4 == 0 && year % 100 != 0) || year % 400 == 0;
        let last: u32 = if month == 2 {
            if leap {
                29
            } else {
                28
            }
        } else if month == 4 || month == 6 || month == 9 || month == 11 {
            30
        } else {
            31
        };
        if 1 <= month && month <= 12 && 1 <= day && day <= last {
            Some(Date { year, month, day })
        } else {
            None
        }
    }
}

/// The `YYMMDD` stamp of a day: the year modulo 100, the month and the day,
/// two digits each.
pub open spec fn date_text(d: Date) -> Seq<char> {
    fixed_digits((d.year as int % 100) as nat, 2) + fixed_digits(d.month as nat, 2) + fixed_digits(
        d.day as nat,
        2,
    )
}

/// The name of the log file of a day.
pub open spec fn log_name_of(d: Date) -> Seq<char> {
    date_text(d) + seq!['.', 't', 'x', 't']
}

/// A log file name: six digits and `.txt`.
pub open spec fn is_log_name(name: Seq<char>) -> bool {
    &&& name.len() == 10
    &&& all_digits(name.take(6))
    &&& name.skip(6) == seq!['.', 't', 'x', 't']
}

/// The date number `YYMMDD` of a log file name.
pub open spec fn log_date(name: Seq<char>) -> nat {
    digits_value(name.take(6))
}

/// Strict lexicographic order on strings, character by character.
pub open spec fn text_lt(a: Seq<char>, b: Seq<char>) -> bool
    decreases a.len(),
{
    if a.len() == 0 {
        b.len() > 0
    } else if b.len() == 0 {
        false
    } else if a[0] != b[0] {
        (a[0] as u32) < (b[0] as u32)
    } else {
        text_lt(a.drop_first(), b.drop_first())
    }
}

/// The day that lies `days` days before the given one, in the proleptic
/// Gregorian calendar; `None` where the given numbers name no day or the
/// result lies outside the range of days that chrono handles.
pub uninterp spec fn days_before(year: i32, month: u32, day: u32, days: u64) -> Option<(i32, u32, u32)>;

/// Relies on chrono's `NaiveDate::from_ymd_opt`, `NaiveDate::checked_sub_days`
/// and the `Datelike` accessors: calendar arithmetic on days.
#[verifier::external_body]
fn date_days_before(year: i32, month: u32, day: u32, days: u64) -> (r: Option<(i32, u32, u32)>)
    ensures
        r == days_before(year, month, day, days),
{
    chrono::NaiveDate::from_ymd_opt(year, month, day).and_then(
        |d| d.checked_sub_days(chrono::Days::new(days)),
    ).map(
        |d|
            (
                chrono::Datelike::year(&d),
                chrono::Datelike::month(&d),
                chrono::Datelike::day(&d),
            ),
    )
}

/// Log file names order as strings exactly as their dates do, so listing
/// them by name lists them chronologically.
pub proof fn lemma_log_names_order(a: Seq<char>, b: Seq<char>)
    requires
        is_log_name(a),
        is_log_name(b),
    ensures
        text_lt(a, b) == (log_date(a) < log_date(b)),
{
    let x = a.take(6);
    let y = b.take(6);
    assert(a =~= x + a.skip(6));
    assert(b =~= y + b.skip(6));
    if x == y {
        assert(a =~= b);
        lemma_text_lt_irreflexive(a);
    } else {
        lemma_text_lt_prefix(x, y, a.skip(6), b.skip(6));
        lemma_text_lt_digits(x, y);
    }
}

proof fn lemma_text_lt_irreflexive(a: Seq<char>)
    ensures
        !text_lt(a, a),
    decreases a.len(),
{
    if a.len() > 0 {
        lemma_text_lt_irreflexive(a.drop_first());
    }
}

/// Two different strings of one length decide the order of anything that
/// they begin.
proof fn lemma_text_lt_prefix(x: Seq<char>, y: Seq<char>, u: Seq<char>, v: Seq<char>)
    requires
        x.len() == y.len(),
        x != y,
    ensures
        text_lt(x + u, y + v) == text_lt(x, y),
    decreases x.len(),
{
    if x.len() == 0 {
        assert(x =~= y);
    } else {
        assert((x + u)[0] == x[0]);
        assert((y + v)[0] == y[0]);
        if x[0] == y[0] {
            assert((x + u).drop_first() =~= x.drop_first() + u);
            assert((y + v).drop_first() =~= y.drop_first() + v);
            assert(x.drop_first() != y.drop_first()) by {
                if x.drop_first() == y.drop_first() {
                    assert forall|i: int| 0 <= i < x.len() implies x[i] == y[i] by {
                        if i > 0 {
                            assert(x[i] == x.drop_first()[i - 1]);
                            assert(y[i] == y.drop_first()[i - 1]);
                        }
                    }
                    assert(x =~= y);
                }
            }
            lemma_text_lt_prefix(x.drop_first(), y.drop_first(), u, v);
        }
    }
}

/// Digit strings of one length order as strings exactly as their values do.
proof fn lemma_text_lt_digits(x: Seq<char>, y: Seq<char>)
    requires
        x.len() == y.len(),
        all_digits(x),
        all_digits(y),
    ensures
        text_lt(x, y) == (digits_value(x) < digits_value(y)),
    decreases x.len(),
{
    if x.len() > 0 {
        let p = pow10((x.len() - 1) as nat);
        let rx = x.drop_first();
        let ry = y.drop_first();
        assert(all_digits(rx)) by {
            assert forall|i: int| 0 <= i < rx.len() implies is_digit(#[trigger] rx[i]) by {
                assert(rx[i] == x[i + 1]);
            }
        }
        assert(all_digits(ry)) by {
            assert forall|i: int| 0 <= i < ry.len() implies is_digit(#[trigger] ry[i]) by {
                assert(ry[i] == y[i + 1]);
            }
        }
        lemma_digits_front(x);
        lemma_digits_front(y);
        lemma_digits_bound(rx);
        lemma_digits_bound(ry);
        lemma_text_lt_digits(rx, ry);
        assert(is_digit(x[0]) && is_digit(y[0]));
        let dx = digit_value(x[0]);
        let dy = digit_value(y[0]);
        let vx = digits_value(rx) as int;
        let vy = digits_value(ry) as int;
        if dx < dy {
            assert(dx * p + vx < dy * p + vy) by (nonlinear_arith)
                requires
                    dx < dy,
                    0 <= vx < p,
                    0 <= vy,
            ;
        } else if dx > dy {
            assert(dx * p + vx > dy * p + vy) by (nonlinear_arith)
                requires
                    dx > dy,
                    0 <= vy < p,
                    0 <= vx,
            ;
        }
    }
}

/// The value of a digit string, read from its first digit.
proof fn lemma_digits_front(s: Seq<char>)
    requires
        s.len() > 0,
        all_digits(s),
    ensures
        digits_value(s) == digit_value(s[0]) * pow10((s.len() - 1) as nat) + digits_value(
            s.drop_first(),
        ),
    decreases s.len(),
{
    assert(is_digit(s[0]));
    assert(is_digit(s[s.len() - 1]));
    if s.len() == 1 {
        assert(s.drop_first() =~= Seq::<char>::empty());
        assert(s.drop_last() =~= Seq::<char>::empty());
        assert(pow10(0) == 1);
        assert(digits_value(s) == digits_value(s.drop_last()) * 10 + digit_value(s.last()));
        assert(digits_value(s.drop_first()) == 0);
        assert(s.last() == s[0]);
        assert(digit_value(s[0]) * pow10(0) == digit_value(s[0]));
    } else {
        let d = s.drop_last();
        assert(all_digits(d)) by {
            assert forall|i: int| 0 <= i < d.len() implies is_digit(#[trigger] d[i]) by {
                assert(d[i] == s[i]);
            }
        }
        lemma_digits_front(d);
        assert(d[0] == s[0]);
        assert(d.drop_first() =~= s.drop_first().drop_last());
        assert(s.drop_first().last() == s.last());
        let p = pow10((d.len() - 1) as nat);
        assert(pow10((s.len() - 1) as nat) == 10 * p);
        let a = digit_value(s[0]);
        let r = digits_value(d.drop_first()) as int;
        let l = digit_value(s.last());
        assert((a * p + r) * 10 + l == a * (10 * p) + (r * 10 + l)) by (nonlinear_arith);
        assert(digits_value(s) == digits_value(d) * 10 + l);
        assert(digits_value(s.drop_first()) == r * 10 + l);
        assert(digits_value(d) == a * p + r);
        let q = pow10((s.len() - 1) as nat);
        assert(a * q == a * (10 * p));
    }
}

/// Whether `name` has the shape of a log file name.
pub fn is_log_file(name: &str) -> (r: bool)
    ensures
        r == is_log_name(name@),
{
    let cs = chars_of(name);
    is_log_name_at(&cs)
}

fn is_log_name_at(cs: &Vec<char>) -> (r: bool)
    ensures
        r == is_log_name(cs@),
{
    if cs.len() != 10 {
        return false;
    }
    let digits = is_number_at(cs, 0, 6);
    assert(cs@.subrange(0, 6) =~= cs@.take(6));
    let suffix = cs[6] == '.' && cs[7] == 't' && cs[8] == 'x' && cs[9] == 't';
    proof {
        if suffix {
            assert(cs@.skip(6) =~= seq!['.', 't', 'x', 't']);
        } else {
            assert(cs@.skip(6) != seq!['.', 't', 'x', 't']) by {
                if cs@.skip(6) == seq!['.', 't', 'x', 't'] {
                    assert(cs@.skip(6)[0] == cs@[6]);
                    assert(cs@.skip(6)[1] == cs@[7]);
                    assert(cs@.skip(6)[2] == cs@[8]);
                    assert(cs@.skip(6)[3] == cs@[9]);
                }
            }
        }
    }
    digits && suffix
}

/// The `YYMMDD` stamp of a day.
pub fn date_stamp(date: &Date) -> (r: String)
    ensures
        r@ == date_text(*date),
{
    let mut s = String::new();
    let y = (date.year as i64 % 100 + 100) % 100;
    assert(y == date.year as int % 100);
    push_fixed_digits(&mut s, y as u64, 2);
    push_fixed_digits(&mut s, date.month as u64, 2);
    push_fixed_digits(&mut s, date.day as u64, 2);
    assert(s@ =~= date_text(*date));
    s
}

/// The name of the log file of a day.
pub fn log_file_name(date: &Date) -> (r: String)
    ensures
        r@ == log_name_of(*date),
{
    let mut s = date_stamp(date);
    push_char(&mut s, '.');
    push_char(&mut s, 't');
    push_char(&mut s, 'x');
    push_char(&mut s, 't');
    assert(s@ =~= log_name_of(*date));
    s
}

/// The stamp that log file names are compared with to find the expired
/// ones: the day eight weeks before `today`. `None` where chrono cannot
/// reach that day.
pub fn retention_cutoff(today: &Date) -> (r: Option<String>)
    ensures
        match days_before(today.year, today.month, today.day, RETENTION_DAYS) {
            Some((y, m, d)) => r is Some && r->0@ == date_text(Date { year: y, month: m, day: d }),
            None => r is None,
        },
{
    match date_days_before(today.year, today.month, today.day, RETENTION_DAYS) {
        Some((y, m, d)) => Some(date_stamp(&Date { year: y, month: m, day: d })),
        None => None,
    }
}

/// Strict lexicographic comparison of two strings.
fn text_less(a: &Vec<char>, b: &Vec<char>) -> (r: bool)
    ensures
        r == text_lt(a@, b@),
{
    let mut i: usize = 0;
    assert(a@.skip(0) =~= a@);
    assert(b@.skip(0) =~= b@);
    while i < a.len() && i < b.len() && a[i] == b[i]
        invariant
            i <= a@.len(),
            i <= b@.len(),
            text_lt(a@, b@) == text_lt(a@.skip(i as int), b@.skip(i as int)),
        decreases a@.len() - i,
    {
        proof {
            let x = a@.skip(i as int);
            let y = b@.skip(i as int);
            assert(x.drop_first() =~= a@.skip(i + 1));
            assert(y.drop_first() =~= b@.skip(i + 1));
            assert(x[0] == a@[i as int]);
            assert(y[0] == b@[i as int]);
        }
        i = i + 1;
    }
    let ghost x = a@.skip(i as int);
    let ghost y = b@.skip(i as int);
    if i == a.len() {
        assert(x.len() == 0);
        i < b.len()
    } else if i == b.len() {
        false
    } else {
        assert(x[0] == a@[i as int]);
        assert(y[0] == b@[i as int]);
        (a[i] as u32) < (b[i] as u32)
    }
}

/// Whether the log file `filename` lies before the stamp `oldest` and is due
/// for deletion: it must have the shape of a log file name and compare below
/// `oldest` as a string.
pub fn older(filename: &str, oldest: &str) -> (r: bool)
    ensures
        r == (is_log_name(filename@) && text_lt(filename@, oldest@)),
{
    let f = chars_of(filename);
    let o = chars_of(oldest);
    is_log_name_at(&f) && text_less(&f, &o)
}

/// The entries of a directory listing that are expired log files, in the
/// order of the listing.
pub fn expired_logs(entries: &Vec<String>, oldest: &str) -> (r: Vec<String>)
    ensures
        r@ == entries@.filter(
            |e: String| is_log_name(e@) && text_lt(e@, oldest@),
        ),
{
    let ghost pred = |e: String| is_log_name(e@) && text_lt(e@, oldest@);
    let mut r: Vec<String> = Vec::new();
    let mut i: usize = 0;
    while i < entries.len()
        invariant
            i <= entries@.len(),
            pred == (|e: String| is_log_name(e@) && text_lt(e@, oldest@)),
            r@ == entries@.take(i as int).filter(pred),
        decreases entries@.len() - i,
    {
        proof {
            reveal(Seq::filter);
            assert(entries@.take(i + 1).drop_last() =~= entries@.take(i as int));
        }
        if older(entries[i].as_str(), oldest) {
            r.push(entries[i].clone());
        }
        i = i + 1;
    }
    assert(entries@.take(i as int) =~= entries@);
    r
}

/// The log files among the entries of a directory listing, in chronological
/// order.
pub fn log_files(entries: &Vec<String>) -> (r: Vec<String>)
    ensures
        r@.to_multiset() == entries@.filter(|e: String| is_log_name(e@)).to_multiset(),
        forall|i: int, j: int|
            0 <= i < j < r@.len() ==> log_date(r@[i]@) <= log_date(r@[j]@),
        forall|i: int| 0 <= i < r@.len() ==> is_log_name(#[trigger] r@[i]@),
{
    let ghost pred = |e: String| is_log_name(e@);
    let mut names: Vec<String> = Vec::new();
    let mut keys: Vec<u64> = Vec::new();
    let mut i: usize = 0;
    proof {
        reveal(Seq::filter);
        assert(entries@.take(0) =~= Seq::<String>::empty());
        assert(entries@.take(0).filter(pred) =~= Seq::<String>::empty());
        assert(names@ =~= Seq::<String>::empty());
    }
    while i < entries.len()
        invariant
            i <= entries@.len(),
            pred == (|e: String| is_log_name(e@)),
            names@.to_multiset() == entries@.take(i as int).filter(pred).to_multiset(),
            keys@.len() == names@.len(),
            forall|j: int| 0 <= j < names@.len() ==> is_log_name(#[trigger] names@[j]@),
            forall|j: int| 0 <= j < names@.len() ==> keys@[j] == log_date(#[trigger] names@[j]@),
            forall|a: int, b: int| 0 <= a < b < keys@.len() ==> keys@[a] <= keys@[b],
        decreases entries@.len() - i,
    {
        proof {
            reveal(Seq::filter);
            assert(entries@.take(i + 1).drop_last() =~= entries@.take(i as int));
        }
        let cs = chars_of(entries[i].as_str());
        if is_log_name_at(&cs) {
            assert(cs@.subrange(0, 6) =~= cs@.take(6));
            let key = match parse_number(&cs, 0, 6) {
                Some(k) => k,
                None => 0,
            };
            proof {
                lemma_six_digits(cs@.take(6));
            }
            let mut p: usize = 0;
            while p < keys.len() && keys[p] <= key
                invariant
                    p <= keys@.len(),
                    forall|a: int| 0 <= a < p ==> keys@[a] <= key,
                decreases keys@.len() - p,
            {
                p = p + 1;
            }
            let ghost before = names@;
            names.insert(p, entries[i].clone());
            keys.insert(p, key);
            proof {
                broadcast use vstd::seq_lib::group_to_multiset_ensures;

                lemma_insert_multiset(before, p as int, entries@[i as int]);
                assert(entries@.take(i + 1).last() == entries@[i as int]);
                assert(forall|j: int| 0 <= j < names@.len() ==> is_log_name(#[trigger] names@[j]@))
                    by {
                    assert forall|j: int| 0 <= j < names@.len() implies is_log_name(
                        #[trigger] names@[j]@,
                    ) by {
                        if j < p {
                            assert(names@[j] == before[j]);
                        } else if j > p {
                            assert(names@[j] == before[j - 1]);
                        }
                    }
                }
            }
        }
        i = i + 1;
    }
    assert(entries@.take(i as int) =~= entries@);
    names
}

/// Inserting an element adds it to the multiset.
proof fn lemma_insert_multiset<A>(s: Seq<A>, i: int, a: A)
    requires
        0 <= i <= s.len(),
    ensures
        s.insert(i, a).to_multiset() == s.to_multiset().insert(a),
{
    broadcast use vstd::seq_lib::group_to_multiset_ensures;

    let t = s.insert(i, a);
    assert(t.remove(i) =~= s);
    assert(t[i] == a);
    assert(t.to_multiset().count(a) > 0) by {
        assert(t.contains(a));
    }
    assert(t.to_multiset() =~= s.to_multiset().insert(a));
}

/// Six digits spell a number below a million.
proof fn lemma_six_digits(s: Seq<char>)
    requires
        s.len() == 6,
        all_digits(s),
    ensures
        number_value(s) == Some(digits_value(s)),
        digits_value(s) < 1_000_000,
{
    crate::text::lemma_digits_bound(s);
    assert(crate::text::pow10(6) == 1_000_000) by {
        reveal_with_fuel(crate::text::pow10, 7);
    }
}

/// Which of the log files `files` the request path `path` names, as `/`
/// followed by the name: the first that it names, if any.
pub fn try_open_log(path: &str, files: &Vec<String>) -> (r: Option<usize>)
    ensures
        match r {
            Some(i) => {
                &&& i < files@.len()
                &&& path@ == seq!['/'] + files@[i as int]@
                &&& forall|j: int| 0 <= j < i ==> path@ != seq!['/'] + #[trigger] files@[j]@
            },
            None => forall|i: int|
                0 <= i < files@.len() ==> path@ != seq!['/'] + #[trigger] files@[i]@,
        },
{
    let cs = chars_of(path);
    let mut i: usize = 0;
    while i < files.len()
        invariant
            i <= files@.len(),
            cs@ == path@,
            forall|j: int| 0 <= j < i ==> path@ != seq!['/'] + #[trigger] files@[j]@,
        decreases files@.len() - i,
    {
        let name = chars_of(files[i].as_str());
        if cs.len() > 0 && cs.len() - 1 == name.len() && cs[0] == '/' {
            let mut k: usize = 0;
            while k < name.len() && cs[k + 1] == name[k]
                invariant
                    k <= name@.len(),
                    cs@.len() == name@.len() + 1,
                    forall|m: int| 0 <= m < k ==> cs@[m + 1] == name@[m],
                decreases name@.len() - k,
            {
                k = k + 1;
            }
            if k == name.len() {
                assert(path@ =~= seq!['/'] + files@[i as int]@);
                return Some(i);
            }
            assert((seq!['/'] + files@[i as int]@)[k + 1] == name@[k as int]);
        }
        i = i + 1;
    }
    None
}

} // verus!
