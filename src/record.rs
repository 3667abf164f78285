//! One latency sample and its text form: a line `"<time> <latency>"`.
//!
//! The time is a number of unix seconds. The latency is kept in
//! microseconds and written in milliseconds with up to three decimals
//! (`11.5`, `0.045`, `1000.0`), which reads back to the same value.
use vstd::prelude::*;
use crate::text::{
    all_digits, decimal, digits_value, fixed_digits, is_blank, is_digit,
    is_blank_char, is_number_at, lemma_decimal, lemma_fixed_digits, number_value, parse_number,
    push_char, push_decimal, push_fixed_digits, pow10,
};

verus! {

/// A latency of this many microseconds or more marks a lost sample: the probe
/// had no reply within one second.
pub const LOST_PING: u64 = 1_000_000;

/// One measurement: when it was taken and how long the reply took.
#[derive(Clone, Copy, Debug, PartialEq, Eq, Structural)]
pub struct Ping {
    /// Unix seconds.
    pub time: i64,
    /// Round-trip time in microseconds; `LOST_PING` or more for no reply.
    pub ping: u64,
}

impl Ping {
    pub fn new(time: i64, ping: u64) -> (r: Ping)
        ensures
            r == (Ping { time, ping }),
    {
        Ping { time, ping }
    }

    /// Whether this sample stands for a lost reply.
    pub open spec fn is_lost(self) -> bool {
        self.ping >= LOST_PING
    }

    pub fn lost(&self) -> (r: bool)
        ensures
            r == self.is_lost(),
    {
        self.ping >= LOST_PING
    }

    /// The record line for this sample, without a line break.
    pub fn to_line(&self) -> (r: String)
        ensures
            r@ == encode(*self),
    {
        let mut s = String::new();
        push_time(&mut s, self.time);
        push_char(&mut s, ' ');
        push_latency(&mut s, self.ping);
        assert(s@ =~= encode(*self));
        s
    }

    /// The record line for this sample with its line break, as it is
    /// appended to a log file.
    pub fn to_entry(&self) -> (r: String)
        ensures
            r@ == encode(*self).push('\n'),
    {
        let mut s = self.to_line();
        push_char(&mut s, '\n');
        s
    }

    /// Reads one record line; `None` where it is not one.
    pub fn from_line(line: &str) -> (r: Option<Ping>)
        ensures
            r == decode(line@),
    {
        let cs = chars_of(line);
        let r = decode_at(&cs, 0, cs.len());
        assert(cs@.subrange(0, cs@.len() as int) =~= line@);
        r
    }
}

/// The text of a time: an optional minus sign and the decimal digits.
pub open spec fn time_text(t: int) -> Seq<char> {
    if t < 0 {
        seq!['-'] + decimal((-t) as nat)
    } else {
        decimal(t as nat)
    }
}

/// The digits after the point for `f` thousandths, without trailing zeros but
/// at least one digit.
pub open spec fn fraction_text(f: nat) -> Seq<char> {
    if f % 100 == 0 {
        fixed_digits(f / 100, 1)
    } else if f % 10 == 0 {
        fixed_digits(f / 10, 2)
    } else {
        fixed_digits(f, 3)
    }
}

/// The text of a latency of `us` microseconds, in milliseconds.
pub open spec fn latency_text(us: nat) -> Seq<char> {
    decimal(us / 1000) + seq!['.'] + fraction_text(us % 1000)
}

/// The record line of a sample.
pub open spec fn encode(p: Ping) -> Seq<char> {
    time_text(p.time as int) + seq![' '] + latency_text(p.ping as nat)
}

/// The index of the first blank at or after `i`, or the length where there is
/// none.
pub open spec fn first_blank(s: Seq<char>, i: int) -> int
    decreases s.len() - i,
{
    if i >= s.len() {
        s.len() as int
    } else if is_blank(s[i]) {
        i
    } else {
        first_blank(s, i + 1)
    }
}

/// The index of the first character at or after `i` that is not a blank, or
/// the length where there is none.
pub open spec fn first_nonblank(s: Seq<char>, i: int) -> int
    decreases s.len() - i,
{
    if i >= s.len() {
        s.len() as int
    } else if !is_blank(s[i]) {
        i
    } else {
        first_nonblank(s, i + 1)
    }
}

/// The index of the first `'.'` at or after `i`, or the length where there is
/// none.
pub open spec fn first_dot(s: Seq<char>, i: int) -> int
    decreases s.len() - i,
{
    if i >= s.len() {
        s.len() as int
    } else if s[i] == '.' {
        i
    } else {
        first_dot(s, i + 1)
    }
}

/// A time field: an optional `+` or `-` and digits, within the range of
/// `i64`.
pub open spec fn parse_time(s: Seq<char>) -> Option<i64> {
    if s.len() > 0 && s[0] == '-' {
        match number_value(s.drop_first()) {
            Some(v) => if v <= 0x8000_0000_0000_0000 {
                Some((-v) as i64)
            } else {
                None
            },
            None => None,
        }
    } else {
        let u = if s.len() > 0 && s[0] == '+' {
            s.drop_first()
        } else {
            s
        };
        match number_value(u) {
            Some(v) => if v <= i64::MAX {
                Some(v as i64)
            } else {
                None
            },
            None => None,
        }
    }
}

/// The microseconds that the digits after the point stand for; digits past
/// the third are cut off.
pub open spec fn fraction_value(f: Seq<char>) -> nat {
    if f.len() >= 3 {
        digits_value(f.take(3))
    } else if f.len() == 2 {
        digits_value(f) * 10
    } else {
        digits_value(f) * 100
    }
}

/// A latency field in milliseconds: an optional `+`, digits, and
/// optionally a point and more digits, with at least one digit in all
/// (`12`, `1.25`, `.5`, `5.`). The value in microseconds must fit in `u64`.
/// Exponents, `inf`, `NaN` and negative values are not latencies.
pub open spec fn parse_latency(s: Seq<char>) -> Option<u64> {
    let u = if s.len() > 0 && s[0] == '+' {
        s.drop_first()
    } else {
        s
    };
    let k = first_dot(u, 0);
    let whole = u.take(k);
    let frac = if k < u.len() {
        u.skip(k + 1)
    } else {
        Seq::<char>::empty()
    };
    if all_digits(whole) && all_digits(frac) && whole.len() + frac.len() > 0 {
        let v = digits_value(whole) * 1000 + fraction_value(frac);
        if v <= u64::MAX {
            Some(v as u64)
        } else {
            None
        }
    } else {
        None
    }
}

/// A record line: exactly two fields separated by whitespace, with any
/// whitespace before, between and after them; the first a time field, the
/// second a latency field.
pub open spec fn decode(line: Seq<char>) -> Option<Ping> {
    let a = first_nonblank(line, 0);
    let b = first_blank(line, a);
    let c = first_nonblank(line, b);
    let d = first_blank(line, c);
    if a < b && c < d && first_nonblank(line, d) == line.len() {
        match (parse_time(line.subrange(a, b)), parse_latency(line.subrange(c, d))) {
            (Some(t), Some(l)) => Some(Ping { time: t, ping: l }),
            _ => None,
        }
    } else {
        None
    }
}

/// The pieces of `s` between line breaks, the last one included even where it
/// is empty.
pub open spec fn split_lines(s: Seq<char>) -> Seq<Seq<char>>
    decreases s.len(),
{
    if s.len() == 0 {
        seq![seq![]]
    } else {
        let prev = split_lines(s.drop_last());
        if s.last() == '\n' {
            prev.push(seq![])
        } else {
            prev.update(prev.len() - 1, prev.last().push(s.last()))
        }
    }
}

/// The record that a line of a log file holds, if any.
pub open spec fn line_record(line: Seq<char>) -> Option<Ping> {
    decode(line)
}

/// The samples of a log file's text, in file order: every line that is a
/// record, and nothing of the lines that are not.
pub open spec fn records(text: Seq<char>) -> Seq<Ping> {
    split_lines(text).filter_map(|line: Seq<char>| line_record(line))
}

proof fn lemma_split_lines_nonempty(s: Seq<char>)
    ensures
        split_lines(s).len() >= 1,
    decreases s.len(),
{
    if s.len() > 0 {
        lemma_split_lines_nonempty(s.drop_last());
    }
}

/// Splitting text joined at a line break splits each part.
proof fn lemma_split_lines_join(a: Seq<char>, b: Seq<char>)
    ensures
        split_lines(a + seq!['\n'] + b) == split_lines(a) + split_lines(b),
    decreases b.len(),
{
    let j = a + seq!['\n'] + b;
    if b.len() == 0 {
        assert(j.drop_last() =~= a);
        assert(split_lines(a) + split_lines(b) =~= split_lines(a).push(seq![]));
    } else {
        let c = b.last();
        let b0 = b.drop_last();
        lemma_split_lines_join(a, b0);
        lemma_split_lines_nonempty(b0);
        lemma_split_lines_nonempty(a);
        assert(j.drop_last() =~= a + seq!['\n'] + b0);
        let sa = split_lines(a);
        let sb0 = split_lines(b0);
        if c == '\n' {
            assert((sa + sb0).push(seq![]) =~= sa + sb0.push(seq![]));
        } else {
            let prev = sa + sb0;
            assert(prev.last() == sb0.last());
            assert(prev.update(prev.len() - 1, prev.last().push(c)) =~= sa + sb0.update(
                sb0.len() - 1,
                sb0.last().push(c),
            ));
        }
    }
}

proof fn lemma_filter_map_join<A, B>(x: Seq<A>, y: Seq<A>, f: spec_fn(A) -> Option<B>)
    ensures
        (x + y).filter_map(f) == x.filter_map(f) + y.filter_map(f),
    decreases y.len(),
{
    if y.len() == 0 {
        assert(x + y =~= x);
        assert(x.filter_map(f) + y.filter_map(f) =~= x.filter_map(f));
    } else {
        lemma_filter_map_join(x, y.drop_last(), f);
        assert((x + y).drop_last() =~= x + y.drop_last());
        assert((x + y).last() == y.last());
        match f(y.last()) {
            Some(v) => {
                assert(x.filter_map(f) + y.drop_last().filter_map(f) + seq![v] =~= x.filter_map(f)
                    + (y.drop_last().filter_map(f) + seq![v]));
            },
            None => {},
        }
    }
}

/// Lines are read one by one: the samples of two texts joined at a line
/// break are those of the first followed by those of the second, so a line
/// that is not a record takes nothing from the lines around it.
pub proof fn lemma_records_join(a: Seq<char>, b: Seq<char>)
    ensures
        records(a + seq!['\n'] + b) == records(a) + records(b),
{
    lemma_split_lines_join(a, b);
    lemma_filter_map_join(split_lines(a), split_lines(b), |line: Seq<char>| line_record(line));
}

/// The entry of a sample, appended to a log file's text that is empty or
/// ends with a line break, adds that sample and nothing else.
pub proof fn lemma_append_entry(text: Seq<char>, p: Ping)
    requires
        text.len() == 0 || text.last() == '\n',
    ensures
        records(text + encode(p).push('\n')) == records(text).push(p),
{
    let e = encode(p);
    lemma_line_round_trip(p);
    lemma_latency_ends_with_digit(p.ping);
    // The entry alone: its record line, then an empty line.
    assert(e.push('\n') =~= e + seq!['\n'] + Seq::<char>::empty());
    lemma_records_join(e, Seq::<char>::empty());
    lemma_encode_no_break(p);
    lemma_records_one_line(e);
    lemma_records_one_line(Seq::<char>::empty());
    assert(line_record(Seq::<char>::empty()) is None);
    assert(records(e) =~= seq![p]);
    assert(records(Seq::<char>::empty()) =~= Seq::<Ping>::empty());
    if text.len() == 0 {
        assert(text + e.push('\n') =~= e.push('\n'));
        assert(text =~= Seq::<char>::empty());
        assert(records(text).push(p) =~= seq![p]);
        assert(records(e.push('\n')) =~= seq![p]);
    } else {
        let t = text.drop_last();
        assert(text =~= t + seq!['\n'] + Seq::<char>::empty());
        assert(text + e.push('\n') =~= t + seq!['\n'] + e.push('\n'));
        lemma_records_join(t, e.push('\n'));
        lemma_records_join(t, Seq::<char>::empty());
        assert(records(text) =~= records(t));
        assert(records(e.push('\n')) =~= seq![p]);
    }
}

/// The samples of text without a line break: the record of its one line.
proof fn lemma_records_one_line(l: Seq<char>)
    requires
        !l.contains('\n'),
    ensures
        records(l) == match line_record(l) {
            Some(p) => seq![p],
            None => Seq::<Ping>::empty(),
        },
{
    lemma_split_lines_no_break(l);
    let sl = split_lines(l);
    assert(sl.drop_last() =~= Seq::<Seq<char>>::empty());
    assert(sl.last() == l);
    assert(sl.drop_last().filter_map(|line: Seq<char>| line_record(line)) =~= Seq::<Ping>::empty());
    match line_record(l) {
        Some(p) => {
            assert(Seq::<Ping>::empty() + seq![p] =~= seq![p]);
        },
        None => {},
    }
}

/// Text without a line break is one line.
proof fn lemma_split_lines_no_break(s: Seq<char>)
    requires
        !s.contains('\n'),
    ensures
        split_lines(s) == seq![s],
    decreases s.len(),
{
    if s.len() == 0 {
        assert(s =~= Seq::<char>::empty());
        assert(split_lines(s) =~= seq![s]);
    } else {
        let d = s.drop_last();
        assert(!d.contains('\n')) by {
            if d.contains('\n') {
                let i = choose|i: int| 0 <= i < d.len() && d[i] == '\n';
                assert(s[i] == '\n');
            }
        }
        lemma_split_lines_no_break(d);
        assert(s.last() != '\n') by {
            assert(s[s.len() - 1] == s.last());
        }
        assert(d.push(s.last()) =~= s);
        assert(split_lines(s) =~= seq![s]);
    }
}

/// A record line holds no line break.
proof fn lemma_encode_no_break(p: Ping)
    ensures
        !encode(p).contains('\n'),
{
    let tt = time_text(p.time as int);
    let lt = latency_text(p.ping as nat);
    let e = encode(p);
    lemma_time_text(p.time);
    lemma_latency_ends_with_digit(p.ping);
    if e.contains('\n') {
        let i = choose|i: int| 0 <= i < e.len() && e[i] == '\n';
        if i < tt.len() {
            assert(e[i] == tt[i]);
            assert(!is_blank(tt[i]));
        } else if i > tt.len() {
            assert(e[i] == lt[i - tt.len() - 1]);
        }
    }
}

/// A latency's text holds digits and a point, and ends with a digit.
proof fn lemma_latency_ends_with_digit(us: u64)
    ensures
        is_digit(latency_text(us as nat).last()),
        latency_text(us as nat).len() > 0,
        forall|j: int|
            0 <= j < latency_text(us as nat).len() ==> !is_blank(
                #[trigger] latency_text(us as nat)[j],
            ),
{
    let w = (us / 1000) as nat;
    lemma_decimal(w);
    let d = decimal(w);
    let f = (us % 1000) as nat;
    if f % 100 == 0 {
        lemma_fixed_digits(f / 100, 1);
    } else if f % 10 == 0 {
        lemma_fixed_digits(f / 10, 2);
    } else {
        lemma_fixed_digits(f, 3);
    }
    let ft = fraction_text(f);
    let lt = latency_text(us as nat);
    assert(lt.last() == ft.last());
    assert(ft.last() == ft[ft.len() - 1]);
    assert forall|j: int| 0 <= j < lt.len() implies !is_blank(#[trigger] lt[j]) by {
        if j < d.len() {
            assert(lt[j] == d[j]);
            assert(is_digit(d[j]));
        } else if j > d.len() {
            assert(lt[j] == ft[j - d.len() - 1]);
            assert(is_digit(ft[j - d.len() - 1]));
        }
    }
}

/// Reads the samples of a log file's text, newest (last written) first.
/// Lines that are not records are left out; the others are kept.
pub fn parse(input: &str) -> (r: Vec<Ping>)
    ensures
        r@ == records(input@).reverse(),
{
    let cs = chars_of(input);
    let n = cs.len();
    let mut found: Vec<Ping> = Vec::new();
    let mut start: usize = 0;
    let mut i: usize = 0;
    let ghost f = |line: Seq<char>| line_record(line);
    while i < n
        invariant
            n == cs@.len(),
            start <= i <= n,
            cs@ == input@,
            f == (|line: Seq<char>| line_record(line)),
            split_lines(cs@.take(i as int)).len() >= 1,
            split_lines(cs@.take(i as int)).last() == cs@.subrange(start as int, i as int),
            found@ == split_lines(cs@.take(i as int)).drop_last().filter_map(f),
        decreases n - i,
    {
        let ghost prev = split_lines(cs@.take(i as int));
        assert(cs@.take(i + 1).drop_last() =~= cs@.take(i as int));
        assert(cs@.take(i + 1).last() == cs@[i as int]);
        if cs[i] == '\n' {
            let rec = line_at(&cs, start, i);
            proof {
                let next = split_lines(cs@.take(i + 1));
                assert(next == prev.push(seq![]));
                assert(next.drop_last() =~= prev);
            }
            match rec {
                Some(p) => {
                    found.push(p);
                },
                None => {},
            }
            start = i + 1;
            proof {
                let next = split_lines(cs@.take(i + 1));
                assert(next.last() =~= cs@.subrange(start as int, i + 1));
            }
        } else {
            proof {
                let next = split_lines(cs@.take(i + 1));
                assert(next.drop_last() =~= prev.drop_last());
                assert(next.last() =~= cs@.subrange(start as int, i + 1));
            }
        }
        i = i + 1;
    }
    let rec = line_at(&cs, start, n);
    match rec {
        Some(p) => {
            found.push(p);
        },
        None => {},
    }
    proof {
        let all = split_lines(cs@.take(n as int));
        assert(cs@.take(n as int) =~= input@);
        assert(all.drop_last().push(all.last()) =~= all);
        assert(found@ =~= all.filter_map(f));
    }
    let mut r: Vec<Ping> = Vec::new();
    let mut j: usize = found.len();
    while j > 0
        invariant
            j <= found@.len(),
            r@ =~= found@.subrange(j as int, found@.len() as int).reverse(),
        decreases j,
    {
        j = j - 1;
        r.push(found[j]);
        assert(r@ =~= found@.subrange(j as int, found@.len() as int).reverse());
    }
    assert(found@.subrange(0, found@.len() as int) =~= found@);
    r
}

/// The record on the line `cs[lo..hi]`.
fn line_at(cs: &Vec<char>, lo: usize, hi: usize) -> (r: Option<Ping>)
    requires
        lo <= hi <= cs@.len(),
    ensures
        r == line_record(cs@.subrange(lo as int, hi as int)),
{
    decode_at(cs, lo, hi)
}

/// The characters of `s`, in order.
pub fn chars_of(s: &str) -> (r: Vec<char>)
    ensures
        r@ == s@,
{
    let mut r: Vec<char> = Vec::new();
    for c in it: s.chars()
        invariant
            it.seq() == s@,
            r@ == s@.take(it.index() as int),
    {
        r.push(c);
    }
    assert(r@ =~= s@);
    r
}

fn push_time(s: &mut String, t: i64)
    ensures
        final(s)@ == old(s)@ + time_text(t as int),
{
    if t < 0 {
        push_char(s, '-');
        let m = (-(t as i128)) as u64;
        push_decimal(s, m);
    } else {
        push_decimal(s, t as u64);
    }
    assert(s@ =~= old(s)@ + time_text(t as int));
}

fn push_latency(s: &mut String, us: u64)
    ensures
        final(s)@ == old(s)@ + latency_text(us as nat),
{
    push_decimal(s, us / 1000);
    push_char(s, '.');
    let f = us % 1000;
    if f % 100 == 0 {
        push_fixed_digits(s, f / 100, 1);
    } else if f % 10 == 0 {
        push_fixed_digits(s, f / 10, 2);
    } else {
        push_fixed_digits(s, f, 3);
    }
    assert(s@ =~= old(s)@ + latency_text(us as nat));
}

proof fn lemma_first_blank_shift(s: Seq<char>, lo: int, i: int)
    requires
        0 <= lo <= i <= s.len(),
        forall|j: int| lo <= j < i ==> !is_blank(#[trigger] s[j]),
    ensures
        first_blank(s, lo) == first_blank(s, i),
    decreases i - lo,
{
    if lo < i {
        lemma_first_blank_shift(s, lo + 1, i);
    }
}

proof fn lemma_first_dot_shift(s: Seq<char>, lo: int, i: int)
    requires
        0 <= lo <= i <= s.len(),
        forall|j: int| lo <= j < i ==> #[trigger] s[j] != '.',
    ensures
        first_dot(s, lo) == first_dot(s, i),
    decreases i - lo,
{
    if lo < i {
        lemma_first_dot_shift(s, lo + 1, i);
    }
}

/// The time field of `cs[lo..hi]`.
fn parse_time_at(cs: &Vec<char>, lo: usize, hi: usize) -> (r: Option<i64>)
    requires
        lo <= hi <= cs@.len(),
    ensures
        r == parse_time(cs@.subrange(lo as int, hi as int)),
{
    let ghost s = cs@.subrange(lo as int, hi as int);
    if lo < hi && cs[lo] == '-' {
        assert(s.drop_first() =~= cs@.subrange(lo + 1, hi as int));
        match parse_number(cs, lo + 1, hi) {
            Some(v) => {
                if v <= 0x8000_0000_0000_0000u64 {
                    Some((-(v as i128)) as i64)
                } else {
                    None
                }
            },
            None => None,
        }
    } else {
        let start = if lo < hi && cs[lo] == '+' {
            lo + 1
        } else {
            lo
        };
        assert(start > lo ==> s.drop_first() =~= cs@.subrange(start as int, hi as int));
        match parse_number(cs, start, hi) {
            Some(v) => {
                if v <= i64::MAX as u64 {
                    Some(v as i64)
                } else {
                    None
                }
            },
            None => None,
        }
    }
}

/// The microseconds that the digits `cs[lo..hi]` after a point stand for.
fn fraction_at(cs: &Vec<char>, lo: usize, hi: usize) -> (r: u64)
    requires
        lo < hi <= cs@.len(),
        all_digits(cs@.subrange(lo as int, hi as int)),
    ensures
        r == fraction_value(cs@.subrange(lo as int, hi as int)),
        r < 1000,
{
    let ghost f = cs@.subrange(lo as int, hi as int);
    let n = hi - lo;
    let top = if n >= 3 { lo + 3 } else { hi };
    assert(f.take(top - lo) =~= cs@.subrange(lo as int, top as int));
    let v = match parse_number(cs, lo, top) {
        Some(v) => v,
        None => 0,
    };
    proof {
        let g = cs@.subrange(lo as int, top as int);
        assert(all_digits(g)) by {
            assert forall|i: int| 0 <= i < g.len() implies is_digit(#[trigger] g[i]) by {
                assert(g[i] == f[i]);
            }
        }
        crate::text::lemma_digits_bound(g);
        lemma_pow10_small();
        if n >= 3 {
            assert(f.take(3) =~= g);
        } else {
            assert(f =~= g);
        }
        assert(v == digits_value(g));
    }
    if n >= 3 {
        v
    } else if n == 2 {
        v * 10
    } else {
        v * 100
    }
}

proof fn lemma_pow10_small()
    ensures
        pow10(0) == 1,
        pow10(1) == 10,
        pow10(2) == 100,
        pow10(3) == 1000,
{
    reveal_with_fuel(pow10, 4);
}

/// The latency field of `cs[lo..hi]`.
pub(crate) fn parse_latency_at(cs: &Vec<char>, lo: usize, hi: usize) -> (r: Option<u64>)
    requires
        lo <= hi <= cs@.len(),
    ensures
        r == parse_latency(cs@.subrange(lo as int, hi as int)),
{
    let ghost s = cs@.subrange(lo as int, hi as int);
    let start = if lo < hi && cs[lo] == '+' {
        lo + 1
    } else {
        lo
    };
    let ghost u = cs@.subrange(start as int, hi as int);
    assert(u =~= if s.len() > 0 && s[0] == '+' {
        s.drop_first()
    } else {
        s
    });
    let mut k: usize = start;
    while k < hi && cs[k] != '.'
        invariant
            start <= k <= hi <= cs@.len(),
            u == cs@.subrange(start as int, hi as int),
            first_dot(u, 0) == first_dot(u, k - start),
        decreases hi - k,
    {
        k = k + 1;
    }
    assert(first_dot(u, 0) == k - start);
    assert(u.take(k - start) =~= cs@.subrange(start as int, k as int));
    let fs = if k < hi {
        k + 1
    } else {
        hi
    };
    let ghost frac = if k < hi {
        u.skip(k - start + 1)
    } else {
        Seq::<char>::empty()
    };
    assert(frac =~= cs@.subrange(fs as int, hi as int));
    let whole_ok = k == start || is_number_at(cs, start, k);
    let frac_ok = fs == hi || is_number_at(cs, fs, hi);
    if !whole_ok || !frac_ok || (k == start && fs == hi) {
        return None;
    }
    let w = if k == start {
        0
    } else {
        match parse_number(cs, start, k) {
            Some(w) => w,
            None => {
                return None;
            },
        }
    };
    assert(w == digits_value(u.take(k - start)));
    if w > u64::MAX / 1000 {
        assert(w * 1000 > u64::MAX) by (nonlinear_arith)
            requires
                w > u64::MAX / 1000,
        ;
        return None;
    }
    let f = if fs < hi {
        fraction_at(cs, fs, hi)
    } else {
        0
    };
    assert(f == fraction_value(frac));
    if w * 1000 > u64::MAX - f {
        None
    } else {
        Some(w * 1000 + f)
    }
}

/// `lo` plus the index in `cs[lo..hi]` of the first blank at or after
/// `from - lo`.
fn field_end(cs: &Vec<char>, lo: usize, hi: usize, from: usize) -> (r: usize)
    requires
        lo <= from <= hi <= cs@.len(),
    ensures
        r == lo + first_blank(cs@.subrange(lo as int, hi as int), from - lo),
        from <= r <= hi,
{
    let ghost s = cs@.subrange(lo as int, hi as int);
    let mut k: usize = from;
    while k < hi && !is_blank_char(cs[k])
        invariant
            lo <= from <= k <= hi <= cs@.len(),
            s == cs@.subrange(lo as int, hi as int),
            first_blank(s, from - lo) == first_blank(s, k - lo),
        decreases hi - k,
    {
        assert(s[k - lo] == cs@[k as int]);
        k = k + 1;
    }
    proof {
        if k < hi {
            assert(s[k - lo] == cs@[k as int]);
        }
    }
    k
}

/// `lo` plus the index in `cs[lo..hi]` of the first character that is not a
/// blank at or after `from - lo`.
fn blanks_end(cs: &Vec<char>, lo: usize, hi: usize, from: usize) -> (r: usize)
    requires
        lo <= from <= hi <= cs@.len(),
    ensures
        r == lo + first_nonblank(cs@.subrange(lo as int, hi as int), from - lo),
        from <= r <= hi,
{
    let ghost s = cs@.subrange(lo as int, hi as int);
    let mut k: usize = from;
    while k < hi && is_blank_char(cs[k])
        invariant
            lo <= from <= k <= hi <= cs@.len(),
            s == cs@.subrange(lo as int, hi as int),
            first_nonblank(s, from - lo) == first_nonblank(s, k - lo),
        decreases hi - k,
    {
        assert(s[k - lo] == cs@[k as int]);
        k = k + 1;
    }
    proof {
        if k < hi {
            assert(s[k - lo] == cs@[k as int]);
        }
    }
    k
}

/// The record in `cs[lo..hi]`.
fn decode_at(cs: &Vec<char>, lo: usize, hi: usize) -> (r: Option<Ping>)
    requires
        lo <= hi <= cs@.len(),
    ensures
        r == decode(cs@.subrange(lo as int, hi as int)),
{
    let ghost s = cs@.subrange(lo as int, hi as int);
    let a = blanks_end(cs, lo, hi, lo);
    let b = field_end(cs, lo, hi, a);
    let c = blanks_end(cs, lo, hi, b);
    let d = field_end(cs, lo, hi, c);
    let e = blanks_end(cs, lo, hi, d);
    if !(a < b && c < d && e == hi) {
        return None;
    }
    assert(s.subrange(a - lo, b - lo) =~= cs@.subrange(a as int, b as int));
    assert(s.subrange(c - lo, d - lo) =~= cs@.subrange(c as int, d as int));
    let t = parse_time_at(cs, a, b);
    let l = parse_latency_at(cs, c, d);
    match (t, l) {
        (Some(t), Some(l)) => Some(Ping { time: t, ping: l }),
        _ => None,
    }
}

/// A record line reads back as the sample it was written from.
pub proof fn lemma_line_round_trip(p: Ping)
    ensures
        decode(encode(p)) == Some(p),
{
    let tt = time_text(p.time as int);
    let lt = latency_text(p.ping as nat);
    let line = encode(p);
    let n = tt.len() as int;
    let len = line.len() as int;
    lemma_time_text(p.time);
    lemma_latency_ends_with_digit(p.ping);
    // The time field starts the line and holds no blank.
    assert forall|j: int| 0 <= j < n implies !is_blank(#[trigger] line[j]) by {
        assert(line[j] == tt[j]);
    }
    assert(first_nonblank(line, 0) == 0);
    lemma_first_blank_shift(line, 0, n);
    assert(line[n] == ' ');
    assert(first_blank(line, n) == n);
    // One blank, then the latency field up to the end of the line.
    assert(line[n + 1] == lt[0]);
    assert(first_nonblank(line, n + 1) == n + 1);
    assert(first_nonblank(line, n) == n + 1);
    assert forall|j: int| n + 1 <= j < len implies !is_blank(#[trigger] line[j]) by {
        assert(line[j] == lt[j - n - 1]);
    }
    lemma_first_blank_shift(line, n + 1, len);
    assert(first_blank(line, len) == len);
    assert(first_nonblank(line, len) == len);
    assert(line.subrange(0, n) =~= tt);
    assert(line.subrange(n + 1, len) =~= lt);
    lemma_latency_text(p.ping);
}

proof fn lemma_time_text(t: i64)
    ensures
        parse_time(time_text(t as int)) == Some(t),
        forall|j: int|
            0 <= j < time_text(t as int).len() ==> !is_blank(#[trigger] time_text(t as int)[j]),
{
    let s = time_text(t as int);
    if t < 0 {
        let d = decimal((-t) as nat);
        lemma_decimal((-t) as nat);
        assert(s.drop_first() =~= d);
        assert forall|j: int| 0 <= j < s.len() implies !is_blank(#[trigger] s[j]) by {
            if j > 0 {
                assert(s[j] == d[j - 1]);
                assert(is_digit(d[j - 1]));
            }
        }
    } else {
        lemma_decimal(t as nat);
        assert(is_digit(s[0]));
        assert forall|j: int| 0 <= j < s.len() implies !is_blank(#[trigger] s[j]) by {
            assert(is_digit(s[j]));
        }
    }
}

proof fn lemma_latency_text(us: u64)
    ensures
        parse_latency(latency_text(us as nat)) == Some(us),
{
    let s = latency_text(us as nat);
    let w = (us / 1000) as nat;
    let f = (us % 1000) as nat;
    let d = decimal(w);
    let ft = fraction_text(f);
    lemma_decimal(w);
    assert(s[0] == d[0]);
    assert(is_digit(d[0]));
    assert forall|j: int| 0 <= j < d.len() implies #[trigger] s[j] != '.' by {
        assert(s[j] == d[j]);
        assert(is_digit(d[j]));
    }
    lemma_first_dot_shift(s, 0, d.len() as int);
    assert(s[d.len() as int] == '.');
    assert(s.take(d.len() as int) =~= d);
    assert(s.skip(d.len() as int + 1) =~= ft);
    if f % 100 == 0 {
        lemma_fixed_digits(f / 100, 1);
        assert(pow10(1) == 10) by {
            reveal_with_fuel(pow10, 2);
        }
        assert(ft.len() == 1);
    } else if f % 10 == 0 {
        lemma_fixed_digits(f / 10, 2);
        assert(pow10(2) == 100) by {
            reveal_with_fuel(pow10, 3);
        }
    } else {
        lemma_fixed_digits(f, 3);
        assert(pow10(3) == 1000) by {
            reveal_with_fuel(pow10, 4);
        }
        assert(ft.take(3) =~= ft);
    }
    assert(fraction_value(ft) == f);
    assert(w * 1000 + f == us);
}

} // verus!
