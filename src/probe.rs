//! Reading the latency out of the text that the `ping` command prints.
use vstd::prelude::*;
use crate::record::{chars_of, parse_latency, LOST_PING};

verus! {

/// The reply line that `ping -c 1` prints on its second line; its second
/// group is the round-trip time in milliseconds.
pub const REPLY_PATTERN: &'static str =
    r"^64 bytes from [\w\.\-:]+( \([\w\.\-:]+\))?: icmp_seq=\d+ ttl=\d+ time=([\d.]+) ms";

/// What group `group` of the first match of the regular expression `pattern`
/// in `text` holds; `None` where the pattern is not valid, does not match, or
/// the group takes no part in the match.
pub uninterp spec fn regex_group(pattern: Seq<char>, text: Seq<char>, group: usize) -> Option<
    Seq<char>,
>;

/// Relies on the regex crate's `Regex::new`, `Regex::captures` and
/// `Captures::get`: the text of one group of the first match.
#[verifier::external_body]
fn capture_group(pattern: &str, text: &str, group: usize) -> (r: Option<String>)
    ensures
        match r {
            Some(s) => regex_group(pattern@, text@, group) == Some(s@),
            None => regex_group(pattern@, text@, group) is None,
        },
{
    let re = regex::Regex::new(pattern).ok()?;
    re.captures(text)?.get(group).map(|m| m.as_str().to_string())
}

/// The latency, in microseconds, of a reply whose time field is `field`; a
/// missing or unreadable field counts as a lost sample.
pub open spec fn reply_latency(field: Option<Seq<char>>) -> u64 {
    match field {
        Some(f) => match parse_latency(f) {
            Some(v) => v,
            None => LOST_PING,
        },
        None => LOST_PING,
    }
}

/// What follows the first line break of `s`, if there is one.
pub open spec fn after_first_line(s: Seq<char>) -> Option<Seq<char>> {
    match s.index_of_first('\n') {
        Some(k) => Some(s.skip(k + 1)),
        None => None,
    }
}

/// The latency that a reply's time field stands for, in microseconds.
pub fn latency_of_field(field: Option<&str>) -> (r: u64)
    ensures
        r == reply_latency(
            match field {
                Some(f) => Some(f@),
                None => None,
            },
        ),
{
    match field {
        Some(f) => {
            let cs = chars_of(f);
            let v = crate::record::parse_latency_at(&cs, 0, cs.len());
            assert(cs@.subrange(0, cs@.len() as int) =~= f@);
            match v {
                Some(v) => v,
                None => LOST_PING,
            }
        },
        None => LOST_PING,
    }
}

/// The latency, in microseconds, that the output of `ping -c 1` reports, or
/// `LOST_PING` where it reports no reply.
pub fn parse_ping_output(output: &str) -> (r: u64)
    ensures
        r == match after_first_line(output@) {
            Some(rest) => reply_latency(regex_group(REPLY_PATTERN@, rest, 2)),
            None => LOST_PING,
        },
{
    let cs = chars_of(output);
    let mut i: usize = 0;
    while i < cs.len() && cs[i] != '\n'
        invariant
            i <= cs@.len(),
            cs@ == output@,
            forall|j: int| 0 <= j < i ==> cs@[j] != '\n',
        decreases cs@.len() - i,
    {
        i = i + 1;
    }
    proof {
        output@.index_of_first_ensures('\n');
    }
    if i == cs.len() {
        return LOST_PING;
    }
    let mut rest = String::new();
    let mut j: usize = i + 1;
    while j < cs.len()
        invariant
            i < j <= cs@.len(),
            rest@ == cs@.subrange(i + 1, j as int),
        decreases cs@.len() - j,
    {
        crate::text::push_char(&mut rest, cs[j]);
        assert(rest@ =~= cs@.subrange(i + 1, j + 1));
        j = j + 1;
    }
    assert(rest@ =~= output@.skip(i + 1));
    match capture_group(REPLY_PATTERN, rest.as_str(), 2) {
        Some(field) => latency_of_field(Some(field.as_str())),
        None => latency_of_field(None),
    }
}

} // verus!
