//! One history record: its grammar and its parser.
use vstd::prelude::*;
use crate::error::HistoryError;
use crate::text::{
    chars_of, dec_text, find_in, index_from, is_digit, lemma_dec_text, lemma_dec_text_reads_back,
    lemma_index_from_at, lemma_index_from_bounds, parse_decimal, parse_u64, trim_bounds,
    trimmed,
};

verus! {

broadcast use vstd::string::group_string_axioms;

/// One recorded command invocation.
#[derive(Clone, Debug, PartialEq, Eq)]
pub struct HistoryEntry {
    /// Time the command was run, in seconds since the epoch.
    pub timestamp: u64,
    /// How long the command ran, in seconds; zero when not recorded.
    pub duration: u64,
    /// The working directory the command ran in.
    pub directory: String,
    /// The command line as typed.
    pub command: String,
}

/// The mathematical content of a `HistoryEntry`.
pub struct EntryView {
    pub timestamp: u64,
    pub duration: u64,
    pub directory: Seq<char>,
    pub command: Seq<char>,
}

impl View for HistoryEntry {
    type V = EntryView;

    open spec fn view(&self) -> EntryView {
        EntryView {
            timestamp: self.timestamp,
            duration: self.duration,
            directory: self.directory@,
            command: self.command@,
        }
    }
}

/// The meta field split on `:`: the timestamp text and, when a third subfield
/// is present, the duration text. `None` when the timestamp subfield is
/// missing or there are more than three subfields.
pub open spec fn meta_parts(m: Seq<char>) -> Option<(Seq<char>, Option<Seq<char>>)> {
    let k1 = index_from(m, ':', 0);
    let k2 = index_from(m, ':', k1 + 1);
    if k1 >= m.len() {
        None
    } else if k2 >= m.len() {
        Some((m.subrange(k1 + 1, m.len() as int), None))
    } else if index_from(m, ':', k2 + 1) < m.len() {
        None
    } else {
        Some((m.subrange(k1 + 1, k2), Some(m.subrange(k2 + 1, m.len() as int))))
    }
}

/// The entry that a record's text describes, or `None` when the text breaks
/// the grammar `<marker>:<timestamp>[:<duration>];<directory>;<command>`.
/// The first two `;` end the meta and directory fields; the command keeps
/// any further `;`. Numbers may carry white space around them.
pub open spec fn parse_record(s: Seq<char>) -> Option<EntryView> {
    let a = index_from(s, ';', 0);
    let b = index_from(s, ';', a + 1);
    if a >= s.len() || b >= s.len() {
        None
    } else {
        match meta_parts(s.subrange(0, a)) {
            None => None,
            Some(parts) => {
                let ts = parse_u64(trimmed(parts.0));
                let du = match parts.1 {
                    None => Some(0u64),
                    Some(d) => parse_u64(trimmed(d)),
                };
                if ts is Some && du is Some {
                    Some(
                        EntryView {
                            timestamp: ts->0,
                            duration: du->0,
                            directory: s.subrange(a + 1, b),
                            command: s.subrange(b + 1, s.len() as int),
                        },
                    )
                } else {
                    None
                }
            },
        }
    }
}

/// A record's text laid out from an entry's fields behind the given marker:
/// `<marker>:<timestamp>:<duration>;<directory>;<command>`.
pub open spec fn record_text(marker: Seq<char>, e: EntryView) -> Seq<char> {
    marker + seq![':'] + dec_text(e.timestamp as nat) + seq![':'] + dec_text(e.duration as nat)
        + seq![';'] + e.directory + seq![';'] + e.command
}

/// Parsing a record laid out from an entry gives back that entry's timestamp,
/// duration, directory and command, for any marker without `:` or `;` and
/// any directory without `;`.
pub proof fn lemma_record_round_trip(marker: Seq<char>, e: EntryView)
    requires
        !marker.contains(':'),
        !marker.contains(';'),
        !e.directory.contains(';'),
    ensures
        parse_record(record_text(marker, e)) == Some(e),
{
    let t = dec_text(e.timestamp as nat);
    let d = dec_text(e.duration as nat);
    lemma_dec_text(e.timestamp as nat);
    lemma_dec_text(e.duration as nat);
    lemma_dec_text_reads_back(e.timestamp);
    lemma_dec_text_reads_back(e.duration);
    let m = marker + seq![':'] + t + seq![':'] + d;
    let s = record_text(marker, e);
    assert(s =~= m + seq![';'] + e.directory + seq![';'] + e.command);
    let p = marker.len() as int;
    let q = p + 1 + t.len();
    let a = m.len() as int;
    let b = a + 1 + e.directory.len();
    assert forall|j: int| 0 <= j < a implies m[j] != ';' && s[j] == m[j] by {
        if j < p {
            assert(m[j] == marker[j]);
        } else if p < j < q {
            assert(m[j] == t[j - p - 1]);
            assert(is_digit(t[j - p - 1]));
        } else if q < j {
            assert(m[j] == d[j - q - 1]);
            assert(is_digit(d[j - q - 1]));
        }
    }
    lemma_index_from_at(s, ';', 0, a);
    assert forall|j: int| a + 1 <= j < b implies s[j] != ';' by {
        assert(s[j] == e.directory[j - a - 1]);
    }
    lemma_index_from_at(s, ';', a + 1, b);
    assert(s.subrange(0, a) =~= m);
    assert forall|j: int| 0 <= j < p implies m[j] != ':' by {
        assert(m[j] == marker[j]);
    }
    lemma_index_from_at(m, ':', 0, p);
    assert forall|j: int| p + 1 <= j < q implies m[j] != ':' by {
        assert(m[j] == t[j - p - 1]);
        assert(is_digit(t[j - p - 1]));
    }
    lemma_index_from_at(m, ':', p + 1, q);
    assert forall|j: int| q + 1 <= j < a implies m[j] != ':' by {
        assert(m[j] == d[j - q - 1]);
        assert(is_digit(d[j - q - 1]));
    }
    lemma_index_from_at(m, ':', q + 1, a);
    assert(m.subrange(p + 1, q) =~= t);
    assert(m.subrange(q + 1, a) =~= d);
    assert(s.subrange(a + 1, b) =~= e.directory);
    assert(s.subrange(b + 1, s.len() as int) =~= e.command);
}

/// The error for a record that breaks the grammar.
fn malformed(s: &str) -> (r: HistoryError)
    ensures
        r matches HistoryError::MalformedRecord(t) && t@ == s@,
{
    HistoryError::MalformedRecord(s.to_owned())
}

impl HistoryEntry {
    /// Parses one record's text.
    pub fn parse_record(s: &str) -> (r: Result<HistoryEntry, HistoryError>)
        ensures
            r is Ok <==> parse_record(s@) is Some,
            r matches Ok(e) ==> parse_record(s@) == Some(e@),
            r matches Err(e) ==> (e matches HistoryError::MalformedRecord(t) && t@ == s@),
    {
        let cs = chars_of(s);
        let n = cs.len();
        assert(cs@.subrange(0, n as int) =~= s@);
        let a = find_in(&cs, ';', 0, n);
        proof {
            lemma_index_from_bounds(s@, ';', 0);
        }
        if a == n {
            return Err(malformed(s));
        }
        let b = find_in(&cs, ';', a + 1, n);
        proof {
            lemma_index_from_bounds(s@, ';', a + 1);
        }
        if b == n {
            return Err(malformed(s));
        }
        let ghost m = s@.subrange(0, a as int);
        assert(cs@.subrange(0, a as int) =~= m);
        let k1 = find_in(&cs, ':', 0, a);
        proof {
            lemma_index_from_bounds(m, ':', 0);
        }
        if k1 == a {
            return Err(malformed(s));
        }
        let k2 = find_in(&cs, ':', k1 + 1, a);
        proof {
            lemma_index_from_bounds(m, ':', k1 + 1);
        }
        let ts_end = k2;
        let mut dur: u64 = 0;
        if k2 < a {
            let k3 = find_in(&cs, ':', k2 + 1, a);
            if k3 < a {
                return Err(malformed(s));
            }
            assert(m.subrange(k2 + 1, a as int) =~= cs@.subrange(k2 + 1, a as int));
            let (x, y) = trim_bounds(&cs, k2 + 1, a);
            match parse_decimal(&cs, x, y) {
                None => {
                    return Err(malformed(s));
                },
                Some(d) => {
                    dur = d;
                },
            }
        }
        assert(m.subrange(k1 + 1, ts_end as int) =~= cs@.subrange(k1 + 1, ts_end as int));
        assert(m.len() == a);
        let (x, y) = trim_bounds(&cs, k1 + 1, ts_end);
        let ts = match parse_decimal(&cs, x, y) {
            None => {
                return Err(malformed(s));
            },
            Some(t) => t,
        };
        let directory = s.substring_char(a + 1, b).to_owned();
        let command = s.substring_char(b + 1, n).to_owned();
        Ok(HistoryEntry { timestamp: ts, duration: dur, directory, command })
    }
}

impl core::str::FromStr for HistoryEntry {
    type Err = HistoryError;

    /// Parses one record's text, as `HistoryEntry::parse_record` does.
    fn from_str(s: &str) -> (r: Result<HistoryEntry, HistoryError>)
        ensures
            r is Ok <==> parse_record(s@) is Some,
            r matches Ok(e) ==> parse_record(s@) == Some(e@),
            r matches Err(e) ==> (e matches HistoryError::MalformedRecord(t) && t@ == s@),
    {
        HistoryEntry::parse_record(s)
    }
}

} // verus!
