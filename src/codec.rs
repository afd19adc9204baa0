//! One log record per line: `{"type":"Set","k":<key>,"v":<value>}` or
//! `{"type":"Remove","k":<key>}`, where `<key>` and `<value>` are JSON string
//! literals as serde_json writes them.
use vstd::prelude::*;
use vstd::slice::slice_subrange;

verus! {

pub const QUOTE: u8 = 34;

pub const BACKSLASH: u8 = 92;

pub const NEWLINE: u8 = 10;

/// What a record says, in terms of the key's and value's characters.
pub enum Record {
    Put { key: Seq<char>, value: Seq<char> },
    Remove { key: Seq<char> },
}

/// A mutation as it is written to the log.
pub enum LogEntry {
    Put { key: String, value: String },
    Remove { key: String },
}

impl View for LogEntry {
    type V = Record;

    open spec fn view(&self) -> Record {
        match self {
            LogEntry::Put { key, value } => Record::Put { key: key@, value: value@ },
            LogEntry::Remove { key } => Record::Remove { key: key@ },
        }
    }
}

/// The bytes that serde_json writes for a string: a quoted, escaped literal.
pub uninterp spec fn json_string_bytes(s: Seq<char>) -> Seq<u8>;

/// The string that serde_json reads from a JSON string literal, if it reads one.
pub uninterp spec fn json_string_value(b: Seq<u8>) -> Option<Seq<char>>;

/// A byte that stands for itself inside a literal.
pub open spec fn plain_byte(b: u8) -> bool {
    b >= 0x20 && b != QUOTE && b != BACKSLASH
}

/// The inside of a literal: plain bytes and two-byte escapes that start with a
/// backslash (`\u00XX` is the escape `\u` followed by four plain bytes).
pub open spec fn escaped_run(t: Seq<u8>) -> bool
    decreases t.len(),
{
    if t.len() == 0 {
        true
    } else if t[0] == BACKSLASH {
        t.len() >= 2 && t[1] >= 0x20 && escaped_run(t.subrange(2, t.len() as int))
    } else {
        plain_byte(t[0]) && escaped_run(t.subrange(1, t.len() as int))
    }
}

/// A quoted literal with nothing unescaped inside.
pub open spec fn quoted_literal(t: Seq<u8>) -> bool {
    &&& t.len() >= 2
    &&& t[0] == QUOTE
    &&& t[t.len() - 1] == QUOTE
    &&& escaped_run(t.subrange(1, t.len() - 1))
}

/// serde_json writes `s` as a well-formed literal and reads it back as `s`.
pub open spec fn faithful(s: Seq<char>) -> bool {
    &&& quoted_literal(json_string_bytes(s))
    &&& json_string_value(json_string_bytes(s)) == Some(s)
}

pub open spec fn faithful_record(r: Record) -> bool {
    match r {
        Record::Put { key, value } => faithful(key) && faithful(value),
        Record::Remove { key } => faithful(key),
    }
}

/// `{"type":"Set","k":`
pub open spec fn set_head() -> Seq<u8> {
    seq![
        123u8, 34u8, 116u8, 121u8, 112u8, 101u8, 34u8, 58u8, 34u8, 83u8, 101u8, 116u8, 34u8,
        44u8, 34u8, 107u8, 34u8, 58u8,
    ]
}

/// `{"type":"Remove","k":`
pub open spec fn remove_head() -> Seq<u8> {
    seq![
        123u8, 34u8, 116u8, 121u8, 112u8, 101u8, 34u8, 58u8, 34u8, 82u8, 101u8, 109u8, 111u8,
        118u8, 101u8, 34u8, 44u8, 34u8, 107u8, 34u8, 58u8,
    ]
}

/// `,"v":`
pub open spec fn value_sep() -> Seq<u8> {
    seq![44u8, 34u8, 118u8, 34u8, 58u8]
}

/// `}`
pub open spec fn tail() -> Seq<u8> {
    seq![125u8]
}

/// The line of a record, without its terminating newline.
pub open spec fn record_line(r: Record) -> Seq<u8> {
    match r {
        Record::Put { key, value } => set_head() + json_string_bytes(key) + value_sep()
            + json_string_bytes(value) + tail(),
        Record::Remove { key } => remove_head() + json_string_bytes(key) + tail(),
    }
}

/// The bytes a record takes in a log file: its line and a newline.
pub open spec fn record_bytes(r: Record) -> Seq<u8> {
    record_line(r).push(NEWLINE)
}

/// Scanning the inside of a literal from `i`: the position of the closing quote.
pub open spec fn literal_close(b: Seq<u8>, i: int) -> Option<int>
    decreases b.len() - i,
{
    if i < 0 || i >= b.len() {
        None
    } else if b[i] == QUOTE {
        Some(i)
    } else if b[i] == BACKSLASH {
        if i + 1 >= b.len() {
            None
        } else {
            literal_close(b, i + 2)
        }
    } else {
        literal_close(b, i + 1)
    }
}

/// The end (exclusive) of the literal that opens at `start`.
pub open spec fn literal_end(b: Seq<u8>, start: int) -> Option<int> {
    if 0 <= start < b.len() && b[start] == QUOTE {
        match literal_close(b, start + 1) {
            Some(c) => Some(c + 1),
            None => None,
        }
    } else {
        None
    }
}

pub open spec fn has_at(b: Seq<u8>, at: int, p: Seq<u8>) -> bool {
    0 <= at && at + p.len() <= b.len() && b.subrange(at, at + p.len()) == p
}

/// The record that a line (without its newline) holds, if it holds one.
pub open spec fn parse_line(line: Seq<u8>) -> Option<Record> {
    if has_at(line, 0, set_head()) {
        let s1 = set_head().len() as int;
        match literal_end(line, s1) {
            Some(e1) => {
                let s2 = e1 + value_sep().len();
                if has_at(line, e1, value_sep()) {
                    match literal_end(line, s2) {
                        Some(e2) => {
                            if e2 + 1 == line.len() && line[e2] == 125u8 {
                                match (
                                    json_string_value(line.subrange(s1, e1)),
                                    json_string_value(line.subrange(s2, e2)),
                                ) {
                                    (Some(k), Some(v)) => Some(Record::Put { key: k, value: v }),
                                    _ => None,
                                }
                            } else {
                                None
                            }
                        },
                        None => None,
                    }
                } else {
                    None
                }
            },
            None => None,
        }
    } else if has_at(line, 0, remove_head()) {
        let s1 = remove_head().len() as int;
        match literal_end(line, s1) {
            Some(e1) => {
                if e1 + 1 == line.len() && line[e1] == 125u8 {
                    match json_string_value(line.subrange(s1, e1)) {
                        Some(k) => Some(Record::Remove { key: k }),
                        None => None,
                    }
                } else {
                    None
                }
            },
            None => None,
        }
    } else {
        None
    }
}

/// Scanning an escaped run that a quote follows stops at that quote.
proof fn lemma_literal_close(b: Seq<u8>, i: int, n: int)
    requires
        0 <= i,
        0 <= n,
        i + n < b.len(),
        escaped_run(b.subrange(i, i + n)),
        b[i + n] == QUOTE,
    ensures
        literal_close(b, i) == Some(i + n),
    decreases n,
{
    let t = b.subrange(i, i + n);
    if n == 0 {
    } else if t[0] == BACKSLASH {
        assert(t.subrange(2, t.len() as int) =~= b.subrange(i + 2, i + n));
        lemma_literal_close(b, i + 2, n - 2);
    } else {
        assert(t.subrange(1, t.len() as int) =~= b.subrange(i + 1, i + n));
        lemma_literal_close(b, i + 1, n - 1);
    }
}

/// A literal that stands at `start` ends where it ends, whatever follows.
proof fn lemma_literal_end(b: Seq<u8>, start: int, q: Seq<u8>)
    requires
        quoted_literal(q),
        has_at(b, start, q),
    ensures
        literal_end(b, start) == Some(start + q.len()),
{
    assert(b[start] == q[0]);
    assert(b.subrange(start + 1, start + q.len() - 1) =~= q.subrange(1, q.len() - 1));
    assert(b[start + q.len() - 1] == q[q.len() - 1]);
    lemma_literal_close(b, start + 1, q.len() - 2);
}

/// An escaped run holds no byte below 0x20, so no newline.
proof fn lemma_escaped_run_no_newline(t: Seq<u8>)
    requires
        escaped_run(t),
    ensures
        forall|i: int| 0 <= i < t.len() ==> t[i] >= 0x20,
    decreases t.len(),
{
    if t.len() == 0 {
    } else if t[0] == BACKSLASH {
        let r = t.subrange(2, t.len() as int);
        lemma_escaped_run_no_newline(r);
        assert forall|i: int| 0 <= i < t.len() implies t[i] >= 0x20 by {
            if i >= 2 {
                assert(t[i] == r[i - 2]);
            }
        }
    } else {
        let r = t.subrange(1, t.len() as int);
        lemma_escaped_run_no_newline(r);
        assert forall|i: int| 0 <= i < t.len() implies t[i] >= 0x20 by {
            if i >= 1 {
                assert(t[i] == r[i - 1]);
            }
        }
    }
}

proof fn lemma_literal_no_newline(q: Seq<u8>)
    requires
        quoted_literal(q),
    ensures
        forall|i: int| 0 <= i < q.len() ==> q[i] != NEWLINE,
{
    let inner = q.subrange(1, q.len() - 1);
    lemma_escaped_run_no_newline(inner);
    assert forall|i: int| 0 <= i < q.len() implies q[i] != NEWLINE by {
        if 0 < i < q.len() - 1 {
            assert(q[i] == inner[i - 1]);
        }
    }
}

/// A line that was written for a record holds no newline byte.
pub proof fn lemma_record_line_no_newline(r: Record)
    requires
        faithful_record(r),
    ensures
        forall|i: int| 0 <= i < record_line(r).len() ==> record_line(r)[i] != NEWLINE,
{
    match r {
        Record::Put { key, value } => {
            let qk = json_string_bytes(key);
            let qv = json_string_bytes(value);
            lemma_literal_no_newline(qk);
            lemma_literal_no_newline(qv);
            let line = record_line(r);
            let a = set_head().len() as int;
            let b = a + qk.len();
            let c = b + value_sep().len();
            let d = c + qv.len();
            assert forall|i: int| 0 <= i < line.len() implies line[i] != NEWLINE by {
                if i < a {
                    assert(line[i] == set_head()[i]);
                } else if i < b {
                    assert(line[i] == qk[i - a]);
                } else if i < c {
                    assert(line[i] == value_sep()[i - b]);
                } else if i < d {
                    assert(line[i] == qv[i - c]);
                } else {
                    assert(line[i] == tail()[i - d]);
                }
            }
        },
        Record::Remove { key } => {
            let qk = json_string_bytes(key);
            lemma_literal_no_newline(qk);
            let line = record_line(r);
            let a = remove_head().len() as int;
            let b = a + qk.len();
            assert forall|i: int| 0 <= i < line.len() implies line[i] != NEWLINE by {
                if i < a {
                    assert(line[i] == remove_head()[i]);
                } else if i < b {
                    assert(line[i] == qk[i - a]);
                } else {
                    assert(line[i] == tail()[i - b]);
                }
            }
        },
    }
}

/// Reading back the line of a record gives the record.
pub proof fn lemma_parse_record_line(r: Record)
    requires
        faithful_record(r),
    ensures
        parse_line(record_line(r)) == Some(r),
{
    let line = record_line(r);
    match r {
        Record::Put { key, value } => {
            let qk = json_string_bytes(key);
            let qv = json_string_bytes(value);
            let s1 = set_head().len() as int;
            let e1 = s1 + qk.len();
            let s2 = e1 + value_sep().len();
            let e2 = s2 + qv.len();
            assert(line.subrange(0, s1) =~= set_head());
            assert(line.subrange(s1, e1) =~= qk);
            assert(line.subrange(e1, s2) =~= value_sep());
            assert(line.subrange(s2, e2) =~= qv);
            lemma_literal_end(line, s1, qk);
            lemma_literal_end(line, s2, qv);
            assert(line[e2] == 125u8);
            assert(line.len() == e2 + 1);
        },
        Record::Remove { key } => {
            let qk = json_string_bytes(key);
            let s1 = remove_head().len() as int;
            let e1 = s1 + qk.len();
            assert(line.subrange(0, s1) =~= remove_head());
            assert(line.subrange(s1, e1) =~= qk);
            lemma_literal_end(line, s1, qk);
            assert(line[e1] == 125u8);
            assert(line.len() == e1 + 1);
            assert(!has_at(line, 0, set_head())) by {
                assert(line[9] == 82u8);
                assert(set_head()[9] == 83u8);
                assert(line.subrange(0, 18)[9] == line[9]);
            }
        },
    }
}

/// Relies on serde_json::to_vec on a `str`: it writes a quoted, escaped
/// literal (see `format_escaped_str` in serde_json's serializer), which
/// serde_json::from_slice reads back as the same string. Writing into a `Vec`
/// does not fail.
#[verifier::external_body]
fn json_quote(s: &str) -> (r: Vec<u8>)
    ensures
        r@ == json_string_bytes(s@),
        quoted_literal(r@),
        json_string_value(r@) == Some(s@),
{
    serde_json::to_vec(s).unwrap_or_default()
}

/// Relies on serde_json::from_slice into a `String`: it reads a JSON string
/// literal, or fails.
#[verifier::external_body]
fn json_unquote(b: &[u8]) -> (r: Option<String>)
    ensures
        match r {
            Some(s) => json_string_value(b@) == Some(s@),
            None => json_string_value(b@).is_none(),
        },
{
    serde_json::from_slice::<String>(b).ok()
}

fn set_head_bytes() -> (r: Vec<u8>)
    ensures
        r@ == set_head(),
{
    vec![
        123u8, 34u8, 116u8, 121u8, 112u8, 101u8, 34u8, 58u8, 34u8, 83u8, 101u8, 116u8, 34u8,
        44u8, 34u8, 107u8, 34u8, 58u8,
    ]
}

fn remove_head_bytes() -> (r: Vec<u8>)
    ensures
        r@ == remove_head(),
{
    vec![
        123u8, 34u8, 116u8, 121u8, 112u8, 101u8, 34u8, 58u8, 34u8, 82u8, 101u8, 109u8, 111u8,
        118u8, 101u8, 34u8, 44u8, 34u8, 107u8, 34u8, 58u8,
    ]
}

fn value_sep_bytes() -> (r: Vec<u8>)
    ensures
        r@ == value_sep(),
{
    vec![44u8, 34u8, 118u8, 34u8, 58u8]
}

/// Encodes a record as the bytes it takes in a log file, newline included.
pub fn encode(entry: &LogEntry) -> (r: Vec<u8>)
    ensures
        r@ == record_bytes(entry@),
        faithful_record(entry@),
{
    match entry {
        LogEntry::Put { key, value } => {
            let mut out = set_head_bytes();
            let mut k = json_quote(key.as_str());
            let mut sep = value_sep_bytes();
            let mut v = json_quote(value.as_str());
            out.append(&mut k);
            out.append(&mut sep);
            out.append(&mut v);
            out.push(125u8);
            out.push(NEWLINE);
            assert(out@ =~= record_bytes(entry@));
            out
        },
        LogEntry::Remove { key } => {
            let mut out = remove_head_bytes();
            let mut k = json_quote(key.as_str());
            out.append(&mut k);
            out.push(125u8);
            out.push(NEWLINE);
            assert(out@ =~= record_bytes(entry@));
            out
        },
    }
}

/// Whether `p` stands in `b` at `at`.
fn bytes_at(b: &[u8], at: usize, p: &Vec<u8>) -> (r: bool)
    ensures
        r == has_at(b@, at as int, p@),
{
    if at > b.len() || p.len() > b.len() - at {
        return false;
    }
    let n = b.len();
    let mut i: usize = 0;
    while i < p.len()
        invariant
            n == b@.len(),
            at + p@.len() <= n,
            0 <= i <= p@.len(),
            forall|j: int| 0 <= j < i ==> b@[at + j] == p@[j],
        decreases p@.len() - i,
    {
        assert(at + i < b@.len());
        if b[at + i] != p[i] {
            assert(b@.subrange(at as int, at + p@.len())[i as int] != p@[i as int]);
            return false;
        }
        i = i + 1;
    }
    assert(b@.subrange(at as int, at + p@.len()) =~= p@);
    true
}

/// The end (exclusive) of the literal that opens at `start`.
fn find_literal_end(b: &[u8], start: usize) -> (r: Option<usize>)
    ensures
        match r {
            Some(e) => literal_end(b@, start as int) == Some(e as int) && e <= b.len(),
            None => literal_end(b@, start as int).is_none(),
        },
{
    if start >= b.len() || b[start] != QUOTE {
        return None;
    }
    let mut i: usize = start + 1;
    while i < b.len()
        invariant
            start < b@.len(),
            b@[start as int] == QUOTE,
            start + 1 <= i,
            literal_close(b@, start + 1) == literal_close(b@, i as int),
        decreases b@.len() - i,
    {
        if b[i] == QUOTE {
            assert(literal_close(b@, i as int) == Some(i as int));
            assert(literal_end(b@, start as int) == Some(i + 1));
            return Some(i + 1);
        } else if b[i] == BACKSLASH {
            if i + 1 >= b.len() {
                return None;
            }
            i = i + 2;
        } else {
            i = i + 1;
        }
    }
    None
}

/// Reads the record on a line (given without its newline).
pub fn decode(line: &[u8]) -> (r: Option<LogEntry>)
    ensures
        match r {
            Some(e) => parse_line(line@) == Some(e@),
            None => parse_line(line@).is_none(),
        },
{
    let set = set_head_bytes();
    let remove = remove_head_bytes();
    if bytes_at(line, 0, &set) {
        let s1 = set.len();
        let e1 = match find_literal_end(line, s1) {
            Some(e) => e,
            None => return None,
        };
        let sep = value_sep_bytes();
        if !bytes_at(line, e1, &sep) {
            return None;
        }
        assert(e1 + sep@.len() <= line.len());
        let s2 = e1 + sep.len();
        let e2 = match find_literal_end(line, s2) {
            Some(e) => e,
            None => return None,
        };
        if e2 >= line.len() || e2 != line.len() - 1 || line[e2] != 125u8 {
            return None;
        }
        let key = match json_unquote(slice_subrange(line, s1, e1)) {
            Some(k) => k,
            None => return None,
        };
        let value = match json_unquote(slice_subrange(line, s2, e2)) {
            Some(v) => v,
            None => return None,
        };
        Some(LogEntry::Put { key, value })
    } else if bytes_at(line, 0, &remove) {
        let s1 = remove.len();
        let e1 = match find_literal_end(line, s1) {
            Some(e) => e,
            None => return None,
        };
        if e1 >= line.len() || e1 != line.len() - 1 || line[e1] != 125u8 {
            return None;
        }
        match json_unquote(slice_subrange(line, s1, e1)) {
            Some(key) => Some(LogEntry::Remove { key }),
            None => None,
        }
    } else {
        None
    }
}

} // verus!
