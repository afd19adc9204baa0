//! What the log files mean: replaying their records in order, file after file
//! by ascending id and line after line, gives the index.
use crate::codec::{parse_line, Record, NEWLINE};
use crate::index::LogPointer;
use vstd::prelude::*;

verus! {

/// The index as the log files describe it.
pub type IndexModel = Map<Seq<char>, LogPointer>;

/// The effect of one record on the index.
pub open spec fn apply(m: IndexModel, r: Record, p: LogPointer) -> IndexModel {
    match r {
        Record::Put { key, .. } => m.insert(key, p),
        Record::Remove { key } => m.remove(key),
    }
}

pub open spec fn pointer(file: u64, start: int, end: int) -> LogPointer {
    LogPointer { file, offset: start as u64, length: (end - start) as u64 }
}

/// Replays the lines of file `file` (contents `b`) onto `m`, from the line that
/// starts at `start`, with bytes before `i` on that line already scanned.
/// A line that does not parse makes the whole replay fail; bytes after the last
/// newline are an unfinished append and are left out.
pub open spec fn replay_scan(m: IndexModel, file: u64, b: Seq<u8>, start: int, i: int) -> Option<
    IndexModel,
>
    decreases b.len() - i,
{
    if i < 0 || i >= b.len() {
        Some(m)
    } else if b[i] == NEWLINE {
        match parse_line(b.subrange(start, i)) {
            Some(r) => replay_scan(apply(m, r, pointer(file, start, i + 1)), file, b, i + 1, i + 1),
            None => None,
        }
    } else {
        replay_scan(m, file, b, start, i + 1)
    }
}

pub open spec fn replay_file(m: IndexModel, file: u64, b: Seq<u8>) -> Option<IndexModel> {
    replay_scan(m, file, b, 0, 0)
}

/// Replays the files `ids`, in that order, as `disk` holds them.
pub open spec fn replay(ids: Seq<u64>, disk: Map<u64, Seq<u8>>) -> Option<IndexModel>
    decreases ids.len(),
{
    if ids.len() == 0 {
        Some(Map::empty())
    } else {
        match replay(ids.drop_last(), disk) {
            Some(m) => replay_file(m, ids.last(), disk[ids.last()]),
            None => None,
        }
    }
}

/// A file whose every byte belongs to a finished line.
pub open spec fn complete(b: Seq<u8>) -> bool {
    b.len() == 0 || b.last() == NEWLINE
}

pub open spec fn no_newline(line: Seq<u8>) -> bool {
    forall|i: int| 0 <= i < line.len() ==> line[i] != NEWLINE
}

/// What replaying one more line does to the outcome of a replay.
pub open spec fn then_line(o: Option<IndexModel>, line: Seq<u8>, p: LogPointer) -> Option<
    IndexModel,
> {
    match o {
        Some(m) => match parse_line(line) {
            Some(r) => Some(apply(m, r, p)),
            None => None,
        },
        None => None,
    }
}

proof fn lemma_scan_unfinished(m: IndexModel, file: u64, b: Seq<u8>, start: int, i: int)
    requires
        0 <= start <= i <= b.len(),
        forall|j: int| i <= j < b.len() ==> b[j] != NEWLINE,
    ensures
        replay_scan(m, file, b, start, i) == Some(m),
    decreases b.len() - i,
{
    if i < b.len() {
        lemma_scan_unfinished(m, file, b, start, i + 1);
    }
}

proof fn lemma_scan_line(m: IndexModel, file: u64, b: Seq<u8>, start: int, i: int, end: int)
    requires
        0 <= start <= i <= end < b.len(),
        forall|j: int| i <= j < end ==> b[j] != NEWLINE,
        b[end] == NEWLINE,
    ensures
        replay_scan(m, file, b, start, i) == replay_scan(m, file, b, start, end),
    decreases end - i,
{
    if i < end {
        lemma_scan_line(m, file, b, start, i + 1, end);
    }
}

proof fn lemma_scan_append(
    m: IndexModel,
    file: u64,
    b: Seq<u8>,
    line: Seq<u8>,
    start: int,
    i: int,
)
    requires
        complete(b),
        no_newline(line),
        0 <= start <= i <= b.len(),
        i < b.len() || start == i,
    ensures
        replay_scan(m, file, b + line.push(NEWLINE), start, i) == then_line(
            replay_scan(m, file, b, start, i),
            line,
            pointer(file, b.len() as int, (b.len() + line.len() + 1) as int),
        ),
    decreases b.len() - i,
{
    let bb = b + line.push(NEWLINE);
    let end = (b.len() + line.len()) as int;
    if i == b.len() {
        assert(bb[end] == NEWLINE);
        assert forall|j: int| i <= j < end implies bb[j] != NEWLINE by {
            assert(bb[j] == line[j - b.len()]);
        }
        lemma_scan_line(m, file, bb, start, i, end);
        assert(bb.subrange(start, end) =~= line);
        match parse_line(line) {
            Some(r) => {
                let m2 = apply(m, r, pointer(file, start, end + 1));
                lemma_scan_unfinished(m2, file, bb, end + 1, end + 1);
            },
            None => {},
        }
    } else {
        assert(bb[i] == b[i]);
        if b[i] == NEWLINE {
            assert(bb.subrange(start, i) =~= b.subrange(start, i));
            match parse_line(b.subrange(start, i)) {
                Some(r) => {
                    lemma_scan_append(
                        apply(m, r, pointer(file, start, i + 1)),
                        file,
                        b,
                        line,
                        i + 1,
                        i + 1,
                    );
                },
                None => {},
            }
        } else {
            assert(i + 1 < b.len());
            lemma_scan_append(m, file, b, line, start, i + 1);
        }
    }
}

/// Appending a finished line to a file whose lines are all finished replays as
/// that one line after the file's others.
pub proof fn lemma_replay_file_append(m: IndexModel, file: u64, b: Seq<u8>, line: Seq<u8>)
    requires
        complete(b),
        no_newline(line),
    ensures
        replay_file(m, file, b + line.push(NEWLINE)) == then_line(
            replay_file(m, file, b),
            line,
            pointer(file, b.len() as int, (b.len() + line.len() + 1) as int),
        ),
{
    lemma_scan_append(m, file, b, line, 0, 0);
}

/// A replay reads only the files it is asked to replay.
pub proof fn lemma_replay_frame(ids: Seq<u64>, d1: Map<u64, Seq<u8>>, d2: Map<u64, Seq<u8>>)
    requires
        forall|j: int| 0 <= j < ids.len() ==> d1[ids[j]] == d2[ids[j]],
    ensures
        replay(ids, d1) == replay(ids, d2),
    decreases ids.len(),
{
    if ids.len() > 0 {
        lemma_replay_frame(ids.drop_last(), d1, d2);
        assert(d1[ids.last()] == d2[ids.last()]);
    }
}

/// Hydration ordering: where the last file replayed ends with a record that
/// removes `k`, the replay leaves `k` out, whatever the earlier files and the
/// earlier lines of that file hold.
pub proof fn lemma_later_remove_wins(
    ids: Seq<u64>,
    disk: Map<u64, Seq<u8>>,
    b: Seq<u8>,
    line: Seq<u8>,
    k: Seq<char>,
)
    requires
        ids.len() >= 1,
        disk[ids.last()] == b + line.push(NEWLINE),
        complete(b),
        no_newline(line),
        parse_line(line) == Some(Record::Remove { key: k }),
    ensures
        replay(ids, disk) matches Some(m) ==> !m.contains_key(k),
{
    match replay(ids.drop_last(), disk) {
        Some(m) => {
            lemma_replay_file_append(m, ids.last(), b, line);
        },
        None => {},
    }
}

} // verus!
