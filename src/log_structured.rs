//! The log-structured engine. It decides what goes into the log files and
//! keeps the index; the caller does the file I/O: it appends the bytes that
//! `set` and `remove` return to the active log, reads the records that
//! `lookup` points at, and writes and deletes the files of a compaction.
use crate::codec::{
    decode, encode, lemma_parse_record_line, lemma_record_line_no_newline, parse_line,
    record_bytes, record_line, LogEntry, Record, NEWLINE,
};
use crate::error::StorageError;
use crate::index::{lengths_sum, Index, LogPointer};
use crate::model::{step, Op};
use crate::names::{lemma_name_order, log_name, log_name_of, text_lt};
use crate::replay::{
    apply, complete, lemma_replay_file_append, lemma_replay_frame, no_newline, pointer, replay,
    replay_file, replay_scan, IndexModel,
};
use vstd::prelude::*;
use vstd::slice::slice_subrange;
use vstd::string::StringExecFns;

verus! {

/// After more mutations than this since the last compaction, the log is compacted.
pub const COMPACTION_OPS_THRESHOLD: u64 = 3072;

/// The bytes of the record that `p` points at, newline included.
pub open spec fn bytes_at(disk: Map<u64, Seq<u8>>, p: LogPointer) -> Seq<u8> {
    disk[p.file].subrange(p.offset as int, p.offset + p.length)
}

/// The line of the record that `p` points at, without its newline.
pub open spec fn line_at(disk: Map<u64, Seq<u8>>, p: LogPointer) -> Seq<u8> {
    disk[p.file].subrange(p.offset as int, p.offset + p.length - 1)
}

/// `p` points at a finished line that sets `k`.
pub open spec fn holds_put(disk: Map<u64, Seq<u8>>, p: LogPointer, k: Seq<char>) -> bool {
    &&& disk.contains_key(p.file)
    &&& p.length >= 1
    &&& p.offset + p.length <= disk[p.file].len()
    &&& disk[p.file][p.offset + p.length - 1] == NEWLINE
    &&& no_newline(line_at(disk, p))
    &&& parse_line(line_at(disk, p)) matches Some(Record::Put { key, .. }) && key == k
}

/// The value that the record at `p` sets.
pub open spec fn value_at(disk: Map<u64, Seq<u8>>, p: LogPointer) -> Seq<char> {
    match parse_line(line_at(disk, p)) {
        Some(Record::Put { value, .. }) => value,
        _ => Seq::empty(),
    }
}

/// Ids in strictly ascending order.
pub open spec fn ascending(ids: Seq<u64>) -> bool {
    forall|i: int, j: int| 0 <= i < j < ids.len() ==> ids[i] < ids[j]
}

/// The store. `disk` is what the log files hold, once the caller has carried
/// out what the store handed it.
pub struct LogStructured {
    index: Index,
    files: Vec<u64>,
    active_len: u64,
    uncompacted: u64,
    failed: bool,
    disk: Ghost<Map<u64, Seq<u8>>>,
}

/// A log file as it was read: its id and its bytes.
pub struct LogFile {
    pub id: u64,
    pub contents: Vec<u8>,
}

/// The outcome of a compaction: the file to write, with its bytes, and the
/// files to delete once it is written.
pub struct Compaction {
    pub file: u64,
    pub contents: Vec<u8>,
    pub retired: Vec<u64>,
}

impl View for LogStructured {
    type V = Map<Seq<char>, Seq<char>>;

    /// The keys the store holds and their values.
    closed spec fn view(&self) -> Map<Seq<char>, Seq<char>> {
        Map::new(
            |k: Seq<char>| self.index@.contains_key(k),
            |k: Seq<char>| value_at(self.disk@, self.index@[k]),
        )
    }
}

impl LogStructured {
    /// The ids of the log files, ascending; the last is the active log.
    pub closed spec fn files(&self) -> Seq<u64> {
        self.files@
    }

    /// What each log file holds.
    pub closed spec fn disk(&self) -> Map<u64, Seq<u8>> {
        self.disk@
    }

    /// The index: where the record of each live key lies.
    pub closed spec fn pointers(&self) -> IndexModel {
        self.index@
    }

    pub open spec fn active(&self) -> u64 {
        self.files().last()
    }

    /// A write of the caller failed: the files may not hold what the store
    /// says, and every operation is refused.
    pub closed spec fn failed(&self) -> bool {
        self.failed
    }

    /// Mutations since the last compaction.
    pub closed spec fn uncompacted(&self) -> u64 {
        self.uncompacted
    }

    /// The sum of the lengths of the live records.
    pub closed spec fn live_length(&self) -> int {
        self.index.total_length()
    }

    /// The live records' pointers, in the order in which compaction copies them.
    pub closed spec fn live_pointers(&self) -> Seq<LogPointer> {
        self.index.ptrs()
    }

    pub closed spec fn wf(&self) -> bool {
        &&& self.index.wf()
        &&& self.files@.len() >= 1
        &&& ascending(self.files@)
        &&& forall|id: u64| #[trigger] self.disk@.contains_key(id) <==> self.files@.contains(id)
        &&& self.disk@[self.active()].len() == self.active_len
        &&& complete(self.disk@[self.active()])
        &&& replay(self.files@, self.disk@) == Some(self.index@)
        &&& forall|k: Seq<char>| #[trigger]
            self.index@.contains_key(k) ==> holds_put(self.disk@, self.index@[k], k)
    }

    /// Replaying the log files rebuilds exactly this store's index: what a
    /// reopen reads is what the store answers now.
    pub proof fn lemma_replay_is_index(&self)
        requires
            self.wf(),
        ensures
            replay(self.files(), self.disk()) == Some(self.pointers()),
            ascending(self.files()),
            forall|id: u64| #[trigger] self.disk().contains_key(id) <==> self.files().contains(id),
            self.pointers().dom() == self@.dom(),
            forall|k: Seq<char>| #[trigger]
                self@.contains_key(k) ==> self@[k] == value_at(self.disk(), self.pointers()[k]),
    {
        assert(self.pointers().dom() =~= self@.dom());
    }

    /// Durability across a reopen: a store `t` whose index is the replay of
    /// the log files of `s`, and which sees those files unchanged beside a
    /// new, empty active log (as `open_files` gives on them), holds exactly
    /// what `s` holds.
    pub proof fn lemma_reopen(s: LogStructured, t: LogStructured)
        requires
            s.wf(),
            t.wf(),
            replay(s.files(), s.disk()) == Some(t.pointers()),
            !s.files().contains(t.active()),
            t.disk() == s.disk().insert(t.active(), Seq::empty()),
        ensures
            t@ == s@,
    {
        assert(t.pointers() == s.pointers());
        assert forall|k: Seq<char>| #[trigger] t@.contains_key(k) implies t@[k] == s@[k] by {
            assert(s.index@.contains_key(k));
            let p = s.index@[k];
            assert(holds_put(s.disk@, p, k));
            assert(s.files@.contains(p.file));
            assert(t.disk@[p.file] == s.disk@[p.file]);
        }
        assert(t@ =~= s@);
    }

    /// The name of the log file with id `id`.
    pub fn log_file_name(id: u64) -> (r: String)
        ensures
            r@ == log_name(id),
    {
        log_name_of(id)
    }

    /// The files other than the active log, with the active log's old bytes
    /// replaced by `b`, replay as `b` after the others.
    proof fn lemma_replay_active(&self, b: Seq<u8>)
        requires
            self.wf(),
        ensures
            replay(self.files@, self.disk@.insert(self.active(), b)) == match replay(
                self.files@.drop_last(),
                self.disk@,
            ) {
                Some(m) => replay_file(m, self.active(), b),
                None => None,
            },
    {
        let ids = self.files@;
        let d2 = self.disk@.insert(self.active(), b);
        assert forall|j: int| 0 <= j < ids.drop_last().len() implies self.disk@[ids.drop_last()[j]]
            == d2[ids.drop_last()[j]] by {
            assert(ids.drop_last()[j] == ids[j]);
            assert(ids[j] < ids[ids.len() - 1]);
        }
        lemma_replay_frame(ids.drop_last(), self.disk@, d2);
    }

    /// Appends `bytes` (a line and its newline) to the active log; the line
    /// is `line`, and `p` is where it lands.
    proof fn lemma_append(&self, line: Seq<u8>, bytes: Seq<u8>, p: LogPointer)
        requires
            self.wf(),
            no_newline(line),
            bytes == line.push(NEWLINE),
            self.active_len + bytes.len() <= u64::MAX,
            p == pointer(self.active(), self.active_len as int, self.active_len + bytes.len()),
        ensures
            ({
                let d2 = self.disk@.insert(self.active(), self.disk@[self.active()] + bytes);
                &&& replay(self.files@, d2) == match parse_line(line) {
                    Some(r) => Some(apply(self.index@, r, p)),
                    None => None,
                }
                &&& complete(d2[self.active()])
                &&& forall|k: Seq<char>|
                    #![trigger self.index@.contains_key(k)]
                    self.index@.contains_key(k) ==> holds_put(d2, self.index@[k], k)
                        && bytes_at(d2, self.index@[k]) == bytes_at(self.disk@, self.index@[k])
                        && line_at(d2, self.index@[k]) == line_at(self.disk@, self.index@[k])
                &&& d2[self.active()].subrange(p.offset as int, p.offset + p.length) == bytes
                &&& d2[self.active()].subrange(p.offset as int, p.offset + p.length - 1) == line
            }),
    {
        let old_b = self.disk@[self.active()];
        let d2 = self.disk@.insert(self.active(), old_b + bytes);
        self.lemma_replay_active(old_b + bytes);
        self.lemma_replay_active(old_b);
        assert(self.disk@.insert(self.active(), old_b) =~= self.disk@);
        let ids = self.files@;
        assert(ids =~= ids.drop_last().push(self.active()));
        match replay(ids.drop_last(), self.disk@) {
            Some(m) => {
                lemma_replay_file_append(m, self.active(), old_b, line);
            },
            None => {},
        }
        assert((old_b + bytes).last() == NEWLINE);
        assert forall|k: Seq<char>| #![trigger self.index@.contains_key(k)]
            self.index@.contains_key(k) implies holds_put(d2, self.index@[k], k)
            && bytes_at(d2, self.index@[k]) == bytes_at(self.disk@, self.index@[k])
            && line_at(d2, self.index@[k]) == line_at(self.disk@, self.index@[k]) by {
            let q = self.index@[k];
            assert(holds_put(self.disk@, q, k));
            if q.file == self.active() {
                assert(d2[q.file].subrange(q.offset as int, q.offset + q.length) =~= old_b.subrange(
                    q.offset as int,
                    q.offset + q.length,
                ));
                assert(d2[q.file].subrange(q.offset as int, q.offset + q.length - 1)
                    =~= old_b.subrange(q.offset as int, q.offset + q.length - 1));
                assert(d2[q.file][q.offset + q.length - 1] == old_b[q.offset + q.length - 1]);
            }
        }
        assert(d2[self.active()].subrange(p.offset as int, p.offset + p.length) =~= bytes);
        assert(d2[self.active()].subrange(p.offset as int, p.offset + p.length - 1) =~= line);
    }

    /// Writes `value` under `key`: returns the bytes to append to the active log.
    pub fn set(&mut self, key: String, value: String) -> (r: Result<Vec<u8>, StorageError>)
        requires
            old(self).wf(),
        ensures
            final(self).wf(),
            match r {
                Ok(bytes) => {
                    &&& !old(self).failed()
                    &&& final(self).failed() == old(self).failed()
                    &&& bytes@ == record_bytes(Record::Put { key: key@, value: value@ })
                    &&& final(self)@ == step(old(self)@, Op::Put { key: key@, value: value@ })
                    &&& final(self).pointers() == old(self).pointers().insert(
                        key@,
                        LogPointer {
                            file: old(self).active(),
                            offset: old(self).disk()[old(self).active()].len() as u64,
                            length: bytes@.len() as u64,
                        },
                    )
                    &&& final(self).files() == old(self).files()
                    &&& final(self).disk() == old(self).disk().insert(
                        old(self).active(),
                        old(self).disk()[old(self).active()] + bytes@,
                    )
                    &&& final(self).uncompacted() == if old(self).uncompacted() < u64::MAX {
                        old(self).uncompacted() + 1
                    } else {
                        old(self).uncompacted() as int
                    }
                },
                Err(e) => {
                    &&& e is Io
                    &&& *final(self) == *old(self)
                    &&& old(self).failed() || old(self).disk()[old(self).active()].len()
                        + record_bytes(Record::Put { key: key@, value: value@ }).len() > u64::MAX
                },
            },
    {
        if self.failed {
            return Err(StorageError::Io(String::from_str("a write to the log failed; reopen the store")));
        }
        let ghost k = key@;
        let ghost v = value@;
        let entry = LogEntry::Put { key: key.clone(), value };
        let bytes = encode(&entry);
        let n = bytes.len() as u64;
        if n > u64::MAX - self.active_len {
            return Err(StorageError::Io(String::from_str("the active log is full")));
        }
        let p = LogPointer { file: self.files[self.files.len() - 1], offset: self.active_len, length: n };
        let ghost line = record_line(entry@);
        let ghost d2 = self.disk@.insert(self.active(), self.disk@[self.active()] + bytes@);
        proof {
            lemma_record_line_no_newline(entry@);
            lemma_parse_record_line(entry@);
            self.lemma_append(line, bytes@, p);
        }
        let ghost old_self_view = self@;
        let ghost old_index = self.index@;
        self.index.insert(key, p);
        self.active_len = self.active_len + n;
        self.disk = Ghost(d2);
        if self.uncompacted < u64::MAX {
            self.uncompacted = self.uncompacted + 1;
        }
        proof {
            assert(self.index@ == old_index.insert(k, p));
            assert forall|kk: Seq<char>| #[trigger] self.index@.contains_key(kk) implies holds_put(
                self.disk@,
                self.index@[kk],
                kk,
            ) by {
                if kk != k {
                    assert(old_index.contains_key(kk));
                }
            }
            assert forall|kk: Seq<char>| #[trigger] self@.contains_key(kk) implies self@[kk]
                == old_self_view.insert(k, v)[kk] by {
                if kk != k {
                    assert(old_index.contains_key(kk));
                    assert(line_at(self.disk@, old_index[kk]) == line_at(d2, old_index[kk]));
                }
            }
            assert(self@ =~= old_self_view.insert(k, v));
        }
        Ok(bytes)
    }

    /// Removes `key`: returns the bytes to append to the active log, or
    /// `KeyNotFound` where the store does not hold the key.
    pub fn remove(&mut self, key: &str) -> (r: Result<Vec<u8>, StorageError>)
        requires
            old(self).wf(),
        ensures
            final(self).wf(),
            match r {
                Ok(bytes) => {
                    &&& !old(self).failed()
                    &&& final(self).failed() == old(self).failed()
                    &&& old(self)@.contains_key(key@)
                    &&& bytes@ == record_bytes(Record::Remove { key: key@ })
                    &&& final(self)@ == step(old(self)@, Op::Delete { key: key@ })
                    &&& final(self).pointers() == old(self).pointers().remove(key@)
                    &&& final(self).files() == old(self).files()
                    &&& final(self).disk() == old(self).disk().insert(
                        old(self).active(),
                        old(self).disk()[old(self).active()] + bytes@,
                    )
                    &&& final(self).uncompacted() == if old(self).uncompacted() < u64::MAX {
                        old(self).uncompacted() + 1
                    } else {
                        old(self).uncompacted() as int
                    }
                },
                Err(e) => {
                    &&& *final(self) == *old(self)
                    &&& match e {
                        StorageError::KeyNotFound(k) => k@ == key@ && !old(self).failed() && !old(
                            self,
                        )@.contains_key(key@),
                        StorageError::Io(_) => old(self).failed() || old(self)@.contains_key(key@)
                            && old(self).disk()[old(self).active()].len() + record_bytes(
                            Record::Remove { key: key@ },
                        ).len() > u64::MAX,
                        _ => false,
                    }
                },
            },
    {
        if self.failed {
            return Err(StorageError::Io(String::from_str("a write to the log failed; reopen the store")));
        }
        let k = key.to_owned();
        if self.index.get(&k).is_none() {
            return Err(StorageError::KeyNotFound(k));
        }
        let entry = LogEntry::Remove { key: k.clone() };
        let bytes = encode(&entry);
        let n = bytes.len() as u64;
        if n > u64::MAX - self.active_len {
            return Err(StorageError::Io(String::from_str("the active log is full")));
        }
        let p = LogPointer { file: self.files[self.files.len() - 1], offset: self.active_len, length: n };
        let ghost line = record_line(entry@);
        let ghost d2 = self.disk@.insert(self.active(), self.disk@[self.active()] + bytes@);
        proof {
            lemma_record_line_no_newline(entry@);
            lemma_parse_record_line(entry@);
            self.lemma_append(line, bytes@, p);
        }
        let ghost old_self_view = self@;
        let ghost old_index = self.index@;
        let _ = self.index.remove(&k);
        self.active_len = self.active_len + n;
        self.disk = Ghost(d2);
        if self.uncompacted < u64::MAX {
            self.uncompacted = self.uncompacted + 1;
        }
        proof {
            assert(self.index@ == old_index.remove(key@));
            assert forall|kk: Seq<char>| #[trigger] self.index@.contains_key(kk) implies holds_put(
                self.disk@,
                self.index@[kk],
                kk,
            ) by {
                assert(old_index.contains_key(kk));
            }
            assert forall|kk: Seq<char>| #[trigger] self@.contains_key(kk) implies self@[kk]
                == old_self_view.remove(key@)[kk] by {
                assert(old_index.contains_key(kk));
                assert(line_at(self.disk@, old_index[kk]) == line_at(d2, old_index[kk]));
            }
            assert(self@ =~= old_self_view.remove(key@));
        }
        Ok(bytes)
    }

    /// Where the record of `key` lies, if the store holds the key.
    pub fn lookup(&self, key: &str) -> (r: Option<LogPointer>)
        requires
            self.wf(),
        ensures
            r == self.pointers().get(key@),
            r is Some <==> self@.contains_key(key@),
            r matches Some(p) ==> holds_put(self.disk(), p, key@) && self.files().contains(p.file),
    {
        let k = key.to_owned();
        let r = self.index.get(&k);
        proof {
            if r is Some {
                assert(self.index@.contains_key(key@));
                assert(self.disk@.contains_key(r->0.file));
            }
        }
        r
    }

    /// The value of `key`, given the bytes of the record that `lookup`
    /// points at: `None` where the store does not hold the key, `Corruption`
    /// where the bytes are not a record that sets the key.
    pub fn read_value(&self, key: &str, record: &[u8]) -> (r: Result<Option<String>, StorageError>)
        requires
            self.wf(),
        ensures
            self.failed() ==> r matches Err(StorageError::Io(_)),
            !self.failed() && !self@.contains_key(key@) ==> r matches Ok(None),
            !self.failed() && self@.contains_key(key@) ==> match r {
                Ok(Some(v)) => record_sets(record@, key@, v@),
                Ok(None) => false,
                Err(e) => e is Corruption && !exists|v: Seq<char>| record_sets(record@, key@, v),
            },
            !self.failed() && self@.contains_key(key@) && record@ == bytes_at(
                self.disk(),
                self.pointers()[key@],
            ) ==> (r matches Ok(Some(v)) && v@ == self@[key@]),
    {
        if self.failed {
            return Err(StorageError::Io(String::from_str("a write to the log failed; reopen the store")));
        }
        let p = match self.lookup(key) {
            Some(p) => p,
            None => return Ok(None),
        };
        let n = record.len();
        proof {
            if record@ == bytes_at(self.disk@, p) {
                assert(record@.len() == p.length);
                if n > 0 {
                    assert(record@[n - 1] == self.disk@[p.file][p.offset + p.length - 1]);
                    assert(record@.subrange(0, n - 1) =~= line_at(self.disk@, p));
                }
            }
        }
        if n == 0 || record[n - 1] != NEWLINE {
            return Err(StorageError::Corruption { file: p.file, offset: p.offset });
        }
        let line = slice_subrange(record, 0, n - 1);
        proof {
            assert(record@ =~= line@.push(NEWLINE));
            assert(record@.drop_last() =~= line@);
        }
        match decode(line) {
            Some(LogEntry::Put { key: k, value }) => {
                if k == key.to_owned() {
                    proof {
                        if record@ == bytes_at(self.disk@, p) {
                            assert(line@ =~= line_at(self.disk@, p));
                        }
                    }
                    Ok(Some(value))
                } else {
                    Err(StorageError::Corruption { file: p.file, offset: p.offset })
                }
            },
            _ => Err(StorageError::Corruption { file: p.file, offset: p.offset }),
        }
    }

    /// The id of a log created after `last`: `now` where it is later, else
    /// `last + 1`; none where `last` is the largest id.
    pub fn next_log_id(now: u64, last: u64) -> (r: Option<u64>)
        ensures
            r == next_id(now, last),
            r matches Some(id) ==> text_lt(log_name(last), log_name(id)),
    {
        proof {
            if now > last {
                lemma_name_order(last, now);
            } else if last < u64::MAX {
                lemma_name_order(last, (last + 1) as u64);
            }
        }
        if now > last {
            Some(now)
        } else if last < u64::MAX {
            Some(last + 1)
        } else {
            None
        }
    }

    /// The pointers of the live records, in the order in which `compact`
    /// wants their bytes.
    pub fn live_records(&self) -> (r: Vec<LogPointer>)
        requires
            self.wf(),
        ensures
            r@ == self.live_pointers(),
    {
        proof {
            self.index.lemma_entries();
        }
        let n = self.index.len();
        let mut r: Vec<LogPointer> = Vec::new();
        let mut i: usize = 0;
        while i < n
            invariant
                n == self.index.keys().len(),
                self.index.keys().len() == self.index.ptrs().len(),
                0 <= i <= n,
                r@ == self.index.ptrs().subrange(0, i as int),
            decreases n - i,
        {
            r.push(self.index.ptr_at(i));
            i = i + 1;
            assert(r@ =~= self.index.ptrs().subrange(0, i as int));
        }
        assert(r@ =~= self.index.ptrs());
        r
    }

    /// Compacts the log: `records` holds the bytes of the live records, in
    /// the order of `live_records`. Returns the new log file, which holds
    /// exactly those records, and the files to delete after it is written;
    /// from now on the store points into the new file only.
    pub fn compact(&mut self, now: u64, records: &Vec<Vec<u8>>) -> (r: Result<
        Compaction,
        StorageError,
    >)
        requires
            old(self).wf(),
        ensures
            final(self).wf(),
            match r {
                Ok(c) => {
                    &&& !old(self).failed()
                    &&& !final(self).failed()
                    &&& Some(c.file) == next_id(now, old(self).active())
                    &&& text_lt(log_name(old(self).active()), log_name(c.file))
                    &&& final(self).files() == seq![c.file]
                    &&& final(self).disk() == map![c.file => c.contents@]
                    &&& c.retired@ == old(self).files()
                    &&& c.contents@ == concat(records@)
                    &&& c.contents@.len() == old(self).live_length()
                    &&& final(self).live_length() == old(self).live_length()
                    &&& final(self).pointers().dom() == old(self).pointers().dom()
                    &&& forall|k: Seq<char>| #[trigger]
                        old(self).pointers().contains_key(k) ==> final(self).pointers()[k].file
                            == c.file && final(self).pointers()[k].length == old(
                            self,
                        ).pointers()[k].length
                    &&& final(self)@.dom() == old(self)@.dom()
                    &&& final(self).uncompacted() == 0
                    &&& records_match(*old(self), records@) ==> final(self)@ == old(self)@
                },
                Err(e) => {
                    &&& *final(self) == *old(self)
                    &&& old(self).failed() || !records_match(*old(self), records@) || next_id(
                        now,
                        old(self).active(),
                    ) is None
                },
            },
            !old(self).failed() && records_match(*old(self), records@) && next_id(
                now,
                old(self).active(),
            ) is Some ==> r is Ok,
    {
        if self.failed {
            return Err(StorageError::Io(String::from_str("a write to the log failed; reopen the store")));
        }
        proof {
            self.index.lemma_entries();
        }
        let new_id = match LogStructured::next_log_id(now, self.files[self.files.len() - 1]) {
            Some(id) => id,
            None => return Err(StorageError::Io(String::from_str("no log id is left"))),
        };
        let n = self.index.len();
        if records.len() != n {
            return Err(StorageError::Io(String::from_str("records do not match the index")));
        }
        let ghost keys = self.index.keys();
        let ghost ptrs = self.index.ptrs();
        let ghost od = self.disk@;
        let mut contents: Vec<u8> = Vec::new();
        let mut fresh = Index::new();
        let mut i: usize = 0;
        while i < n
            invariant
                self == old(self),
                self.wf(),
                keys == self.index.keys(),
                ptrs == self.index.ptrs(),
                od == self.disk@,
                n == keys.len(),
                n == ptrs.len(),
                n == records@.len(),
                keys.no_duplicates(),
                0 <= i <= n,
                forall|j: int| 0 <= j < n ==> self.index@.contains_key(#[trigger] keys[j])
                    && self.index@[keys[j]] == ptrs[j],
                fresh.wf(),
                replay_file(Map::empty(), new_id, contents@) == Some(fresh@),
                complete(contents@),
                contents@.len() == lengths_sum(ptrs.subrange(0, i as int)),
                contents@ == concat(records@.subrange(0, i as int)),
                fresh.ptrs().len() == i,
                forall|j: int| #![trigger fresh.ptrs()[j]] 0 <= j < i ==> fresh.ptrs()[j].length == ptrs[j].length,
                fresh@.dom() == keys.subrange(0, i as int).to_set(),
                forall|j: int|
                    #![trigger keys[j]]
                    0 <= j < i ==> fresh@.contains_key(keys[j]) && holds_put(
                        map![new_id => contents@],
                        fresh@[keys[j]],
                        keys[j],
                    ) && line_at(map![new_id => contents@], fresh@[keys[j]])
                        == records@[j]@.drop_last() && fresh@[keys[j]].file == new_id
                        && fresh@[keys[j]].length == ptrs[j].length,
                forall|j: int|
                    #![trigger records@[j]]
                    0 <= j < i ==> records@[j]@.len() >= 1 && records@[j]@.last() == NEWLINE,
            decreases n - i,
        {
            let rec = &records[i];
            let p = self.index.ptr_at(i);
            let m = rec.len();
            if m as u64 != p.length || m == 0 || rec[m - 1] != NEWLINE {
                proof {
                    if records_match(*self, records@) {
                        self.lemma_record_mismatch(records@, i as int);
                    }
                }
                return Err(StorageError::Corruption { file: p.file, offset: p.offset });
            }
            let line = slice_subrange(rec.as_slice(), 0, m - 1);
            assert(line@ =~= rec@.drop_last());
            let ok = match decode(line) {
                Some(LogEntry::Put { key, .. }) => key == *self.index.key_at(i) && newline_free(line),
                _ => false,
            };
            if !ok {
                proof {
                    if records_match(*self, records@) {
                        self.lemma_record_mismatch(records@, i as int);
                    }
                }
                return Err(StorageError::Corruption { file: p.file, offset: p.offset });
            }
            let ghost before = contents@;
            let ghost before_fresh = fresh@;
            let start = contents.len();
            let mut copy = rec.clone();
            assert(copy@ == rec@);
            contents.append(&mut copy);
            let q = LogPointer { file: new_id, offset: start as u64, length: m as u64 };
            proof {
                assert(rec@ =~= line@.push(NEWLINE));
                assert(rec@.drop_last() =~= line@);
                lemma_replay_file_append(Map::empty(), new_id, before, line@);
                assert(q == pointer(new_id, start as int, start + m));
                let nd = map![new_id => contents@];
                let od2 = map![new_id => before];
                assert forall|j: int| #![trigger keys[j]] 0 <= j < i implies holds_put(
                    nd,
                    before_fresh[keys[j]],
                    keys[j],
                ) && line_at(nd, before_fresh[keys[j]]) == line_at(od2, before_fresh[keys[j]]) by {
                    let pj = before_fresh[keys[j]];
                    assert(holds_put(od2, pj, keys[j]));
                    assert(nd[new_id].subrange(pj.offset as int, pj.offset + pj.length - 1)
                        =~= before.subrange(pj.offset as int, pj.offset + pj.length - 1));
                    assert(nd[new_id][pj.offset + pj.length - 1] == before[pj.offset + pj.length - 1]);
                }
                assert(nd[new_id].subrange(start as int, start + m - 1) =~= line@);
                assert(nd[new_id][start + m - 1] == NEWLINE);
                assert(ptrs.subrange(0, i + 1).drop_last() =~= ptrs.subrange(0, i as int));
                assert(keys.subrange(0, i + 1) =~= keys.subrange(0, i as int).push(keys[i as int]));
                assert(records@.subrange(0, i + 1).drop_last() =~= records@.subrange(0, i as int));
                assert(records@.subrange(0, i + 1).last() == records@[i as int]);
                assert(!before_fresh.contains_key(keys[i as int])) by {
                    if before_fresh.contains_key(keys[i as int]) {
                        assert(keys.subrange(0, i as int).to_set().contains(keys[i as int]));
                        let j = choose|j: int| 0 <= j < i && keys.subrange(0, i as int)[j] == keys[i as int];
                        assert(keys[j] == keys.subrange(0, i as int)[j]);
                    }
                }
            }
            let ghost before_ptrs = fresh.ptrs();
            let key = self.index.key_at(i).clone();
            fresh.insert(key, q);
            i = i + 1;
            proof {
                let sub = keys.subrange(0, i as int);
                let sub0 = keys.subrange(0, i - 1);
                assert forall|x: Seq<char>| fresh@.dom().contains(x) <==> sub.to_set().contains(x) by {
                    if x == keys[i - 1] {
                        assert(sub[i - 1] == x);
                    } else if fresh@.dom().contains(x) {
                        assert(sub0.to_set().contains(x));
                        let j = choose|j: int| 0 <= j < sub0.len() && sub0[j] == x;
                        assert(sub[j] == x);
                    }
                    if sub.to_set().contains(x) {
                        let j = choose|j: int| 0 <= j < sub.len() && sub[j] == x;
                        if j < i - 1 {
                            assert(sub0[j] == x);
                            assert(sub0.to_set().contains(x));
                        }
                    }
                }
                assert(fresh@.dom() =~= keys.subrange(0, i as int).to_set());
                assert forall|j: int| #![trigger keys[j]] 0 <= j < i implies fresh@.contains_key(keys[j])
                    && holds_put(map![new_id => contents@], fresh@[keys[j]], keys[j]) && line_at(
                    map![new_id => contents@],
                    fresh@[keys[j]],
                ) == records@[j]@.drop_last() && fresh@[keys[j]].file == new_id by {
                    if j < i - 1 {
                        assert(keys[j] != keys[i - 1]);
                    }
                }
                assert forall|j: int| #![trigger fresh.ptrs()[j]] 0 <= j < i implies fresh.ptrs()[j].length
                    == ptrs[j].length by {
                    if j < i - 1 {
                        assert(fresh.ptrs()[j] == before_ptrs[j]);
                    }
                }
            }
        }
        let ghost nd = map![new_id => contents@];
        proof {
            assert(ptrs.subrange(0, n as int) =~= ptrs);
            assert(keys.subrange(0, n as int) =~= keys);
            assert(records@.subrange(0, n as int) =~= records@);
            lemma_lengths_sum_eq(fresh.ptrs(), ptrs);
            assert forall|k: Seq<char>| #[trigger] self.index@.contains_key(k) implies fresh@.contains_key(k)
                && fresh@[k].file == new_id && fresh@[k].length == self.index@[k].length by {
                self.index.lemma_entries();
                assert(keys.to_set().contains(k));
                let j = choose|j: int| 0 <= j < keys.len() && keys[j] == k;
                assert(keys[j] == k);
            }
            assert(seq![new_id].drop_last() =~= Seq::<u64>::empty());
            assert(replay(Seq::<u64>::empty(), nd) == Some(Map::<Seq<char>, LogPointer>::empty()));
            assert(nd[new_id] == contents@);
            assert(seq![new_id].last() == new_id);
            assert(replay(seq![new_id], nd) == replay_file(Map::empty(), new_id, contents@));
            fresh.lemma_entries();
            assert forall|k: Seq<char>| #[trigger] fresh@.contains_key(k) implies holds_put(
                nd,
                fresh@[k],
                k,
            ) by {
                assert(keys.to_set().contains(k));
                let j = choose|j: int| 0 <= j < keys.len() && keys[j] == k;
                assert(keys[j] == k);
            }
            if records_match(*self, records@) {
                assert forall|k: Seq<char>| fresh@.contains_key(k) implies value_at(nd, fresh@[k])
                    == value_at(od, self.index@[k]) by {
                    assert(keys.to_set().contains(k));
                    let j = choose|j: int| 0 <= j < keys.len() && keys[j] == k;
                    assert(keys[j] == k);
                    assert(bytes_at(od, ptrs[j]).drop_last() =~= line_at(od, ptrs[j]));
                }
            }
        }
        let c_len = contents.len() as u64;
        let mut retired = vec![new_id];
        std::mem::swap(&mut self.files, &mut retired);
        self.index = fresh;
        self.active_len = c_len;
        self.uncompacted = 0;
        self.disk = Ghost(nd);
        proof {
            assert(self.files@ =~= seq![new_id]);
            assert forall|id: u64| #[trigger] self.disk@.contains_key(id) <==> self.files@.contains(id) by {
                if self.files@.contains(id) {
                    assert(self.files@[0] == id);
                }
                if id == new_id {
                    assert(self.files@[0] == id);
                }
            }
            assert(self@.dom() =~= old(self)@.dom());
            if records_match(*old(self), records@) {
                assert(self@ =~= old(self)@);
            }
        }
        proof {
            lemma_name_order(old(self).active(), new_id);
        }
        Ok(Compaction { file: new_id, contents, retired })
    }

    /// A record that fails the checks of `compact` is not the record the
    /// index points at.
    proof fn lemma_record_mismatch(&self, records: Seq<Vec<u8>>, i: int)
        requires
            self.wf(),
            0 <= i < self.index.keys().len(),
            records_match(*self, records),
        ensures
            ({
                let rec = records[i]@;
                let p = self.index.ptrs()[i];
                &&& rec.len() == p.length
                &&& rec.len() >= 1
                &&& rec.last() == NEWLINE
                &&& no_newline(rec.drop_last())
                &&& parse_line(rec.drop_last()) matches Some(Record::Put { key, .. }) && key
                    == self.index.keys()[i]
            }),
    {
        self.index.lemma_entries();
        let p = self.index.ptrs()[i];
        let k = self.index.keys()[i];
        assert(holds_put(self.disk@, p, k));
        let rec = records[i]@;
        assert(rec == bytes_at(self.disk@, p));
        assert(rec.drop_last() =~= line_at(self.disk@, p));
        assert(rec.last() == self.disk@[p.file][p.offset + p.length - 1]);
    }

    /// Opens the store on the log files that were read, in ascending order
    /// of id: replays them into the index and picks the id of a new, empty
    /// active log (`now`, or later than every file).
    #[verifier::rlimit(50)]
    pub fn open_files(files: &Vec<LogFile>, now: u64) -> (r: Result<LogStructured, StorageError>)
        ensures
            match r {
                Ok(s) => {
                    &&& s.wf()
                    &&& !s.failed()
                    &&& ascending(ids_of(files@))
                    &&& Some(s.active()) == fresh_id(now, ids_of(files@))
                    &&& !ids_of(files@).contains(s.active())
                    &&& forall|i: int|
                        0 <= i < ids_of(files@).len() ==> text_lt(
                            log_name(#[trigger] ids_of(files@)[i]),
                            log_name(s.active()),
                        )
                    &&& s.files() == ids_of(files@).push(s.active())
                    &&& s.disk() == disk_of(files@).insert(s.active(), Seq::empty())
                    &&& replay(ids_of(files@), disk_of(files@)) == Some(s.pointers())
                    &&& s.uncompacted() == 0
                },
                Err(e) => match e {
                    StorageError::Corruption { .. } => ascending(ids_of(files@)) && replay(
                        ids_of(files@),
                        disk_of(files@),
                    ) is None,
                    StorageError::Io(_) => !ascending(ids_of(files@)) || fresh_id(
                        now,
                        ids_of(files@),
                    ) is None,
                    _ => false,
                },
            },
            ascending(ids_of(files@)) && replay(ids_of(files@), disk_of(files@)) is Some && fresh_id(
                now,
                ids_of(files@),
            ) is Some ==> r is Ok,
    {
        let ghost all = ids_of(files@);
        let ghost d = disk_of(files@);
        let mut c: usize = 1;
        while c < files.len()
            invariant
                all == ids_of(files@),
                1 <= c,
                c <= files@.len() || files@.len() == 0,
                ascending(all.subrange(0, c as int)) || files@.len() == 0,
            decreases files@.len() - c,
        {
            if files[c - 1].id >= files[c].id {
                proof {
                    assert(all[c - 1] == files@[c - 1].id);
                    assert(all[c as int] == files@[c as int].id);
                }
                return Err(StorageError::Io(String::from_str("log files out of order")));
            }
            proof {
                let sub = all.subrange(0, c + 1);
                assert forall|i: int, j: int| 0 <= i < j < sub.len() implies sub[i] < sub[j] by {
                    if j < c {
                        assert(sub[i] == all.subrange(0, c as int)[i]);
                        assert(sub[j] == all.subrange(0, c as int)[j]);
                    } else if i < c - 1 {
                        assert(sub[i] == all.subrange(0, c as int)[i]);
                        assert(sub[c - 1] == all.subrange(0, c as int)[c - 1]);
                    }
                }
            }
            c = c + 1;
        }
        proof {
            if files@.len() > 0 {
                assert(all.subrange(0, c as int) =~= all);
            }
            lemma_disk_of_dom(files@);
        }
        let mut index = Index::new();
        let mut ids: Vec<u64> = Vec::new();
        let mut fi: usize = 0;
        while fi < files.len()
            invariant
                all == ids_of(files@),
                d == disk_of(files@),
                0 <= fi <= files@.len(),
                ids@ == all.subrange(0, fi as int),
                ascending(all),
                forall|j: int| 0 <= j < files@.len() ==> d.contains_key(#[trigger] all[j]) && d[all[j]] == files@[j].contents@,
                ascending(ids@),
                index.wf(),
                replay(ids@, d) == Some(index@),
                forall|k: Seq<char>| #[trigger] index@.contains_key(k) ==> holds_put(d, index@[k], k)
                    && ids@.contains(index@[k].file),
            decreases files@.len() - fi,
        {
            let id = files[fi].id;
            proof {
                assert(all[fi as int] == id);
                assert(ids@.push(id) =~= all.subrange(0, fi + 1));
                assert(d[all[fi as int]] == files@[fi as int].contents@);
                assert forall|i: int, j: int| 0 <= i < j < ids@.push(id).len() implies ids@.push(id)[i]
                    < ids@.push(id)[j] by {
                    assert(ids@.push(id)[i] == all[i]);
                    assert(ids@.push(id)[j] == all[j]);
                }
            }
            let b = &files[fi].contents;
            let ghost m0 = index@;
            let mut start: usize = 0;
            let mut i: usize = 0;
            while i < b.len()
                invariant
                    all == ids_of(files@),
                    d == disk_of(files@),
                    0 <= fi < files@.len(),
                    ids@ == all.subrange(0, fi as int),
                    ascending(ids@.push(id)),
                    ascending(all),
                    forall|j: int| 0 <= j < files@.len() ==> d.contains_key(#[trigger] all[j]) && d[all[j]] == files@[j].contents@,
                    replay(ids@, d) == Some(m0),
                    ids@.push(id) == all.subrange(0, fi + 1),
                    id == files@[fi as int].id,
                    b@ == files@[fi as int].contents@,
                    d[id] == b@,
                    0 <= start <= i <= b@.len(),
                    forall|j: int| start <= j < i ==> b@[j] != NEWLINE,
                    index.wf(),
                    replay_file(m0, id, b@) == replay_scan(index@, id, b@, start as int, i as int),
                    forall|k: Seq<char>| #[trigger] index@.contains_key(k) ==> holds_put(d, index@[k], k)
                        && ids@.push(id).contains(index@[k].file),
                decreases b@.len() - i,
            {
                if b[i] == NEWLINE {
                    let line = slice_subrange(b.as_slice(), start, i);
                    assert(line@ == b@.subrange(start as int, i as int));
                    let p = LogPointer { file: id, offset: start as u64, length: (i + 1 - start) as u64 };
                    let ghost before = index@;
                    proof {
                        assert(p == pointer(id, start as int, i + 1));
                        assert(line_at(d, p) =~= line@);
                        assert(ids@.push(id).drop_last() =~= ids@);
                        assert(replay(ids@.push(id), d) == replay_file(m0, id, b@));
                    }
                    match decode(line) {
                        None => {
                            proof {
                                lemma_replay_prefix_none(all, d, fi + 1);
                            }
                            return Err(StorageError::Corruption { file: id, offset: start as u64 });
                        },
                        Some(LogEntry::Put { key, .. }) => {
                            let ghost kk = key@;
                            index.insert(key, p);
                            proof {
                                assert forall|k: Seq<char>| #[trigger] index@.contains_key(k) implies holds_put(
                                    d,
                                    index@[k],
                                    k,
                                ) && ids@.push(id).contains(index@[k].file) by {
                                    if k == kk {
                                        assert(ids@.push(id)[fi as int] == id);
                                        assert(d.contains_key(all[fi as int]));
                                        assert(b@[i as int] == NEWLINE);
                                        assert(holds_put(d, p, kk));
                                    } else {
                                        assert(before.contains_key(k));
                                    }
                                }
                            }
                        },
                        Some(LogEntry::Remove { key }) => {
                            let _ = index.remove(&key);
                            proof {
                                assert forall|k: Seq<char>| #[trigger] index@.contains_key(k) implies holds_put(
                                    d,
                                    index@[k],
                                    k,
                                ) && ids@.push(id).contains(index@[k].file) by {
                                    assert(before.contains_key(k));
                                }
                            }
                        },
                    }
                    start = i + 1;
                }
                i = i + 1;
            }
            proof {
                assert(ids@.push(id).drop_last() =~= ids@);
            }
            ids.push(id);
            fi = fi + 1;
        }
        proof {
            assert(all.subrange(0, files@.len() as int) =~= all);
        }
        let active = if ids.len() == 0 {
            now
        } else {
            match LogStructured::next_log_id(now, ids[ids.len() - 1]) {
                Some(a) => a,
                None => return Err(StorageError::Io(String::from_str("no log id is left"))),
            }
        };
        let ghost d2 = d.insert(active, Seq::empty());
        proof {
            lemma_disk_of_dom(files@);
            assert forall|j: int| 0 <= j < ids@.len() implies d[ids@[j]] == d2[ids@[j]] by {
                assert(ids@[j] <= ids@.last());
            }
            lemma_replay_frame(ids@, d, d2);
            let ext = ids@.push(active);
            assert(ext.drop_last() =~= ids@);
            assert(ascending(ext));
        }
        proof {
            if ids@.contains(active) {
                let j = choose|j: int| 0 <= j < ids@.len() && ids@[j] == active;
                assert(ids@[j] <= ids@.last());
            }
        }
        ids.push(active);
        let s = LogStructured { index, files: ids, active_len: 0, uncompacted: 0, failed: false, disk: Ghost(d2) };
        proof {
            assert forall|id: u64| #[trigger] s.disk@.contains_key(id) <==> s.files@.contains(id) by {
                if s.files@.contains(id) && id != active {
                    let j = choose|j: int| 0 <= j < s.files@.len() && s.files@[j] == id;
                    assert(all[j] == id);
                }
                if s.disk@.contains_key(id) && id != active {
                    let j = choose|j: int| 0 <= j < all.len() && all[j] == id;
                    assert(s.files@[j] == id);
                }
                if id == active {
                    assert(s.files@[s.files@.len() - 1] == id);
                }
            }
            assert forall|k: Seq<char>| #[trigger] s.index@.contains_key(k) implies holds_put(
                s.disk@,
                s.index@[k],
                k,
            ) by {
                let f = s.index@[k].file;
                let j = choose|j: int| 0 <= j < all.len() && all[j] == f;
                assert(all[j] < active);
            }
            assert forall|i: int| 0 <= i < all.len() implies text_lt(
                log_name(#[trigger] all[i]),
                log_name(active),
            ) by {
                assert(s.files@[i] == all[i]);
                assert(s.files@[s.files@.len() - 1] == active);
                lemma_name_order(all[i], active);
            }
        }
        Ok(s)
    }

    /// Records that a write the store handed out (an append, or the files of
    /// a compaction) failed. From then on every operation returns `Io`; the
    /// files on disk still reopen as a consistent store.
    pub fn mark_failed(&mut self)
        requires
            old(self).wf(),
        ensures
            final(self).wf(),
            final(self).failed(),
            final(self)@ == old(self)@,
            final(self).files() == old(self).files(),
            final(self).disk() == old(self).disk(),
            final(self).pointers() == old(self).pointers(),
    {
        self.failed = true;
    }

    /// The id of the active log, the one `set` and `remove` append to.
    pub fn active_file(&self) -> (r: u64)
        requires
            self.wf(),
        ensures
            r == self.active(),
    {
        self.files[self.files.len() - 1]
    }

    /// Whether enough mutations have gathered for a compaction.
    pub fn compaction_due(&self) -> (r: bool)
        ensures
            r == (self.uncompacted() > COMPACTION_OPS_THRESHOLD),
    {
        self.uncompacted > COMPACTION_OPS_THRESHOLD
    }
}

/// The id of the log that follows a log whose id is `last`.
pub open spec fn next_id(now: u64, last: u64) -> Option<u64> {
    if now > last {
        Some(now)
    } else if last < u64::MAX {
        Some((last + 1) as u64)
    } else {
        None
    }
}

/// The id of the first log after the files `ids`.
pub open spec fn fresh_id(now: u64, ids: Seq<u64>) -> Option<u64> {
    if ids.len() == 0 {
        Some(now)
    } else {
        next_id(now, ids.last())
    }
}

pub open spec fn ids_of(files: Seq<LogFile>) -> Seq<u64> {
    files.map_values(|f: LogFile| f.id)
}

/// What the log files hold, by id.
pub open spec fn disk_of(files: Seq<LogFile>) -> Map<u64, Seq<u8>>
    decreases files.len(),
{
    if files.len() == 0 {
        Map::empty()
    } else {
        disk_of(files.drop_last()).insert(files.last().id, files.last().contents@)
    }
}

/// With ascending ids, the map of the files holds each file under its id.
proof fn lemma_disk_of_dom(files: Seq<LogFile>)
    requires
        ascending(ids_of(files)),
    ensures
        forall|id: u64| #[trigger]
            disk_of(files).contains_key(id) <==> exists|j: int| 0 <= j < files.len() && ids_of(files)[j] == id,
        forall|j: int| 0 <= j < files.len() ==> disk_of(files)[#[trigger] ids_of(files)[j]] == files[j].contents@,
    decreases files.len(),
{
    if files.len() > 0 {
        let f2 = files.drop_last();
        assert(ids_of(f2) =~= ids_of(files).drop_last());
        assert(disk_of(files) == disk_of(f2).insert(files.last().id, files.last().contents@));
        lemma_disk_of_dom(f2);
        let n = files.len() - 1;
        assert forall|id: u64| #[trigger]
            disk_of(files).contains_key(id) <==> exists|j: int| 0 <= j < files.len() && ids_of(files)[j] == id by {
            if disk_of(files).contains_key(id) && id != files.last().id {
                let j = choose|j: int| 0 <= j < f2.len() && ids_of(f2)[j] == id;
                assert(f2[j] == files[j]);
                assert(ids_of(files)[j] == id);
            }
            if id == files.last().id {
                assert(ids_of(files)[n] == id);
            }
            if exists|j: int| 0 <= j < files.len() && ids_of(files)[j] == id {
                let j = choose|j: int| 0 <= j < files.len() && ids_of(files)[j] == id;
                if j < n {
                    assert(f2[j] == files[j]);
                    assert(ids_of(f2)[j] == id);
                }
            }
        }
        assert forall|j: int| 0 <= j < files.len() implies disk_of(files)[#[trigger] ids_of(files)[j]]
            == files[j].contents@ by {
            if j < n {
                assert(ids_of(files)[j] < ids_of(files)[n]);
                assert(f2[j] == files[j]);
                assert(ids_of(f2)[j] == ids_of(files)[j]);
            }
        }
    }
}

/// A replay that fails on the first files fails on all of them.
proof fn lemma_replay_prefix_none(ids: Seq<u64>, d: Map<u64, Seq<u8>>, k: int)
    requires
        0 <= k <= ids.len(),
        replay(ids.subrange(0, k), d) is None,
    ensures
        replay(ids, d) is None,
    decreases ids.len() - k,
{
    if k < ids.len() {
        assert(ids.subrange(0, k + 1).drop_last() =~= ids.subrange(0, k));
        lemma_replay_prefix_none(ids, d, k + 1);
    } else {
        assert(ids.subrange(0, k) =~= ids);
    }
}

/// The records, one after another.
pub open spec fn concat(records: Seq<Vec<u8>>) -> Seq<u8>
    decreases records.len(),
{
    if records.len() == 0 {
        Seq::empty()
    } else {
        concat(records.drop_last()) + records.last()@
    }
}

proof fn lemma_lengths_sum_eq(a: Seq<LogPointer>, b: Seq<LogPointer>)
    requires
        a.len() == b.len(),
        forall|j: int| #![trigger a[j]] 0 <= j < a.len() ==> a[j].length == b[j].length,
    ensures
        lengths_sum(a) == lengths_sum(b),
    decreases a.len(),
{
    if a.len() > 0 {
        lemma_lengths_sum_eq(a.drop_last(), b.drop_last());
    }
}

/// `records` holds the bytes of the live records of `s`, in order.
pub open spec fn records_match(s: LogStructured, records: Seq<Vec<u8>>) -> bool {
    &&& records.len() == s.live_pointers().len()
    &&& forall|i: int|
        0 <= i < records.len() ==> #[trigger] records[i]@ == bytes_at(s.disk(), s.live_pointers()[i])
}

/// Whether `b` holds no newline.
fn newline_free(b: &[u8]) -> (r: bool)
    ensures
        r == no_newline(b@),
{
    let mut i: usize = 0;
    while i < b.len()
        invariant
            0 <= i <= b@.len(),
            forall|j: int| 0 <= j < i ==> b@[j] != NEWLINE,
        decreases b@.len() - i,
    {
        if b[i] == NEWLINE {
            return false;
        }
        i = i + 1;
    }
    true
}

/// `record` is a finished line that sets `key` to `value`.
pub open spec fn record_sets(record: Seq<u8>, key: Seq<char>, value: Seq<char>) -> bool {
    &&& record.len() >= 1
    &&& record.last() == NEWLINE
    &&& parse_line(record.drop_last()) == Some(Record::Put { key, value })
}

} // verus!
