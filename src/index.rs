//! The in-memory index: for each live key, where its latest record lies.
use vstd::hash_map::StringHashMap;
use vstd::prelude::*;

verus! {

/// Where a record lies: the log file's id, the byte offset of the record's
/// first byte, and its length in bytes, newline included.
#[derive(Clone, Copy, Debug, PartialEq, Eq, Structural)]
pub struct LogPointer {
    pub file: u64,
    pub offset: u64,
    pub length: u64,
}

/// Keys and their pointers, each key once; `positions` finds a key's entry.
pub struct Index {
    entries: Vec<(String, LogPointer)>,
    positions: StringHashMap<usize>,
}

impl View for Index {
    type V = Map<Seq<char>, LogPointer>;

    closed spec fn view(&self) -> Map<Seq<char>, LogPointer> {
        Map::new(
            |k: Seq<char>| exists|i: int| 0 <= i < self.entries@.len() && self.entries@[i].0@ == k,
            |k: Seq<char>|
                self.entries@[choose|i: int|
                    0 <= i < self.entries@.len() && self.entries@[i].0@ == k].1,
        )
    }
}

impl Index {
    /// Each key stands once, and `positions` holds where.
    pub closed spec fn wf(&self) -> bool {
        &&& forall|i: int, j: int|
            0 <= i < self.entries@.len() && 0 <= j < self.entries@.len() && i != j
                ==> self.entries@[i].0@ != self.entries@[j].0@
        &&& forall|k: Seq<char>| #[trigger]
            self.positions@.contains_key(k) ==> self.positions@[k] < self.entries@.len()
                && self.entries@[self.positions@[k] as int].0@ == k
        &&& forall|i: int|
            0 <= i < self.entries@.len() ==> self.positions@.contains_key(
                #[trigger] self.entries@[i].0@,
            )
    }

    /// The keys in the order in which the index holds them.
    pub closed spec fn keys(&self) -> Seq<Seq<char>> {
        self.entries@.map_values(|e: (String, LogPointer)| e.0@)
    }

    /// The pointers in the order in which the index holds them.
    pub closed spec fn ptrs(&self) -> Seq<LogPointer> {
        self.entries@.map_values(|e: (String, LogPointer)| e.1)
    }

    /// The sum of the lengths of the records the index points at.
    pub open spec fn total_length(&self) -> int {
        lengths_sum(self.ptrs())
    }

    /// The keys and pointers in order are the index.
    pub proof fn lemma_entries(&self)
        requires
            self.wf(),
        ensures
            self.keys().len() == self.ptrs().len(),
            self.keys().len() == self@.len(),
            self.keys().no_duplicates(),
            self@.dom() == self.keys().to_set(),
            forall|i: int|
                0 <= i < self.keys().len() ==> self@.contains_key(#[trigger] self.keys()[i])
                    && self@[self.keys()[i]] == self.ptrs()[i],
    {
        self.lemma_len();
        assert forall|i: int| 0 <= i < self.keys().len() implies self@.contains_key(
            #[trigger] self.keys()[i],
        ) && self@[self.keys()[i]] == self.ptrs()[i] by {
            self.lemma_view_at(i);
        }
        let keys = self.keys();
        assert forall|i: int, j: int| 0 <= i < keys.len() && 0 <= j < keys.len() && i != j
            implies keys[i] != keys[j] by {
            assert(keys[i] == self.entries@[i].0@);
            assert(keys[j] == self.entries@[j].0@);
        }
    }

    pub fn key_at(&self, i: usize) -> (r: &String)
        requires
            i < self.keys().len(),
        ensures
            r@ == self.keys()[i as int],
    {
        &self.entries[i].0
    }

    pub fn ptr_at(&self, i: usize) -> (r: LogPointer)
        requires
            i < self.keys().len(),
        ensures
            r == self.ptrs()[i as int],
    {
        self.entries[i].1
    }

    proof fn lemma_view_at(&self, i: int)
        requires
            self.wf(),
            0 <= i < self.entries@.len(),
        ensures
            self@.contains_key(self.entries@[i].0@),
            self@[self.entries@[i].0@] == self.entries@[i].1,
    {
        let k = self.entries@[i].0@;
        assert(self@.contains_key(k));
        let j = choose|j: int| 0 <= j < self.entries@.len() && self.entries@[j].0@ == k;
        assert(i == j);
    }

    pub fn new() -> (r: Index)
        ensures
            r.wf(),
            r@ == Map::<Seq<char>, LogPointer>::empty(),
            r.ptrs() == Seq::<LogPointer>::empty(),
            r.keys() == Seq::<Seq<char>>::empty(),
    {
        let r = Index { entries: Vec::new(), positions: StringHashMap::new() };
        assert(r@ =~= Map::<Seq<char>, LogPointer>::empty());
        assert(r.ptrs() =~= Seq::<LogPointer>::empty());
        assert(r.keys() =~= Seq::<Seq<char>>::empty());
        r
    }

    pub fn len(&self) -> (r: usize)
        requires
            self.wf(),
        ensures
            r == self@.len(),
    {
        proof {
            self.lemma_len();
        }
        self.entries.len()
    }

    proof fn lemma_len(&self)
        requires
            self.wf(),
        ensures
            self@.len() == self.entries@.len(),
            self@.dom() == self.keys().to_set(),
    {
        let keys = self.keys();
        assert(self@.dom() =~= keys.to_set()) by {
            assert forall|k: Seq<char>| self@.dom().contains(k) implies keys.to_set().contains(k) by {
                let i = choose|i: int| 0 <= i < self.entries@.len() && self.entries@[i].0@ == k;
                assert(keys[i] == k);
            }
            assert forall|k: Seq<char>| keys.to_set().contains(k) implies self@.dom().contains(k) by {
                let i = choose|i: int| 0 <= i < keys.len() && keys[i] == k;
                assert(self.entries@[i].0@ == k);
            }
        }
        assert(keys.no_duplicates()) by {
            assert forall|i: int, j: int| 0 <= i < keys.len() && 0 <= j < keys.len() && i != j
                implies keys[i] != keys[j] by {
                assert(keys[i] == self.entries@[i].0@);
                assert(keys[j] == self.entries@[j].0@);
            }
        }
        keys.unique_seq_to_set();
    }

    /// The position of `key`, if the index holds it.
    fn position(&self, key: &String) -> (r: Option<usize>)
        requires
            self.wf(),
        ensures
            match r {
                Some(i) => i < self.entries@.len() && self.entries@[i as int].0@ == key@,
                None => !self@.contains_key(key@),
            },
    {
        match self.positions.get(key.as_str()) {
            Some(i) => Some(*i),
            None => {
                proof {
                    if self@.contains_key(key@) {
                        let j = choose|j: int|
                            0 <= j < self.entries@.len() && self.entries@[j].0@ == key@;
                        assert(self.positions@.contains_key(self.entries@[j].0@));
                    }
                }
                None
            },
        }
    }

    /// The pointer of `key`.
    pub fn get(&self, key: &String) -> (r: Option<LogPointer>)
        requires
            self.wf(),
        ensures
            r == self@.get(key@),
    {
        match self.position(key) {
            Some(i) => {
                proof {
                    self.lemma_view_at(i as int);
                }
                Some(self.entries[i].1)
            },
            None => None,
        }
    }

    /// Points `key` at `p`, in place of what it pointed at before.
    pub fn insert(&mut self, key: String, p: LogPointer)
        requires
            old(self).wf(),
        ensures
            final(self).wf(),
            final(self)@ == old(self)@.insert(key@, p),
            !old(self)@.contains_key(key@) ==> final(self).ptrs() == old(self).ptrs().push(p)
                && final(self).keys() == old(self).keys().push(key@),
    {
        match self.position(&key) {
            Some(i) => {
                let ghost before = self.entries@;
                self.entries.set(i, (key, p));
                proof {
                    assert forall|j: int| 0 <= j < self.entries@.len() implies #[trigger] self.entries@[j].0@
                        == before[j].0@ by {}
                    assert forall|k: Seq<char>| #[trigger] self.positions@.contains_key(k) implies self.positions@[k]
                        < self.entries@.len() && self.entries@[self.positions@[k] as int].0@ == k by {
                        assert(self.entries@[self.positions@[k] as int].0@ == before[self.positions@[k] as int].0@);
                    }
                    assert forall|j: int| 0 <= j < self.entries@.len() implies self.positions@.contains_key(
                        #[trigger] self.entries@[j].0@,
                    ) by {
                        assert(self.entries@[j].0@ == before[j].0@);
                    }
                    assert forall|k: Seq<char>| #[trigger] self@.contains_key(k)
                        == old(self)@.insert(key@, p).contains_key(k) by {
                        if k != key@ && old(self)@.contains_key(k) {
                            let j = choose|j: int| 0 <= j < before.len() && before[j].0@ == k;
                            assert(self.entries@[j].0@ == k);
                        }
                        if k == key@ {
                            assert(self.entries@[i as int].0@ == k);
                        }
                        if self@.contains_key(k) && k != key@ {
                            let j = choose|j: int|
                                0 <= j < self.entries@.len() && self.entries@[j].0@ == k;
                            assert(before[j].0@ == k);
                        }
                    }
                    assert forall|k: Seq<char>| #[trigger] self@.contains_key(k) implies self@[k]
                        == old(self)@.insert(key@, p)[k] by {
                        let j = choose|j: int|
                            0 <= j < self.entries@.len() && self.entries@[j].0@ == k;
                        self.lemma_view_at(j);
                        if k != key@ {
                            assert(before[j] == self.entries@[j]);
                            old(self).lemma_view_at(j);
                        } else {
                            assert(j == i);
                        }
                    }
                    assert(self@ =~= old(self)@.insert(key@, p));
                }
            },
            None => {
                let ghost before = self.entries@;
                let ghost before_pos = self.positions@;
                let at = self.entries.len();
                let k2 = key.clone();
                self.positions.insert(k2, at);
                self.entries.push((key, p));
                proof {
                    assert forall|k: Seq<char>| #[trigger] self.positions@.contains_key(k) implies self.positions@[k]
                        < self.entries@.len() && self.entries@[self.positions@[k] as int].0@ == k by {
                        if k != key@ {
                            assert(before_pos.contains_key(k));
                            assert(self.entries@[before_pos[k] as int] == before[before_pos[k] as int]);
                        }
                    }
                    assert forall|j: int| 0 <= j < self.entries@.len() implies self.positions@.contains_key(
                        #[trigger] self.entries@[j].0@,
                    ) by {
                        if j < before.len() {
                            assert(self.entries@[j] == before[j]);
                            assert(before_pos.contains_key(before[j].0@));
                        }
                    }
                    let n = before.len() as int;
                    assert(self.entries@[n].0@ == key@);
                    assert forall|k: Seq<char>| #[trigger] self@.contains_key(k)
                        == old(self)@.insert(key@, p).contains_key(k) by {
                        if k != key@ && old(self)@.contains_key(k) {
                            let j = choose|j: int| 0 <= j < before.len() && before[j].0@ == k;
                            assert(self.entries@[j].0@ == k);
                        }
                        if k == key@ {
                            assert(self.entries@[n].0@ == k);
                        }
                        if self@.contains_key(k) && k != key@ {
                            let j = choose|j: int|
                                0 <= j < self.entries@.len() && self.entries@[j].0@ == k;
                            assert(before[j].0@ == k);
                        }
                    }
                    assert forall|k: Seq<char>| #[trigger] self@.contains_key(k) implies self@[k]
                        == old(self)@.insert(key@, p)[k] by {
                        let j = choose|j: int|
                            0 <= j < self.entries@.len() && self.entries@[j].0@ == k;
                        self.lemma_view_at(j);
                        if k != key@ {
                            assert(before[j] == self.entries@[j]);
                            old(self).lemma_view_at(j);
                        } else {
                            assert(j == n);
                        }
                    }
                    assert(self@ =~= old(self)@.insert(key@, p));
                    assert(self.ptrs() =~= old(self).ptrs().push(p));
                    assert(self.keys() =~= old(self).keys().push(key@));
                }
            },
        }
    }

    /// Drops `key`; says whether the index held it.
    pub fn remove(&mut self, key: &String) -> (r: bool)
        requires
            old(self).wf(),
        ensures
            final(self).wf(),
            final(self)@ == old(self)@.remove(key@),
            r == old(self)@.contains_key(key@),
    {
        match self.position(key) {
            Some(i) => {
                let ghost before = self.entries@;
                proof {
                    old(self).lemma_view_at(i as int);
                }
                let ghost before_pos = self.positions@;
                let _ = self.entries.swap_remove(i);
                self.positions.remove(key.as_str());
                if i < self.entries.len() {
                    let moved = self.entries[i].0.clone();
                    self.positions.insert(moved, i);
                }
                proof {
                    let n = before.len() - 1;
                    assert forall|j: int| 0 <= j < self.entries@.len() implies #[trigger] self.entries@[j]
                        == (if j == i { before[n] } else { before[j] }) by {}
                    assert forall|k: Seq<char>| #[trigger] self.positions@.contains_key(k) implies self.positions@[k]
                        < self.entries@.len() && self.entries@[self.positions@[k] as int].0@ == k by {
                        if i < n && k == before[n].0@ {
                        } else {
                            assert(before_pos.contains_key(k));
                            assert(k != key@);
                            let q = before_pos[k] as int;
                            assert(before[q].0@ == k);
                            if q == n {
                                assert(i < n);
                                assert(k == before[n].0@);
                            }
                            assert(q != i);
                            assert(self.entries@[q] == before[q]);
                        }
                    }
                    assert forall|j: int| 0 <= j < self.entries@.len() implies self.positions@.contains_key(
                        #[trigger] self.entries@[j].0@,
                    ) by {
                        if j != i {
                            assert(self.entries@[j] == before[j]);
                            assert(before_pos.contains_key(before[j].0@));
                            assert(before[j].0@ != key@);
                        }
                    }
                    assert forall|k: Seq<char>| #[trigger] self@.contains_key(k)
                        == old(self)@.remove(key@).contains_key(k) by {
                        if k != key@ && old(self)@.contains_key(k) {
                            let j = choose|j: int| 0 <= j < before.len() && before[j].0@ == k;
                            if j == n {
                                assert(self.entries@[i as int].0@ == k);
                            } else {
                                assert(j != i);
                                assert(self.entries@[j].0@ == k);
                            }
                        }
                        if self@.contains_key(k) {
                            let j = choose|j: int|
                                0 <= j < self.entries@.len() && self.entries@[j].0@ == k;
                            if j == i {
                                assert(before[n].0@ == k);
                            } else {
                                assert(before[j].0@ == k);
                            }
                        }
                    }
                    assert forall|k: Seq<char>| #[trigger] self@.contains_key(k) implies self@[k]
                        == old(self)@.remove(key@)[k] by {
                        let j = choose|j: int|
                            0 <= j < self.entries@.len() && self.entries@[j].0@ == k;
                        self.lemma_view_at(j);
                        if j == i {
                            old(self).lemma_view_at(n);
                        } else {
                            old(self).lemma_view_at(j);
                        }
                    }
                    assert(self@ =~= old(self)@.remove(key@));
                }
                true
            },
            None => {
                assert(self@ =~= old(self)@.remove(key@));
                false
            },
        }
    }
}

/// The sum of the lengths of a sequence of pointers.
pub open spec fn lengths_sum(s: Seq<LogPointer>) -> int
    decreases s.len(),
{
    if s.len() == 0 {
        0
    } else {
        lengths_sum(s.drop_last()) + s.last().length
    }
}

} // verus!
