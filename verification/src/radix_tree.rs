//! The ordered index of a spatial collection: its records by composite code,
//! records of one code by number.

use crate::morton::{self, code_gt, MAX_AXES};
use vstd::prelude::*;

verus! {

/// One indexed record and the words of its composite code.
#[derive(Clone, Copy)]
pub struct Entry {
    pub words: [u64; MAX_AXES],
    pub rec: u32,
}

impl Entry {
    /// The composite code over `n` axes.
    pub open spec fn code(&self, n: int) -> nat {
        morton::words_value(self.words@, n)
    }

    /// Whether this entry stands before `other`.
    pub open spec fn before(&self, other: &Entry, n: int) -> bool {
        self.code(n) < other.code(n) || (self.code(n) == other.code(n) && self.rec < other.rec)
    }
}

/// The entries of an index in their order.
pub struct RadixTree {
    pub entries: Vec<Entry>,
}

impl RadixTree {
    /// The entries stand in strict order of code and record.
    pub open spec fn sorted(&self, n: int) -> bool {
        forall|i: int, j: int|
            #![trigger self.entries@[i], self.entries@[j]]
            0 <= i < j < self.entries.len() ==> self.entries@[i].before(&self.entries@[j], n)
    }

    /// The indexed records in order.
    pub open spec fn recs(&self) -> Seq<u32> {
        Seq::new(self.entries@.len(), |i: int| self.entries@[i].rec)
    }

    /// An index without entries.
    pub fn new() -> (tree: RadixTree)
        ensures
            tree.entries.len() == 0,
    {
        RadixTree { entries: Vec::new() }
    }

    /// Where the entries from code `words` on start.
    pub fn seek(&self, words: &[u64; MAX_AXES], n: usize) -> (at: usize)
        requires
            n <= MAX_AXES,
            self.sorted(n as int),
        ensures
            at <= self.entries.len(),
            forall|i: int|
                0 <= i < at ==> (#[trigger] self.entries@[i]).code(n as int) < morton::words_value(
                    words@,
                    n as int,
                ),
            forall|i: int|
                at <= i < self.entries.len() ==> (#[trigger] self.entries@[i]).code(n as int)
                    >= morton::words_value(words@, n as int),
    {
        let mut lo: usize = 0;
        let mut hi: usize = self.entries.len();
        while lo < hi
            invariant
                n <= MAX_AXES,
                self.sorted(n as int),
                lo <= hi <= self.entries.len(),
                forall|i: int|
                    0 <= i < lo ==> (#[trigger] self.entries@[i]).code(n as int)
                        < morton::words_value(words@, n as int),
                forall|i: int|
                    hi <= i < self.entries.len() ==> (#[trigger] self.entries@[i]).code(n as int)
                        >= morton::words_value(words@, n as int),
            decreases hi - lo,
        {
            let mid: usize = lo + (hi - lo) / 2;
            if code_gt(words, &self.entries[mid].words, n) {
                lo = mid + 1;
            } else {
                hi = mid;
            }
        }
        lo
    }

    /// Where an entry of code `words` and record `rec` belongs.
    fn place(&self, words: &[u64; MAX_AXES], rec: u32, n: usize) -> (at: usize)
        requires
            n <= MAX_AXES,
            self.sorted(n as int),
        ensures
            at <= self.entries.len(),
            forall|i: int|
                0 <= i < at ==> (#[trigger] self.entries@[i]).before(
                    &(Entry { words: *words, rec }),
                    n as int,
                ),
            forall|i: int|
                at <= i < self.entries.len() ==> !(#[trigger] self.entries@[i]).before(
                    &(Entry { words: *words, rec }),
                    n as int,
                ),
    {
        let mut at: usize = self.seek(words, n);
        while at < self.entries.len() && !code_gt(&self.entries[at].words, words, n)
            && self.entries[at].rec < rec
            invariant
                n <= MAX_AXES,
                self.sorted(n as int),
                at <= self.entries.len(),
                forall|i: int|
                    0 <= i < at ==> (#[trigger] self.entries@[i]).before(
                        &(Entry { words: *words, rec }),
                        n as int,
                    ),
                forall|i: int|
                    at <= i < self.entries.len() ==> (#[trigger] self.entries@[i]).code(n as int)
                        >= morton::words_value(words@, n as int),
            decreases self.entries.len() - at,
        {
            at = at + 1;
        }
        at
    }

    /// Whether the entry at `at` is the one of code `words` and record `rec`.
    fn stands_at(&self, at: usize, words: &[u64; MAX_AXES], rec: u32, n: usize) -> (here: bool)
        requires
            n <= MAX_AXES,
            at <= self.entries.len(),
        ensures
            here == (at < self.entries.len() && self.entries@[at as int].code(n as int)
                == morton::words_value(words@, n as int) && self.entries@[at as int].rec == rec),
    {
        at < self.entries.len() && !code_gt(&self.entries[at].words, words, n) && !code_gt(
            words,
            &self.entries[at].words,
            n,
        ) && self.entries[at].rec == rec
    }

    /// Enter a record under its code; one that is already entered stays once.
    pub fn insert(&mut self, words: &[u64; MAX_AXES], rec: u32, n: usize)
        requires
            n <= MAX_AXES,
            old(self).sorted(n as int),
        ensures
            final(self).sorted(n as int),
            ({
                let entry = Entry { words: *words, rec };
                ||| final(self).entries == old(self).entries && exists|i: int|
                    0 <= i < old(self).entries.len() && (#[trigger] old(self).entries@[i]).rec == rec
                        && old(self).entries@[i].code(n as int) == entry.code(n as int)
                ||| (forall|i: int|
                    0 <= i < old(self).entries.len() ==> !((#[trigger] old(self).entries@[i]).rec == rec
                        && old(self).entries@[i].code(n as int) == entry.code(n as int)))
                    && exists|at: int|
                    0 <= at <= old(self).entries.len() && final(self).entries@ == #[trigger] old(
                        self,
                    ).entries@.insert(at, entry)
            }),
    {
        let at: usize = self.place(words, rec, n);
        let ghost entry = Entry { words: *words, rec };
        if !self.stands_at(at, words, rec, n) {
            let ghost was = self.entries@;
            assert forall|i: int| 0 <= i < was.len() implies !((#[trigger] was[i]).rec == rec
                && was[i].code(n as int) == entry.code(n as int)) by {
                if i < at {
                    assert(was[i].before(&entry, n as int));
                } else if i > at {
                    assert(was[at as int].before(&was[i], n as int));
                }
            }
            self.entries.insert(at, Entry { words: *words, rec });
            assert(self.entries@ == was.insert(at as int, entry));
            assert forall|i: int, j: int|
                #![trigger self.entries@[i], self.entries@[j]]
                0 <= i < j < self.entries.len() implies self.entries@[i].before(
                &self.entries@[j],
                n as int,
            ) by {
                let a = if i < at { i } else { i - 1 };
                let b = if j < at { j } else { j - 1 };
                if i != at && j != at {
                    assert(was[a].before(&was[b], n as int));
                } else if i == at {
                    assert(!was[b].before(&entry, n as int));
                } else {
                    assert(was[a].before(&entry, n as int));
                }
            }
        }
    }

    /// Take a record out; `false` when it was not entered under that code.
    pub fn remove(&mut self, words: &[u64; MAX_AXES], rec: u32, n: usize) -> (gone: bool)
        requires
            n <= MAX_AXES,
            old(self).sorted(n as int),
        ensures
            final(self).sorted(n as int),
            !gone ==> final(self).entries == old(self).entries && forall|i: int|
                0 <= i < old(self).entries.len() ==> !((#[trigger] old(self).entries@[i]).rec == rec
                    && old(self).entries@[i].code(n as int) == morton::words_value(
                    words@,
                    n as int,
                )),
            gone ==> exists|at: int|
                0 <= at < old(self).entries.len() && old(self).entries@[at].rec == rec && old(
                    self,
                ).entries@[at].code(n as int) == morton::words_value(words@, n as int)
                    && final(self).entries@ == #[trigger] old(self).entries@.remove(at),
    {
        let at: usize = self.place(words, rec, n);
        let ghost was = self.entries@;
        let ghost entry = Entry { words: *words, rec };
        if !self.stands_at(at, words, rec, n) {
            assert forall|i: int| 0 <= i < was.len() implies !((#[trigger] was[i]).rec == rec
                && was[i].code(n as int) == entry.code(n as int)) by {
                if i < at {
                    assert(was[i].before(&entry, n as int));
                } else if i > at {
                    assert(was[at as int].before(&was[i], n as int));
                }
            }
            return false;
        }
        let _gone: Entry = self.entries.remove(at);
        assert(self.entries@ == was.remove(at as int));
        assert forall|i: int, j: int|
            #![trigger self.entries@[i], self.entries@[j]]
            0 <= i < j < self.entries.len() implies self.entries@[i].before(
            &self.entries@[j],
            n as int,
        ) by {
            let a = if i < at { i } else { i + 1 };
            let b = if j < at { j } else { j + 1 };
            assert(was[a].before(&was[b], n as int));
        }
        true
    }
}

} // verus!
