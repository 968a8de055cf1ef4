//! The lockup store: an ordered mapping from account identity to a lockup.
//!
//! Entries are kept in a vector sorted strictly by the lexicographic order of
//! the account keys, which makes point lookup exact and range iteration
//! deterministic. The store is modelled by the map `as_map` for lookup,
//! insertion and removal, and by the sorted sequence `entries_seq` for
//! pagination.

use vstd::prelude::*;

use crate::lockup::Lockup;
use crate::order::KeyCmp;
use crate::order::clone_bytes;
use crate::order::lemma_lex_lt_irreflexive;
use crate::order::lemma_lex_lt_transitive;
use crate::order::lex_cmp;
use crate::order::lex_lt;

verus! {

/// The mathematical value of one stored entry: the key bytes and the lockup.
pub open spec fn entry_view(e: (Vec<u8>, Lockup)) -> (Seq<u8>, Lockup) {
    (e.0@, e.1)
}

/// The mathematical value of a sequence of stored entries.
pub open spec fn pairs_view(s: Seq<(Vec<u8>, Lockup)>) -> Seq<(Seq<u8>, Lockup)> {
    s.map_values(|e: (Vec<u8>, Lockup)| entry_view(e))
}

/// The page that skipping `skip` entries of `s` and then taking at most
/// `take` entries yields; out-of-range bounds are clamped, so skipping past
/// the end or taking zero gives the empty page.
pub open spec fn page_slice(s: Seq<(Seq<u8>, Lockup)>, skip: int, take: int) -> Seq<
    (Seq<u8>, Lockup),
> {
    let n = s.len() as int;
    let lo = if skip <= n {
        skip
    } else {
        n
    };
    let hi = if lo + take <= n {
        lo + take
    } else {
        n
    };
    s.subrange(lo, hi)
}

/// An ordered mapping from account key to lockup.
pub struct LockupStore {
    entries: Vec<(Vec<u8>, Lockup)>,
}

impl LockupStore {
    /// The entries, in storage order.
    pub closed spec fn entries_seq(self) -> Seq<(Seq<u8>, Lockup)> {
        pairs_view(self.entries@)
    }

    /// The keys are strictly sorted, so each key occurs at most once and
    /// iteration is in key order.
    pub open spec fn wf(self) -> bool {
        forall|i: int, j: int|
            0 <= i < j < self.entries_seq().len() ==> lex_lt(
                (#[trigger] self.entries_seq()[i]).0,
                (#[trigger] self.entries_seq()[j]).0,
            )
    }

    /// Some entry holds the key `k`.
    pub open spec fn spec_contains(self, k: Seq<u8>) -> bool {
        exists|i: int|
            0 <= i < self.entries_seq().len() && (#[trigger] self.entries_seq()[i]).0 == k
    }

    /// The position of the entry holding the key `k`.
    pub open spec fn index_of(self, k: Seq<u8>) -> int {
        choose|i: int|
            0 <= i < self.entries_seq().len() && (#[trigger] self.entries_seq()[i]).0 == k
    }

    /// The mapping the store holds.
    pub open spec fn as_map(self) -> Map<Seq<u8>, Lockup> {
        Map::new(
            |k: Seq<u8>| self.spec_contains(k),
            |k: Seq<u8>| self.entries_seq()[self.index_of(k)].1,
        )
    }

    /// In a well-formed store a key determines its position.
    pub proof fn lemma_key_unique(self, i: int, j: int)
        requires
            self.wf(),
            0 <= i < self.entries_seq().len(),
            0 <= j < self.entries_seq().len(),
            self.entries_seq()[i].0 == self.entries_seq()[j].0,
        ensures
            i == j,
    {
        if i < j || j < i {
            lemma_lex_lt_irreflexive(self.entries_seq()[i].0);
        }
    }

    /// The entry at position `i` is what the mapping gives for its key.
    pub proof fn lemma_entry_value(self, i: int)
        requires
            self.wf(),
            0 <= i < self.entries_seq().len(),
        ensures
            self.as_map().contains_key(self.entries_seq()[i].0),
            self.as_map()[self.entries_seq()[i].0] == self.entries_seq()[i].1,
    {
        let k = self.entries_seq()[i].0;
        assert(self.spec_contains(k));
        self.lemma_key_unique(self.index_of(k), i);
    }

    /// Creates an empty store.
    pub fn new() -> (r: LockupStore)
        ensures
            r.wf(),
            r.as_map() == Map::<Seq<u8>, Lockup>::empty(),
            r.entries_seq().len() == 0,
    {
        let r = LockupStore { entries: Vec::new() };
        proof {
            assert(r.as_map() =~= Map::<Seq<u8>, Lockup>::empty());
        }
        r
    }

    /// The number of entries.
    pub fn len(&self) -> (r: usize)
        ensures
            r == self.entries_seq().len(),
    {
        self.entries.len()
    }

    /// Finds where the key `k` stands or would stand: the first position whose
    /// key is not below `k`, and whether that position holds `k` itself.
    fn find_slot(&self, key: &Vec<u8>) -> (r: (usize, bool))
        requires
            self.wf(),
        ensures
            r.0 <= self.entries_seq().len(),
            forall|j: int| 0 <= j < r.0 ==> lex_lt((#[trigger] self.entries_seq()[j]).0, key@),
            r.1 ==> r.0 < self.entries_seq().len() && self.entries_seq()[r.0 as int].0 == key@,
            !r.1 && r.0 < self.entries_seq().len() ==> lex_lt(
                key@,
                self.entries_seq()[r.0 as int].0,
            ),
            r.1 == self.spec_contains(key@),
            r.1 ==> r.0 == self.index_of(key@),
    {
        let n = self.entries.len();
        let mut i: usize = 0;
        while i < n
            invariant
                self.wf(),
                i <= n,
                n == self.entries_seq().len(),
                forall|j: int| 0 <= j < i ==> lex_lt((#[trigger] self.entries_seq()[j]).0, key@),
            decreases n - i,
        {
            let e = &self.entries[i];
            match lex_cmp(&e.0, key) {
                KeyCmp::Less => {
                    i = i + 1;
                }
                KeyCmp::Equal => {
                    proof {
                        assert(self.entries_seq()[i as int].0 == key@);
                        assert(self.spec_contains(key@));
                        self.lemma_key_unique(self.index_of(key@), i as int);
                    }
                    return (i, true);
                }
                KeyCmp::Greater => {
                    proof {
                        assert(lex_lt(key@, self.entries_seq()[i as int].0));
                        assert forall|j: int|
                            0 <= j < self.entries_seq().len() implies (
                        #[trigger] self.entries_seq()[j]).0 != key@ by {
                            if j < i {
                                if self.entries_seq()[j].0 == key@ {
                                    lemma_lex_lt_irreflexive(key@);
                                }
                            } else if j == i {
                                if self.entries_seq()[j].0 == key@ {
                                    lemma_lex_lt_irreflexive(key@);
                                }
                            } else {
                                lemma_lex_lt_transitive(
                                    key@,
                                    self.entries_seq()[i as int].0,
                                    self.entries_seq()[j].0,
                                );
                                if self.entries_seq()[j].0 == key@ {
                                    lemma_lex_lt_irreflexive(key@);
                                }
                            }
                        }
                        assert(!self.spec_contains(key@));
                    }
                    return (i, false);
                }
            }
        }
        proof {
            assert forall|j: int|
                0 <= j < self.entries_seq().len() implies (#[trigger] self.entries_seq()[j]).0
                != key@ by {
                if self.entries_seq()[j].0 == key@ {
                    lemma_lex_lt_irreflexive(key@);
                }
            }
            assert(!self.spec_contains(key@));
        }
        (n, false)
    }

    /// Point lookup.
    pub fn get(&self, key: &Vec<u8>) -> (r: Option<Lockup>)
        requires
            self.wf(),
        ensures
            r == if self.as_map().contains_key(key@) {
                Some(self.as_map()[key@])
            } else {
                None::<Lockup>
            },
    {
        let (pos, present) = self.find_slot(key);
        if present {
            proof {
                self.lemma_entry_value(pos as int);
            }
            Some(self.entries[pos].1)
        } else {
            None
        }
    }

    /// Inserts the pair, replacing the entry of an already-present key.
    pub fn insert(&mut self, key: Vec<u8>, val: Lockup)
        requires
            old(self).wf(),
        ensures
            final(self).wf(),
            final(self).as_map() == old(self).as_map().insert(key@, val),
    {
        let (pos, present) = self.find_slot(&key);
        let ghost old_store = *self;
        let ghost k = key@;
        if present {
            self.entries[pos] = (key, val);
            proof {
                assert(self.entries@ == old_store.entries@.update(pos as int, (key, val)));
                assert forall|j: int|
                    0 <= j < self.entries_seq().len() implies (#[trigger] self.entries_seq()[j]).0
                    == old_store.entries_seq()[j].0 by {}
                assert(self.wf());
                assert(self.as_map() =~= old_store.as_map().insert(k, val)) by {
                    assert forall|q: Seq<u8>|
                        self.spec_contains(q) == (old_store.spec_contains(q) || q == k) by {
                        if self.spec_contains(q) {
                            let w = choose|w: int|
                                0 <= w < self.entries_seq().len() && (
                                #[trigger] self.entries_seq()[w]).0 == q;
                            assert(old_store.entries_seq()[w].0 == q);
                        }
                        if old_store.spec_contains(q) {
                            let w = choose|w: int|
                                0 <= w < old_store.entries_seq().len() && (
                                #[trigger] old_store.entries_seq()[w]).0 == q;
                            assert(self.entries_seq()[w].0 == q);
                        }
                        if q == k {
                            assert(self.entries_seq()[pos as int].0 == q);
                        }
                    }
                    assert forall|q: Seq<u8>| self.spec_contains(q) implies self.as_map()[q]
                        == old_store.as_map().insert(k, val)[q] by {
                        let w = self.index_of(q);
                        self.lemma_entry_value(w);
                        if q == k {
                            self.lemma_key_unique(w, pos as int);
                        } else {
                            assert(old_store.entries_seq()[w].0 == q);
                            old_store.lemma_entry_value(w);
                        }
                    }
                }
            }
        } else {
            self.entries.insert(pos, (key, val));
            proof {
                assert(self.entries@ == old_store.entries@.insert(pos as int, (key, val)));
                let n = old_store.entries_seq().len();
                assert forall|j: int| 0 <= j < pos implies (#[trigger] self.entries_seq()[j])
                    == old_store.entries_seq()[j] by {
                    assert(self.entries@[j] == old_store.entries@[j]);
                }
                assert(self.entries_seq()[pos as int].0 == k);
                assert(self.entries_seq()[pos as int].1 == val);
                assert forall|j: int| pos < j < n + 1 implies (#[trigger] self.entries_seq()[j])
                    == old_store.entries_seq()[j - 1] by {
                    assert(self.entries@[j] == old_store.entries@[j - 1]);
                }
                assert forall|x: int, y: int|
                    0 <= x < y < self.entries_seq().len() implies lex_lt(
                    self.entries_seq()[x].0,
                    self.entries_seq()[y].0,
                ) by {
                    if y < pos {
                    } else if y == pos {
                        assert(lex_lt(old_store.entries_seq()[x].0, k));
                    } else if x < pos {
                        assert(self.entries_seq()[y].0 == old_store.entries_seq()[y - 1].0);
                        if x == y - 1 {
                            assert(lex_lt(old_store.entries_seq()[x].0, k));
                            lemma_lex_lt_transitive(
                                old_store.entries_seq()[x].0,
                                k,
                                old_store.entries_seq()[y - 1].0,
                            );
                        }
                    } else if x == pos {
                        assert(lex_lt(k, old_store.entries_seq()[pos as int].0));
                        if y - 1 > pos {
                            lemma_lex_lt_transitive(
                                k,
                                old_store.entries_seq()[pos as int].0,
                                old_store.entries_seq()[y - 1].0,
                            );
                        }
                    } else {
                    }
                }
                assert(self.wf());
                assert(self.as_map() =~= old_store.as_map().insert(k, val)) by {
                    assert forall|q: Seq<u8>|
                        self.spec_contains(q) == (old_store.spec_contains(q) || q == k) by {
                        if self.spec_contains(q) {
                            let w = choose|w: int|
                                0 <= w < self.entries_seq().len() && (
                                #[trigger] self.entries_seq()[w]).0 == q;
                            if w < pos {
                                assert(old_store.entries_seq()[w].0 == q);
                            } else if w > pos {
                                assert(old_store.entries_seq()[w - 1].0 == q);
                            }
                        }
                        if old_store.spec_contains(q) {
                            let w = choose|w: int|
                                0 <= w < old_store.entries_seq().len() && (
                                #[trigger] old_store.entries_seq()[w]).0 == q;
                            if w < pos {
                                assert(self.entries_seq()[w].0 == q);
                            } else {
                                assert(self.entries_seq()[w + 1].0 == q);
                            }
                        }
                        if q == k {
                            assert(self.entries_seq()[pos as int].0 == q);
                        }
                    }
                    assert forall|q: Seq<u8>| self.spec_contains(q) implies self.as_map()[q]
                        == old_store.as_map().insert(k, val)[q] by {
                        let w = self.index_of(q);
                        self.lemma_entry_value(w);
                        if q == k {
                            self.lemma_key_unique(w, pos as int);
                        } else {
                            assert(w != pos);
                            if w < pos {
                                assert(old_store.entries_seq()[w].0 == q);
                                assert(old_store.entries_seq()[w].1 == self.entries_seq()[w].1);
                                old_store.lemma_entry_value(w);
                            } else {
                                assert(old_store.entries_seq()[w - 1].0 == q);
                                assert(old_store.entries_seq()[w - 1].1 == self.entries_seq()[w].1);
                                old_store.lemma_entry_value(w - 1);
                            }
                        }
                    }
                }
            }
        }
    }

    /// Removes the entry of the key, returning its lockup.
    pub fn remove(&mut self, key: &Vec<u8>) -> (r: Option<Lockup>)
        requires
            old(self).wf(),
        ensures
            final(self).wf(),
            r == if old(self).as_map().contains_key(key@) {
                Some(old(self).as_map()[key@])
            } else {
                None::<Lockup>
            },
            final(self).as_map() == old(self).as_map().remove(key@),
    {
        let (pos, present) = self.find_slot(key);
        let ghost old_store = *self;
        let ghost k = key@;
        if present {
            proof {
                old_store.lemma_entry_value(pos as int);
            }
            let e = self.entries.remove(pos);
            proof {
                assert(self.entries@ == old_store.entries@.remove(pos as int));
                let n = old_store.entries_seq().len();
                assert forall|j: int| 0 <= j < pos implies (#[trigger] self.entries_seq()[j])
                    == old_store.entries_seq()[j] by {
                    assert(self.entries@[j] == old_store.entries@[j]);
                }
                assert forall|j: int| pos <= j < n - 1 implies (#[trigger] self.entries_seq()[j])
                    == old_store.entries_seq()[j + 1] by {
                    assert(self.entries@[j] == old_store.entries@[j + 1]);
                }
                assert forall|x: int, y: int|
                    0 <= x < y < self.entries_seq().len() implies lex_lt(
                    self.entries_seq()[x].0,
                    self.entries_seq()[y].0,
                ) by {
                    if x < pos && y < pos {
                    } else if x < pos {
                        assert(self.entries_seq()[y].0 == old_store.entries_seq()[y + 1].0);
                    } else {
                        assert(self.entries_seq()[x].0 == old_store.entries_seq()[x + 1].0);
                        assert(self.entries_seq()[y].0 == old_store.entries_seq()[y + 1].0);
                    }
                }
                assert(self.wf());
                assert(self.as_map() =~= old_store.as_map().remove(k)) by {
                    assert forall|q: Seq<u8>|
                        self.spec_contains(q) == (old_store.spec_contains(q) && q != k) by {
                        if self.spec_contains(q) {
                            let w = choose|w: int|
                                0 <= w < self.entries_seq().len() && (
                                #[trigger] self.entries_seq()[w]).0 == q;
                            if w < pos {
                                assert(old_store.entries_seq()[w].0 == q);
                                if q == k {
                                    old_store.lemma_key_unique(w, pos as int);
                                }
                            } else {
                                assert(old_store.entries_seq()[w + 1].0 == q);
                                if q == k {
                                    old_store.lemma_key_unique(w + 1, pos as int);
                                }
                            }
                        }
                        if old_store.spec_contains(q) && q != k {
                            let w = choose|w: int|
                                0 <= w < old_store.entries_seq().len() && (
                                #[trigger] old_store.entries_seq()[w]).0 == q;
                            assert(w != pos);
                            if w < pos {
                                assert(self.entries_seq()[w].0 == q);
                            } else {
                                assert(self.entries_seq()[w - 1].0 == q);
                            }
                        }
                    }
                    assert forall|q: Seq<u8>| self.spec_contains(q) implies self.as_map()[q]
                        == old_store.as_map().remove(k)[q] by {
                        let w = self.index_of(q);
                        self.lemma_entry_value(w);
                        if w < pos {
                            assert(old_store.entries_seq()[w].0 == q);
                            assert(old_store.entries_seq()[w].1 == self.entries_seq()[w].1);
                            old_store.lemma_entry_value(w);
                        } else {
                            assert(old_store.entries_seq()[w + 1].0 == q);
                            assert(old_store.entries_seq()[w + 1].1 == self.entries_seq()[w].1);
                            old_store.lemma_entry_value(w + 1);
                        }
                    }
                }
            }
            Some(e.1)
        } else {
            proof {
                assert(self.as_map() =~= old_store.as_map().remove(k));
            }
            None
        }
    }

    /// The page of entries that skipping `skip` of them and then taking at
    /// most `take` of them yields, in storage order.
    pub open spec fn page_spec(self, skip: int, take: int) -> Seq<(Seq<u8>, Lockup)> {
        page_slice(self.entries_seq(), skip, take)
    }

    /// Range iteration for pagination: skips `skip` entries, then returns up
    /// to `take` entries, in storage order.
    pub fn page(&self, skip: u64, take: u64) -> (r: Vec<(Vec<u8>, Lockup)>)
        ensures
            pairs_view(r@) == self.page_spec(skip as int, take as int),
    {
        let n = self.entries.len();
        let start: usize = if skip >= n as u64 {
            n
        } else {
            skip as usize
        };
        let remaining: usize = n - start;
        let count: usize = if take >= remaining as u64 {
            remaining
        } else {
            take as usize
        };
        let mut r: Vec<(Vec<u8>, Lockup)> = Vec::new();
        let mut i: usize = 0;
        proof {
            assert(pairs_view(r@) =~= self.entries_seq().subrange(
                start as int,
                start as int,
            ));
        }
        while i < count
            invariant
                i <= count,
                start + count <= n,
                n == self.entries_seq().len(),
                r@.len() == i,
                pairs_view(r@) == self.entries_seq().subrange(start as int, start + i),
            decreases count - i,
        {
            let e = &self.entries[start + i];
            let copy = (clone_bytes(&e.0), e.1);
            let ghost cv: (Seq<u8>, Lockup) = entry_view(copy);
            let ghost prev = r@;
            proof {
                assert(cv == self.entries_seq()[start + i]);
            }
            r.push(copy);
            proof {
                assert(r@.len() == i + 1);
                assert(entry_view(r@[i as int]) == cv);
                assert forall|j: int| 0 <= j < i implies pairs_view(r@)[j]
                    == self.entries_seq()[start + j] by {
                    assert(r@[j] == prev[j]);
                    assert(pairs_view(prev)[j] == self.entries_seq().subrange(
                        start as int,
                        start + i,
                    )[j]);
                }
                assert(pairs_view(r@) =~= self.entries_seq().subrange(
                    start as int,
                    start + i + 1,
                ));
            }
            i = i + 1;
        }
        proof {
            assert(pairs_view(r@) =~= self.page_spec(skip as int, take as int));
        }
        r
    }
}

} // verus!
