//! The count-bounded cache of open archive readers, keyed by the mount
//! point's node identity.  Each handle carries the reader, the entry index
//! (canonical lookup key to raw entry name) and whether the archive was
//! nested inside another.  When the handle count would exceed the budget, the
//! least recently used handle is dropped; its directory listings stay in the
//! directory index.

use vstd::prelude::*;

use crate::assoc::{lemma_drop_first, lemma_push_fresh, lemma_remove_at, lemma_val_at,
    rec_contains, rec_val, unique_keys};
use crate::paths::PathU8;
use crate::ziparc::{read_entry, reader_src, zip_entry_data, ArchiveReader};

verus! {

/// An open archive: its reader, its entry index, and whether it came from
/// bytes nested inside another archive.
pub struct ArchiveHandle {
    pub reader: ArchiveReader,
    pub entries: Vec<(PathU8, PathU8)>,
    pub is_nested: bool,
}

pub open spec fn vec_pairs(es: Seq<(PathU8, PathU8)>) -> Seq<(Seq<u8>, Seq<u8>)> {
    es.map_values(|p: (PathU8, PathU8)| (p.0@, p.1@))
}

pub open spec fn entry_pairs(h: ArchiveHandle) -> Seq<(Seq<u8>, Seq<u8>)> {
    vec_pairs(h.entries@)
}

/// Whether an entry index already binds the canonical lookup key.
pub fn entries_contain(es: &Vec<(PathU8, PathU8)>, c: &PathU8) -> (r: bool)
    ensures
        r == rec_contains(vec_pairs(es@), c@),
{
    let mut i: usize = 0;
    while i < es.len()
        invariant
            i <= es@.len(),
            forall|j: int| 0 <= j < i ==> (#[trigger] vec_pairs(es@)[j]).0 != c@,
        decreases es.len() - i,
    {
        if crate::paths::eq_bytes(&es[i].0, c) {
            proof {
                assert((#[trigger] vec_pairs(es@)[i as int]).0 == c@);
            }
            return true;
        }
        i = i + 1;
    }
    false
}

pub open spec fn handle_wf(h: ArchiveHandle) -> bool {
    unique_keys(entry_pairs(h))
}

/// The handle cache, least recently used first.
pub struct HandleLru {
    items: Vec<(PathU8, ArchiveHandle)>,
    limit: usize,
}

impl HandleLru {
    pub closed spec fn pairs(&self) -> Seq<(Seq<u8>, ArchiveHandle)> {
        self.items@.map_values(|p: (PathU8, ArchiveHandle)| (p.0@, p.1))
    }

    pub closed spec fn spec_limit(&self) -> int {
        self.limit as int
    }

    pub closed spec fn wf(&self) -> bool {
        &&& unique_keys(self.pairs())
        &&& forall|i: int| 0 <= i < self.pairs().len() ==> handle_wf((#[trigger] self.pairs()[i]).1)
    }

    pub open spec fn has(&self, k: Seq<u8>) -> bool {
        rec_contains(self.pairs(), k)
    }

    pub open spec fn hval(&self, k: Seq<u8>) -> ArchiveHandle {
        rec_val(self.pairs(), k)
    }

    /// The bytes the handle's reader was opened from.
    pub open spec fn src_of(&self, k: Seq<u8>) -> Seq<u8> {
        reader_src(&self.hval(k).reader)
    }

    /// The entry index: canonical lookup key to raw entry name.
    pub open spec fn entries_of(&self, k: Seq<u8>) -> Seq<(Seq<u8>, Seq<u8>)> {
        entry_pairs(self.hval(k))
    }

    pub open spec fn nested_of(&self, k: Seq<u8>) -> bool {
        self.hval(k).is_nested
    }

    /// Everything of a handle that lookups depend on: source, index, origin.
    pub open spec fn same_handle(&self, other: &HandleLru, k: Seq<u8>) -> bool {
        &&& self.src_of(k) == other.src_of(k)
        &&& self.entries_of(k) == other.entries_of(k)
        &&& self.nested_of(k) == other.nested_of(k)
    }

    pub fn new(limit: usize) -> (r: HandleLru)
        ensures
            r.wf(),
            r.spec_limit() == limit,
            forall|k: Seq<u8>| !r.has(k),
    {
        let r = HandleLru { items: Vec::new(), limit };
        proof {
            assert(r.pairs() =~= Seq::<(Seq<u8>, ArchiveHandle)>::empty());
        }
        r
    }

    pub fn contains(&self, k: &PathU8) -> (r: bool)
        ensures
            r == self.has(k@),
    {
        let mut i: usize = 0;
        while i < self.items.len()
            invariant
                i <= self.items@.len(),
                forall|j: int| 0 <= j < i ==> (#[trigger] self.pairs()[j]).0 != k@,
            decreases self.items.len() - i,
        {
            if crate::paths::eq_bytes(&self.items[i].0, k) {
                proof {
                    assert((#[trigger] self.pairs()[i as int]).0 == k@);
                }
                return true;
            }
            i = i + 1;
        }
        false
    }

    fn find_idx(&self, k: &PathU8) -> (r: Option<usize>)
        ensures
            r is Some ==> 0 <= r->Some_0 < self.pairs().len() && self.pairs()[
                r->Some_0 as int
            ].0 == k@,
            r is None ==> !self.has(k@),
    {
        let mut i: usize = 0;
        while i < self.items.len()
            invariant
                i <= self.items@.len(),
                forall|j: int| 0 <= j < i ==> (#[trigger] self.pairs()[j]).0 != k@,
            decreases self.items.len() - i,
        {
            if crate::paths::eq_bytes(&self.items[i].0, k) {
                return Some(i);
            }
            i = i + 1;
        }
        None
    }

    /// Registers a fresh handle as the most recently used, dropping handles
    /// from the least recently used end while the count budget is exceeded.
    /// The handle being registered itself always stays.
    pub fn put(&mut self, k: &PathU8, h: ArchiveHandle)
        requires
            old(self).wf(),
            !old(self).has(k@),
            handle_wf(h),
        ensures
            final(self).wf(),
            final(self).spec_limit() == old(self).spec_limit(),
            final(self).has(k@),
            final(self).hval(k@) == h,
            forall|k2: Seq<u8>|
                #[trigger] final(self).has(k2) && k2 != k@ ==> old(self).has(k2) && final(self).hval(k2) == old(self).hval(k2),
            final(self).pairs().len() <= old(self).spec_limit() || final(self).pairs().len() == 1,
            exists|e: int|
                0 <= e <= old(self).pairs().len() && final(self).pairs() == old(self).pairs().skip(
                    e,
                ).push((k@, h)),
    {
        let ghost mut evicted: int = 0;
        while self.items.len() >= self.limit && self.items.len() > 0
            invariant
                unique_keys(self.pairs()),
                forall|i: int|
                    0 <= i < self.pairs().len() ==> handle_wf((#[trigger] self.pairs()[i]).1),
                !rec_contains(self.pairs(), k@),
                self.limit == old(self).spec_limit(),
                0 <= evicted <= old(self).pairs().len(),
                self.pairs() == old(self).pairs().skip(evicted),
                forall|k2: Seq<u8>|
                    #[trigger] rec_contains(self.pairs(), k2) ==> old(self).has(k2) && rec_val(
                        self.pairs(),
                        k2,
                    ) == old(self).hval(k2),
            decreases self.items.len(),
        {
            let ghost pre = self.pairs();
            self.items.remove(0);
            proof {
                assert(self.pairs() =~= pre.drop_first());
                assert(old(self).pairs().skip(evicted).drop_first() =~= old(self).pairs().skip(
                    evicted + 1,
                ));
                evicted = evicted + 1;
                lemma_drop_first(pre);
            }
        }
        let ghost pre = self.pairs();
        let ghost hg = h;
        self.items.push((k.clone(), h));
        proof {
            assert(self.pairs() =~= pre.push((k@, hg)));
            lemma_push_fresh(pre, k@, hg);
        }
    }

    /// Looks the canonical entry key up in the handle's entry index, returning
    /// the raw entry name and making the handle the most recently used.
    pub fn entry_raw(&mut self, k: &PathU8, canon: &PathU8) -> (r: Option<PathU8>)
        requires
            old(self).wf(),
        ensures
            final(self).wf(),
            final(self).spec_limit() == old(self).spec_limit(),
            forall|k2: Seq<u8>| #[trigger] final(self).has(k2) <==> old(self).has(k2),
            forall|k2: Seq<u8>|
                #[trigger] final(self).has(k2) ==> final(self).same_handle(old(self), k2),
            r is Some <==> old(self).has(k@) && rec_contains(old(self).entries_of(k@), canon@),
            r is Some ==> r->Some_0@ == rec_val(old(self).entries_of(k@), canon@),
    {
        match self.find_idx(k) {
            None => None,
            Some(i) => {
                let ghost pre = self.pairs();
                proof {
                    lemma_val_at(pre, i as int);
                    lemma_remove_at(pre, i as int);
                }
                let entry = self.items.remove(i);
                let ghost mid = self.pairs();
                proof {
                    assert(mid =~= pre.remove(i as int));
                }
                let mut r: Option<PathU8> = None;
                let mut j: usize = 0;
                while j < entry.1.entries.len()
                    invariant
                        j <= entry.1.entries@.len(),
                        handle_wf(entry.1),
                        r is None ==> forall|t: int|
                            0 <= t < j ==> (#[trigger] entry_pairs(entry.1)[t]).0 != canon@,
                        r is Some ==> rec_contains(entry_pairs(entry.1), canon@) && r->Some_0@
                            == rec_val(entry_pairs(entry.1), canon@),
                    decreases entry.1.entries.len() - j,
                {
                    if r.is_none() && crate::paths::eq_bytes(&entry.1.entries[j].0, canon) {
                        proof {
                            lemma_val_at(entry_pairs(entry.1), j as int);
                        }
                        r = Some(entry.1.entries[j].1.clone());
                    }
                    j = j + 1;
                }
                proof {
                    if r is None {
                        assert(!rec_contains(entry_pairs(entry.1), canon@));
                    }
                }
                let ghost hg = entry.1;
                let ghost kg = entry.0@;
                self.items.push(entry);
                proof {
                    assert(self.pairs() =~= mid.push((kg, hg)));
                    lemma_push_fresh(mid, kg, hg);
                    assert forall|k2: Seq<u8>| #[trigger]
                        final(self).has(k2) implies old(self).has(k2) && final(self).same_handle(old(self), k2) by {
                        if k2 == kg {
                            assert(final(self).hval(k2) == pre[i as int].1);
                        } else {
                            assert(rec_contains(mid, k2));
                        }
                    }
                    assert forall|k2: Seq<u8>| #[trigger] old(self).has(k2) implies final(self).has(k2) by {
                        if k2 != kg {
                            assert(rec_contains(mid, k2));
                        }
                    }
                }
                r
            },
        }
    }

    /// Reads a raw entry name through the handle's reader, making the handle
    /// the most recently used.  What the entries decode to is a function of
    /// the bytes the reader was opened from.
    pub fn read_from(&mut self, k: &PathU8, raw: &PathU8) -> (r: Option<Vec<u8>>)
        requires
            old(self).wf(),
        ensures
            final(self).wf(),
            final(self).spec_limit() == old(self).spec_limit(),
            forall|k2: Seq<u8>| #[trigger] final(self).has(k2) <==> old(self).has(k2),
            forall|k2: Seq<u8>|
                #[trigger] final(self).has(k2) ==> final(self).same_handle(old(self), k2),
            r is Some ==> old(self).has(k@) && zip_entry_data(old(self).src_of(k@), raw@) is Some
                && r->Some_0@ == zip_entry_data(old(self).src_of(k@), raw@)->Some_0,
            old(self).has(k@) && zip_entry_data(old(self).src_of(k@), raw@) is Some ==> r is Some,
    {
        match self.find_idx(k) {
            None => None,
            Some(i) => {
                let ghost pre = self.pairs();
                proof {
                    lemma_val_at(pre, i as int);
                    lemma_remove_at(pre, i as int);
                }
                let mut entry = self.items.remove(i);
                let ghost mid = self.pairs();
                proof {
                    assert(mid =~= pre.remove(i as int));
                }
                let r = read_entry(&mut entry.1.reader, raw);
                let ghost hg = entry.1;
                let ghost kg = entry.0@;
                self.items.push(entry);
                proof {
                    assert(self.pairs() =~= mid.push((kg, hg)));
                    lemma_push_fresh(mid, kg, hg);
                    assert forall|k2: Seq<u8>| #[trigger]
                        final(self).has(k2) implies old(self).has(k2) && final(self).same_handle(old(self), k2) by {
                        if k2 == kg {
                        } else {
                            assert(rec_contains(mid, k2));
                        }
                    }
                    assert forall|k2: Seq<u8>| #[trigger] old(self).has(k2) implies final(self).has(k2) by {
                        if k2 != kg {
                            assert(rec_contains(mid, k2));
                        }
                    }
                }
                r
            },
        }
    }

    /// Drops the handle under a key; a miss changes nothing.
    pub fn pop(&mut self, k: &PathU8)
        requires
            old(self).wf(),
        ensures
            final(self).wf(),
            final(self).spec_limit() == old(self).spec_limit(),
            forall|k2: Seq<u8>|
                #[trigger] final(self).has(k2) <==> old(self).has(k2) && k2 != k@,
            forall|k2: Seq<u8>|
                #[trigger] final(self).has(k2) ==> final(self).hval(k2) == old(self).hval(k2),
    {
        let ghost pre = self.pairs();
        match self.find_idx(k) {
            Some(i) => {
                proof {
                    lemma_val_at(pre, i as int);
                    lemma_remove_at(pre, i as int);
                }
                self.items.remove(i);
                proof {
                    assert(self.pairs() =~= pre.remove(i as int));
                }
            },
            None => {},
        }
    }

    /// All keys currently holding a handle.
    pub fn keys(&self) -> (r: Vec<PathU8>)
        ensures
            forall|i: int| 0 <= i < r@.len() ==> self.has((#[trigger] r@[i])@),
            forall|k: Seq<u8>|
                #[trigger] self.has(k) ==> exists|i: int|
                    0 <= i < r@.len() && (#[trigger] r@[i])@ == k,
    {
        let mut r: Vec<PathU8> = Vec::new();
        let mut i: usize = 0;
        while i < self.items.len()
            invariant
                i <= self.items@.len(),
                r@.len() == i,
                forall|j: int| 0 <= j < i ==> (#[trigger] r@[j])@ == self.pairs()[j].0,
            decreases self.items.len() - i,
        {
            r.push(self.items[i].0.clone());
            i = i + 1;
        }
        proof {
            assert forall|j: int| 0 <= j < r@.len() implies self.has((#[trigger] r@[j])@) by {
                assert(self.pairs()[j].0 == r@[j]@);
            }
            assert forall|k: Seq<u8>| #[trigger] self.has(k) implies exists|j: int|
                0 <= j < r@.len() && (#[trigger] r@[j])@ == k by {
                let j = choose|j: int| 0 <= j < self.pairs().len() && (#[trigger] self.pairs()[j]).0
                    == k;
                assert(r@[j]@ == k);
            }
        }
        r
    }

    pub fn len(&self) -> (r: usize)
        ensures
            r == self.pairs().len(),
    {
        self.items.len()
    }
}

} // verus!
