//! The in-memory directory index: node identity to the mapping from child
//! name to child identity.  A node present as a key is a directory (or archive
//! interior) whose listing is known.

use vstd::prelude::*;

use crate::assoc::{lemma_push_fresh, lemma_remove_at, lemma_val_at, rec_contains, rec_val,
    unique_keys};
use crate::paths::PathU8;

verus! {

/// One directory's listing: child name to child identity, names unique.
pub struct Children {
    items: Vec<(PathU8, PathU8)>,
}

impl Children {
    pub closed spec fn pairs(&self) -> Seq<(Seq<u8>, Seq<u8>)> {
        self.items@.map_values(|p: (PathU8, PathU8)| (p.0@, p.1@))
    }

    pub closed spec fn wf(&self) -> bool {
        unique_keys(self.pairs())
    }

    pub open spec fn has(&self, n: Seq<u8>) -> bool {
        rec_contains(self.pairs(), n)
    }

    pub open spec fn id_of(&self, n: Seq<u8>) -> Seq<u8> {
        rec_val(self.pairs(), n)
    }

    pub fn new() -> (r: Children)
        ensures
            r.wf(),
            r.pairs() == Seq::<(Seq<u8>, Seq<u8>)>::empty(),
            forall|n: Seq<u8>| !r.has(n),
    {
        let r = Children { items: Vec::new() };
        proof {
            assert(r.pairs() =~= Seq::<(Seq<u8>, Seq<u8>)>::empty());
        }
        r
    }

    fn find_idx(&self, name: &PathU8) -> (r: Option<usize>)
        ensures
            r is Some ==> 0 <= r->Some_0 < self.pairs().len() && self.pairs()[
                r->Some_0 as int
            ].0 == name@,
            r is None ==> !self.has(name@),
    {
        let mut i: usize = 0;
        while i < self.items.len()
            invariant
                i <= self.items@.len(),
                forall|j: int| 0 <= j < i ==> (#[trigger] self.pairs()[j]).0 != name@,
            decreases self.items.len() - i,
        {
            if crate::paths::eq_bytes(&self.items[i].0, name) {
                return Some(i);
            }
            i = i + 1;
        }
        None
    }

    pub fn contains(&self, name: &PathU8) -> (r: bool)
        ensures
            r == self.has(name@),
    {
        match self.find_idx(name) {
            Some(i) => {
                proof {
                    assert(rec_contains(self.pairs(), name@));
                }
                true
            },
            None => false,
        }
    }

    pub fn get(&self, name: &PathU8) -> (r: Option<PathU8>)
        requires
            self.wf(),
        ensures
            r is Some <==> self.has(name@),
            r is Some ==> r->Some_0@ == self.id_of(name@),
    {
        match self.find_idx(name) {
            Some(i) => {
                proof {
                    lemma_val_at(self.pairs(), i as int);
                }
                Some(self.items[i].1.clone())
            },
            None => None,
        }
    }

    /// Adds a fresh name.
    pub fn insert_new(&mut self, name: &PathU8, id: &PathU8)
        requires
            old(self).wf(),
            !old(self).has(name@),
        ensures
            final(self).wf(),
            final(self).has(name@),
            final(self).id_of(name@) == id@,
            forall|n2: Seq<u8>|
                #[trigger] final(self).has(n2) <==> old(self).has(n2) || n2 == name@,
            forall|n2: Seq<u8>|
                #[trigger] old(self).has(n2) ==> final(self).id_of(n2) == old(self).id_of(n2),
            final(self).pairs().len() == old(self).pairs().len() + 1,
    {
        let ghost pre = self.pairs();
        self.items.push((name.clone(), id.clone()));
        proof {
            assert(self.pairs() =~= pre.push((name@, id@)));
            lemma_push_fresh(pre, name@, id@);
            assert forall|n2: Seq<u8>| #[trigger] old(self).has(n2) implies final(self).id_of(n2)
                == old(self).id_of(n2) by {
                if n2 != name@ {
                } else {
                    assert(!old(self).has(name@));
                }
            }
        }
    }

    /// Removes a name; a miss changes nothing.
    pub fn remove(&mut self, name: &PathU8)
        requires
            old(self).wf(),
        ensures
            final(self).wf(),
            forall|n2: Seq<u8>|
                #[trigger] final(self).has(n2) <==> old(self).has(n2) && n2 != name@,
            forall|n2: Seq<u8>|
                #[trigger] final(self).has(n2) ==> final(self).id_of(n2) == old(self).id_of(n2),
    {
        let ghost pre = self.pairs();
        match self.find_idx(name) {
            Some(i) => {
                proof {
                    lemma_val_at(pre, i as int);
                    lemma_remove_at(pre, i as int);
                }
                self.items.remove(i);
                proof {
                    assert(self.pairs() =~= pre.remove(i as int));
                }
            },
            None => {},
        }
    }

    /// The child names, one occurrence each.
    pub fn names(&self) -> (r: Vec<PathU8>)
        ensures
            r@.len() == self.pairs().len(),
            forall|i: int| 0 <= i < r@.len() ==> (#[trigger] r@[i])@ == self.pairs()[i].0,
    {
        let mut r: Vec<PathU8> = Vec::new();
        let mut i: usize = 0;
        while i < self.items.len()
            invariant
                i <= self.items@.len(),
                r@.len() == i,
                forall|j: int| 0 <= j < i ==> (#[trigger] r@[j])@ == self.pairs()[j].0,
            decreases self.items.len() - i,
        {
            r.push(self.items[i].0.clone());
            i = i + 1;
        }
        r
    }

    pub fn len(&self) -> (r: usize)
        ensures
            r == self.pairs().len(),
    {
        self.items.len()
    }
}

/// The directory tree: node identity to its listing.
pub struct DirTree {
    nodes: Vec<(PathU8, Children)>,
}

impl DirTree {
    pub closed spec fn pairs(&self) -> Seq<(Seq<u8>, Children)> {
        self.nodes@.map_values(|p: (PathU8, Children)| (p.0@, p.1))
    }

    pub closed spec fn wf(&self) -> bool {
        &&& unique_keys(self.pairs())
        &&& forall|i: int| 0 <= i < self.pairs().len() ==> (#[trigger] self.pairs()[i]).1.wf()
    }

    pub open spec fn has(&self, id: Seq<u8>) -> bool {
        rec_contains(self.pairs(), id)
    }

    pub open spec fn kids(&self, id: Seq<u8>) -> Children {
        rec_val(self.pairs(), id)
    }

    pub fn new() -> (r: DirTree)
        ensures
            r.wf(),
            forall|id: Seq<u8>| !r.has(id),
    {
        let r = DirTree { nodes: Vec::new() };
        proof {
            assert(r.pairs() =~= Seq::<(Seq<u8>, Children)>::empty());
        }
        r
    }

    fn find_idx(&self, id: &PathU8) -> (r: Option<usize>)
        ensures
            r is Some ==> 0 <= r->Some_0 < self.pairs().len() && self.pairs()[
                r->Some_0 as int
            ].0 == id@,
            r is None ==> !self.has(id@),
    {
        let mut i: usize = 0;
        while i < self.nodes.len()
            invariant
                i <= self.nodes@.len(),
                forall|j: int| 0 <= j < i ==> (#[trigger] self.pairs()[j]).0 != id@,
            decreases self.nodes.len() - i,
        {
            if crate::paths::eq_bytes(&self.nodes[i].0, id) {
                return Some(i);
            }
            i = i + 1;
        }
        None
    }

    pub fn contains_key(&self, id: &PathU8) -> (r: bool)
        ensures
            r == self.has(id@),
    {
        match self.find_idx(id) {
            Some(i) => {
                proof {
                    assert(rec_contains(self.pairs(), id@));
                }
                true
            },
            None => false,
        }
    }

    /// The child names of a node, when its listing is known.
    pub fn child_names(&self, id: &PathU8) -> (r: Option<Vec<PathU8>>)
        requires
            self.wf(),
        ensures
            r is Some <==> self.has(id@),
            r is Some ==> {
                let ns = r->Some_0;
                &&& ns@.len() == self.kids(id@).pairs().len()
                &&& forall|i: int|
                    0 <= i < ns@.len() ==> (#[trigger] ns@[i])@ == self.kids(id@).pairs()[i].0
            },
    {
        match self.find_idx(id) {
            Some(i) => {
                proof {
                    lemma_val_at(self.pairs(), i as int);
                }
                Some(self.nodes[i].1.names())
            },
            None => None,
        }
    }

    /// The identity a child name maps to under a node.
    pub fn child_id(&self, id: &PathU8, name: &PathU8) -> (r: Option<PathU8>)
        requires
            self.wf(),
        ensures
            r is Some <==> self.has(id@) && self.kids(id@).has(name@),
            r is Some ==> r->Some_0@ == self.kids(id@).id_of(name@),
    {
        match self.find_idx(id) {
            Some(i) => {
                proof {
                    lemma_val_at(self.pairs(), i as int);
                }
                self.nodes[i].1.get(name)
            },
            None => None,
        }
    }

    /// Ensures a node has a (possibly empty) listing.
    pub fn ensure_node(&mut self, id: &PathU8)
        requires
            old(self).wf(),
        ensures
            final(self).wf(),
            final(self).has(id@),
            forall|id2: Seq<u8>| #[trigger] final(self).has(id2) <==> old(self).has(id2) || id2 == id@,
            forall|id2: Seq<u8>|
                #[trigger] old(self).has(id2) ==> final(self).kids(id2) == old(self).kids(id2),
            !old(self).has(id@) ==> forall|n: Seq<u8>| !final(self).kids(id@).has(n),
    {
        let ghost pre = self.pairs();
        match self.find_idx(id) {
            Some(_) => {
                proof {
                    assert(rec_contains(pre, id@));
                }
            },
            None => {
                let fresh = Children::new();
                let ghost freshg = fresh;
                self.nodes.push((id.clone(), fresh));
                proof {
                    assert(self.pairs() =~= pre.push((id@, freshg)));
                    lemma_push_fresh(pre, id@, freshg);
                }
            },
        }
    }

    /// Makes `name` a child of `parent` bound to `child`, creating the parent
    /// listing on demand; an existing binding of `name` is kept.
    pub fn add_child(&mut self, parent: &PathU8, name: &PathU8, child: &PathU8)
        requires
            old(self).wf(),
        ensures
            final(self).wf(),
            final(self).has(parent@),
            forall|id2: Seq<u8>|
                #[trigger] final(self).has(id2) <==> old(self).has(id2) || id2 == parent@,
            forall|id2: Seq<u8>|
                id2 != parent@ && #[trigger] old(self).has(id2) ==> final(self).kids(id2) == old(
                    self,
                ).kids(id2),
            forall|n2: Seq<u8>|
                #[trigger] final(self).kids(parent@).has(n2) <==> (old(self).has(parent@) && old(
                    self,
                ).kids(parent@).has(n2)) || n2 == name@,
            final(self).kids(parent@).has(name@),
            old(self).has(parent@) && old(self).kids(parent@).has(name@) ==> final(self).kids(
                parent@,
            ).id_of(name@) == old(self).kids(parent@).id_of(name@),
            !(old(self).has(parent@) && old(self).kids(parent@).has(name@)) ==> final(self).kids(
                parent@,
            ).id_of(name@) == child@,
            forall|n2: Seq<u8>|
                n2 != name@ && old(self).has(parent@) && #[trigger] old(self).kids(parent@).has(n2)
                    ==> final(self).kids(parent@).id_of(n2) == old(self).kids(parent@).id_of(n2),
    {
        let ghost pre = self.pairs();
        match self.find_idx(parent) {
            Some(i) => {
                proof {
                    lemma_val_at(pre, i as int);
                    lemma_remove_at(pre, i as int);
                }
                let mut entry = self.nodes.remove(i);
                let ghost mid = self.pairs();
                proof {
                    assert(mid =~= pre.remove(i as int));
                }
                if !entry.1.contains(name) {
                    entry.1.insert_new(name, child);
                }
                let ghost ch = entry.1;
                self.nodes.push(entry);
                proof {
                    assert(self.pairs() =~= mid.push((pre[i as int].0, ch)));
                    lemma_push_fresh(mid, pre[i as int].0, ch);
                }
            },
            None => {
                let mut fresh = Children::new();
                fresh.insert_new(name, child);
                let ghost ch = fresh;
                self.nodes.push((parent.clone(), fresh));
                proof {
                    assert(self.pairs() =~= pre.push((parent@, ch)));
                    lemma_push_fresh(pre, parent@, ch);
                }
            },
        }
    }

    /// Removes a node's listing; a miss changes nothing.
    pub fn remove_key(&mut self, id: &PathU8)
        requires
            old(self).wf(),
        ensures
            final(self).wf(),
            forall|id2: Seq<u8>|
                #[trigger] final(self).has(id2) <==> old(self).has(id2) && id2 != id@,
            forall|id2: Seq<u8>|
                #[trigger] final(self).has(id2) ==> final(self).kids(id2) == old(self).kids(id2),
    {
        let ghost pre = self.pairs();
        match self.find_idx(id) {
            Some(i) => {
                proof {
                    lemma_val_at(pre, i as int);
                    lemma_remove_at(pre, i as int);
                }
                self.nodes.remove(i);
                proof {
                    assert(self.pairs() =~= pre.remove(i as int));
                }
            },
            None => {},
        }
    }

    /// Removes one child binding under a node; a miss changes nothing.
    pub fn remove_child(&mut self, parent: &PathU8, name: &PathU8)
        requires
            old(self).wf(),
        ensures
            final(self).wf(),
            forall|id2: Seq<u8>| #[trigger] final(self).has(id2) <==> old(self).has(id2),
            forall|id2: Seq<u8>|
                id2 != parent@ && #[trigger] old(self).has(id2) ==> final(self).kids(id2) == old(
                    self,
                ).kids(id2),
            old(self).has(parent@) ==> forall|n2: Seq<u8>|
                #[trigger] final(self).kids(parent@).has(n2) <==> old(self).kids(parent@).has(n2)
                    && n2 != name@,
            old(self).has(parent@) ==> forall|n2: Seq<u8>|
                #[trigger] final(self).kids(parent@).has(n2) ==> final(self).kids(parent@).id_of(n2)
                    == old(self).kids(parent@).id_of(n2),
    {
        let ghost pre = self.pairs();
        match self.find_idx(parent) {
            Some(i) => {
                proof {
                    lemma_val_at(pre, i as int);
                    lemma_remove_at(pre, i as int);
                }
                let mut entry = self.nodes.remove(i);
                let ghost mid = self.pairs();
                proof {
                    assert(mid =~= pre.remove(i as int));
                }
                entry.1.remove(name);
                let ghost ch = entry.1;
                self.nodes.push(entry);
                proof {
                    assert(self.pairs() =~= mid.push((pre[i as int].0, ch)));
                    lemma_push_fresh(mid, pre[i as int].0, ch);
                }
            },
            None => {},
        }
    }

    /// All node identities with a known listing.
    pub fn keys(&self) -> (r: Vec<PathU8>)
        ensures
            forall|i: int| 0 <= i < r@.len() ==> self.has((#[trigger] r@[i])@),
            forall|id: Seq<u8>|
                #[trigger] self.has(id) ==> exists|i: int|
                    0 <= i < r@.len() && (#[trigger] r@[i])@ == id,
    {
        let mut r: Vec<PathU8> = Vec::new();
        let mut i: usize = 0;
        while i < self.nodes.len()
            invariant
                i <= self.nodes@.len(),
                r@.len() == i,
                forall|j: int| 0 <= j < i ==> (#[trigger] r@[j])@ == self.pairs()[j].0,
            decreases self.nodes.len() - i,
        {
            r.push(self.nodes[i].0.clone());
            i = i + 1;
        }
        proof {
            assert forall|j: int| 0 <= j < r@.len() implies self.has((#[trigger] r@[j])@) by {
                assert(self.pairs()[j].0 == r@[j]@);
            }
            assert forall|id: Seq<u8>| #[trigger] self.has(id) implies exists|j: int|
                0 <= j < r@.len() && (#[trigger] r@[j])@ == id by {
                let j = choose|j: int| 0 <= j < self.pairs().len() && (#[trigger] self.pairs()[j]).0
                    == id;
                assert(r@[j]@ == id);
            }
        }
        r
    }

    pub fn len(&self) -> (r: usize)
        ensures
            r == self.pairs().len(),
    {
        self.nodes.len()
    }

    /// The name/identity pairs of a node's children, when its listing is known.
    pub fn child_pairs(&self, id: &PathU8) -> (r: Option<Vec<(PathU8, PathU8)>>)
        requires
            self.wf(),
        ensures
            r is Some <==> self.has(id@),
    {
        match self.find_idx(id) {
            Some(i) => {
                proof {
                    assert((#[trigger] self.pairs()[i as int]).1.wf());
                }
                let kids = &self.nodes[i].1;
                proof {
                    assert(kids.wf());
                }
                let mut out: Vec<(PathU8, PathU8)> = Vec::new();
                let names = kids.names();
                let mut j: usize = 0;
                while j < names.len()
                    invariant
                        j <= names@.len(),
                        kids.wf(),
                    decreases names.len() - j,
                {
                    match kids.get(&names[j]) {
                        Some(cid) => {
                            out.push((names[j].clone(), cid));
                        },
                        None => {},
                    }
                    j = j + 1;
                }
                Some(out)
            },
            None => None,
        }
    }
}

} // verus!
