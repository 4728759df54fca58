//! The archive-aware cache: a directory index, a byte cache and a handle
//! cache composed behind one type, with the quick (cache hit) and slow
//! (archive descent) lookup paths, mounting, and prefix invalidation.
//!
//! Every key is a canonical path identity ([`crate::paths::canon_of`]).  The
//! virtual root is a sentinel node whose children are the archive mount
//! points, so longest-prefix matching over mounts is a flat lookup.
//!
//! Invariants kept between all public calls: a node identity is a directory
//! key or a byte-cache key, never both; a handle's key always has a directory
//! listing; the virtual root's listing always exists and is never removed.

use vstd::prelude::*;

use crate::bytecache::SizedLru;
use crate::dirtree::{Children, DirTree};
use crate::errors::CacheError;
use crate::handles::{ArchiveHandle, HandleLru};
use crate::ziparc::zip_entries;
use crate::paths::{canon_of, is_prefix_of, join_may_empty, path_to_id, PathU8};

verus! {

/// The sentinel path of the virtual root, parent of all mount points.  It is
/// already in canonical form, and no relative request path is ever equal to
/// it in practice; mounting at it is rejected.
pub open spec fn vroot_id() -> Seq<u8> {
    seq![
        42u8,
        92u8,
        47u8,
        118u8,
        105u8,
        114u8,
        116u8,
        117u8,
        97u8,
        108u8,
        95u8,
        114u8,
        111u8,
        111u8,
        116u8,
        92u8,
        47u8,
        42u8,
    ]
}

/// The sentinel path of the virtual root as a value.
pub fn virtual_root_path() -> (r: PathU8)
    ensures
        r@ == vroot_id(),
{
    let r: Vec<u8> = vec![
        42u8,
        92u8,
        47u8,
        118u8,
        105u8,
        114u8,
        116u8,
        117u8,
        97u8,
        108u8,
        95u8,
        114u8,
        111u8,
        111u8,
        116u8,
        92u8,
        47u8,
        42u8,
    ];
    proof {
        assert(r@ =~= vroot_id());
    }
    r
}

/// What a node holds: the bytes of a leaf, or the child names of a directory.
#[derive(Debug)]
pub enum NodeContents {
    File(Vec<u8>),
    Dir(Vec<PathU8>),
}

/// Whether a listing's names are exactly a children mapping's names, in index
/// order: same count, and with unique names the same set.
pub open spec fn names_match(ns: Seq<PathU8>, ch: Children) -> bool {
    &&& ns.len() == ch.pairs().len()
    &&& forall|i: int| 0 <= i < ns.len() ==> (#[trigger] ns[i])@ == ch.pairs()[i].0
}

/// The identity a relative component sequence denotes under a mount.
pub open spec fn target_of(vp: Seq<u8>, cs: Seq<Seq<u8>>) -> Seq<u8> {
    crate::paths::spec_join_may_empty(vp, crate::paths::join_comps(cs))
}

/// A descent that is owed success: the whole relative path is an entry of the
/// mounted archive's index, its name has an extension that is not an archive
/// extension (so no sniffing is consulted), and the entry decodes.
pub open spec fn direct_hit(c: &ArchiveCache, vp: Seq<u8>, relc: Seq<u8>) -> bool {
    &&& crate::assoc::rec_contains(c.handle_entries(vp), relc)
    &&& crate::sniff::name_ext(relc) is Some
    &&& !crate::sniff::spec_is_archive_ext(crate::sniff::name_ext(relc)->Some_0)
    &&& crate::ziparc::zip_entry_data(
        c.handle_src(vp),
        crate::assoc::rec_val(c.handle_entries(vp), relc),
    ) is Some
}

/// A descent owed a nested mount: the whole relative path is an indexed entry
/// whose name has an archive extension, the entry decodes, and its bytes parse
/// as an archive.
pub open spec fn mount_hit(c: &ArchiveCache, vp: Seq<u8>, relc: Seq<u8>) -> bool {
    let data = crate::ziparc::zip_entry_data(
        c.handle_src(vp),
        crate::assoc::rec_val(c.handle_entries(vp), relc),
    );
    &&& crate::assoc::rec_contains(c.handle_entries(vp), relc)
    &&& crate::sniff::name_ext(relc) is Some
    &&& crate::sniff::spec_is_archive_ext(crate::sniff::name_ext(relc)->Some_0)
    &&& data is Some
    &&& crate::ziparc::zip_entries(data->Some_0) is Some
}

/// Every split longer than `k` leads nowhere under the mount: none is an
/// indexed entry, and none of the proper ones is a directory node — so the
/// descent, which tries longest splits first, reaches split `k` undecided.
pub open spec fn split_reached(c: &ArchiveCache, vp: Seq<u8>, cs: Seq<Seq<u8>>, k: int) -> bool {
    &&& 1 <= k < cs.len()
    &&& forall|k2: int|
        k < k2 <= cs.len() ==> !crate::assoc::rec_contains(
            c.handle_entries(vp),
            crate::paths::join_comps(#[trigger] cs.take(k2)),
        )
    &&& forall|k2: int| k < k2 < cs.len() ==> !c.is_dir(target_of(vp, #[trigger] cs.take(k2)))
}

/// The descent must abort with a conflict: the deciding split is a known
/// directory node, which cannot double as a nested archive.
pub open spec fn conflict_owed(c: &ArchiveCache, vp: Seq<u8>, cs: Seq<Seq<u8>>, k: int) -> bool {
    &&& split_reached(c, vp, cs, k)
    &&& c.is_dir(target_of(vp, cs.take(k)))
}

/// The descent must fail: the deciding split is an indexed non-archive leaf
/// (by extension) that decodes, but components are left below it.
pub open spec fn leaf_suffix_owed(c: &ArchiveCache, vp: Seq<u8>, cs: Seq<Seq<u8>>, k: int) -> bool {
    let relk = crate::paths::join_comps(cs.take(k));
    let data = crate::ziparc::zip_entry_data(
        c.handle_src(vp),
        crate::assoc::rec_val(c.handle_entries(vp), relk),
    );
    &&& split_reached(c, vp, cs, k)
    &&& !c.is_dir(target_of(vp, cs.take(k)))
    &&& crate::assoc::rec_contains(c.handle_entries(vp), relk)
    &&& crate::sniff::name_ext(relk) is Some
    &&& !crate::sniff::spec_is_archive_ext(crate::sniff::name_ext(relk)->Some_0)
    &&& data is Some
}

/// The descent must fail: the deciding split is an indexed archive-extension
/// entry that decodes but whose bytes do not parse as an archive.
pub open spec fn bad_nested_owed(c: &ArchiveCache, vp: Seq<u8>, cs: Seq<Seq<u8>>, k: int) -> bool {
    let relk = crate::paths::join_comps(cs.take(k));
    let data = crate::ziparc::zip_entry_data(
        c.handle_src(vp),
        crate::assoc::rec_val(c.handle_entries(vp), relk),
    );
    &&& split_reached(c, vp, cs, k)
    &&& !c.is_dir(target_of(vp, cs.take(k)))
    &&& crate::assoc::rec_contains(c.handle_entries(vp), relk)
    &&& crate::sniff::name_ext(relk) is Some
    &&& crate::sniff::spec_is_archive_ext(crate::sniff::name_ext(relk)->Some_0)
    &&& data is Some
    &&& crate::ziparc::zip_entries(data->Some_0) is None
}

/// No split of the relative components leads anywhere under the mount: no
/// split is an indexed entry, and no proper split is a known directory (which
/// would be a nested-archive conflict instead).
pub open spec fn no_split_matches(c: &ArchiveCache, vp: Seq<u8>, cs: Seq<Seq<u8>>) -> bool {
    &&& forall|k: int|
        0 <= k <= cs.len() ==> !crate::assoc::rec_contains(
            c.handle_entries(vp),
            crate::paths::join_comps(#[trigger] cs.take(k)),
        )
    &&& forall|k: int| 1 <= k < cs.len() ==> !c.is_dir(target_of(vp, #[trigger] cs.take(k)))
}

/// The bytes such a descent is owed.
pub open spec fn direct_data(c: &ArchiveCache, vp: Seq<u8>, relc: Seq<u8>) -> Seq<u8> {
    crate::ziparc::zip_entry_data(
        c.handle_src(vp),
        crate::assoc::rec_val(c.handle_entries(vp), relc),
    )->Some_0
}

/// The archive-aware virtual filesystem cache.
pub struct ArchiveCache {
    file_cache: SizedLru,
    dir_tree: DirTree,
    archive_cache: HandleLru,
}

impl ArchiveCache {
    /// The identity is a directory (or archive interior) with a known listing.
    pub closed spec fn is_dir(&self, id: Seq<u8>) -> bool {
        self.dir_tree.has(id)
    }

    pub closed spec fn dir_kids(&self, id: Seq<u8>) -> Children {
        self.dir_tree.kids(id)
    }

    /// The identity holds cached leaf bytes.
    pub closed spec fn is_file(&self, id: Seq<u8>) -> bool {
        self.file_cache.has(id)
    }

    pub closed spec fn file_val(&self, id: Seq<u8>) -> Seq<u8> {
        self.file_cache.val(id)
    }

    pub closed spec fn has_handle(&self, k: Seq<u8>) -> bool {
        self.archive_cache.has(k)
    }

    /// The bytes the handle's reader was opened from.
    pub closed spec fn handle_src(&self, k: Seq<u8>) -> Seq<u8> {
        self.archive_cache.src_of(k)
    }

    /// The handle's entry index: canonical lookup key to raw entry name.
    pub closed spec fn handle_entries(&self, k: Seq<u8>) -> Seq<(Seq<u8>, Seq<u8>)> {
        self.archive_cache.entries_of(k)
    }

    pub closed spec fn handle_nested(&self, k: Seq<u8>) -> bool {
        self.archive_cache.nested_of(k)
    }

    /// The byte budget of the byte cache.
    pub closed spec fn byte_limit(&self) -> int {
        self.file_cache.spec_limit()
    }

    /// The count budget of the handle cache.
    pub closed spec fn handle_limit(&self) -> int {
        self.archive_cache.spec_limit()
    }

    /// A quick lookup would hit: the identity is a known directory or a
    /// cached leaf.
    pub open spec fn cached(&self, id: Seq<u8>) -> bool {
        self.is_dir(id) || self.is_file(id)
    }

    /// The mount points: the virtual root's children.
    pub closed spec fn mounts(&self) -> Children {
        self.dir_tree.kids(vroot_id())
    }

    pub closed spec fn wf(&self) -> bool {
        &&& self.file_cache.wf()
        &&& self.dir_tree.wf()
        &&& self.archive_cache.wf()
        &&& forall|id: Seq<u8>| #[trigger] self.is_dir(id) ==> !self.is_file(id)
        &&& forall|k: Seq<u8>| #[trigger] self.has_handle(k) ==> self.is_dir(k)
        &&& self.is_dir(vroot_id())
    }

    /// The caches hold the same contents (recency aside).
    pub open spec fn same_caches(&self, other: &ArchiveCache) -> bool {
        &&& forall|id: Seq<u8>| #[trigger] self.is_dir(id) <==> other.is_dir(id)
        &&& forall|id: Seq<u8>|
            #[trigger] self.is_dir(id) ==> self.dir_kids(id) == other.dir_kids(id)
        &&& forall|id: Seq<u8>| #[trigger] self.is_file(id) <==> other.is_file(id)
        &&& forall|id: Seq<u8>|
            #[trigger] self.is_file(id) ==> self.file_val(id) == other.file_val(id)
        &&& forall|k: Seq<u8>| #[trigger] self.has_handle(k) <==> other.has_handle(k)
        &&& forall|k: Seq<u8>|
            #[trigger] self.has_handle(k) ==> self.handle_src(k) == other.handle_src(k)
                && self.handle_entries(k) == other.handle_entries(k) && self.handle_nested(k)
                == other.handle_nested(k)
    }

    /// What a returned value says of the cache it came from.
    pub open spec fn matches_lookup(&self, id: Seq<u8>, r: NodeContents) -> bool {
        match r {
            NodeContents::Dir(ns) => self.is_dir(id) && names_match(ns@, self.dir_kids(id)),
            NodeContents::File(b) => !self.is_dir(id) && self.is_file(id) && b@ == self.file_val(
                id,
            ),
        }
    }

    /// A cache with the given byte budget and handle count budget, holding
    /// only the virtual root's empty listing.
    pub fn new(binary_limit: usize, archive_limit: usize) -> (r: ArchiveCache)
        ensures
            r.wf(),
            r.is_dir(vroot_id()),
            forall|n: Seq<u8>| !r.mounts().has(n),
            forall|id: Seq<u8>| id != vroot_id() ==> !r.is_dir(id),
            forall|id: Seq<u8>| !r.is_file(id),
            forall|k: Seq<u8>| !r.has_handle(k),
            r.byte_limit() == binary_limit,
            r.handle_limit() == archive_limit,
    {
        let mut dir_tree = DirTree::new();
        let vroot = virtual_root_path();
        dir_tree.ensure_node(&vroot);
        ArchiveCache {
            file_cache: SizedLru::new(binary_limit),
            dir_tree,
            archive_cache: HandleLru::new(archive_limit),
        }
    }

    /// The pure cache lookup: a known directory listing first (archive roots
    /// are registered as directories), then cached leaf bytes, else nothing.
    /// Only recency changes; the contents do not.
    pub fn quick_try(&mut self, full_path: &PathU8) -> (r: Option<NodeContents>)
        requires
            old(self).wf(),
        ensures
            final(self).wf(),
            final(self).same_caches(old(self)),
            r is None <==> !old(self).cached(canon_of(full_path@)),
            r is Some ==> final(self).matches_lookup(canon_of(full_path@), r->Some_0),
    {
        let node_id = path_to_id(full_path);
        let r = match self.dir_tree.child_names(&node_id) {
            Some(ns) => Some(NodeContents::Dir(ns)),
            None => {
                match self.file_cache.get(&node_id) {
                    Some(b) => Some(NodeContents::File(b)),
                    None => None,
                }
            },
        };
        proof {
            assert(self.dir_tree == old(self).dir_tree);
            assert(self.archive_cache == old(self).archive_cache);
            assert forall|id: Seq<u8>| #[trigger] self.is_dir(id) implies !self.is_file(id) by {
                assert(old(self).is_dir(id));
                assert(!old(self).is_file(id));
            }
            assert forall|k: Seq<u8>| #[trigger] self.has_handle(k) implies self.is_dir(k) by {
                assert(old(self).has_handle(k));
                assert(old(self).is_dir(k));
            }
            assert(old(self).is_dir(vroot_id()) == self.is_dir(vroot_id()));
            assert forall|id: Seq<u8>| #[trigger] self.is_file(id) implies old(self).is_file(id)
                && self.file_val(id) == old(self).file_val(id) by {}
            assert forall|id: Seq<u8>| #[trigger] old(self).is_file(id) implies self.is_file(
                id,
            ) by {}
        }
        r
    }

    /// Removes every cached node whose identity begins with the prefix: its
    /// directory listings, cached bytes and archive handles leave, and the
    /// matching mount points leave the virtual root's listing.  The virtual
    /// root itself is never removed.
    #[verifier::loop_isolation(false)]
    pub fn invalid_path(&mut self, virtual_path: &PathU8)
        requires
            old(self).wf(),
        ensures
            final(self).wf(),
            forall|id: Seq<u8>|
                is_prefix_of(canon_of(virtual_path@), id) && id != vroot_id() ==> !final(self).cached(id) && !final(self).has_handle(id),
            forall|id: Seq<u8>|
                !is_prefix_of(canon_of(virtual_path@), id) && #[trigger] old(self).is_dir(id)
                    ==> final(self).is_dir(id),
            forall|id: Seq<u8>| #[trigger] final(self).is_dir(id) ==> old(self).is_dir(id),
            forall|id: Seq<u8>|
                !is_prefix_of(canon_of(virtual_path@), id) && #[trigger] old(self).is_file(id)
                    ==> final(self).is_file(id) && final(self).file_val(id) == old(self).file_val(id),
            forall|n: Seq<u8>|
                #[trigger] final(self).mounts().has(n) <==> old(self).mounts().has(n)
                    && !is_prefix_of(canon_of(virtual_path@), n),
            final(self).is_dir(vroot_id()),
            forall|id: Seq<u8>|
                id != vroot_id() && !is_prefix_of(canon_of(virtual_path@), id) && #[trigger] old(self).is_dir(id) ==> final(self).dir_kids(id) == old(self).dir_kids(id),
            forall|k: Seq<u8>|
                !is_prefix_of(canon_of(virtual_path@), k) && #[trigger] old(self).has_handle(k)
                    ==> final(self).has_handle(k),
            forall|k: Seq<u8>|
                #[trigger] final(self).has_handle(k) ==> old(self).has_handle(k) && final(self).handle_src(k) == old(self).handle_src(k) && final(self).handle_entries(k) == old(self).handle_entries(k) && final(self).handle_nested(k) == old(self).handle_nested(k),
    {
        let x = path_to_id(virtual_path);
        let vroot = virtual_root_path();

        // unhook matching mounts from the virtual root's listing
        let mount_names = match self.dir_tree.child_names(&vroot) {
            Some(ns) => ns,
            None => {
                proof {
                    assert(false);
                }
                Vec::new()
            },
        };
        proof {
            assert forall|n: Seq<u8>| #[trigger]
                self.mounts().has(n) && is_prefix_of(x@, n) implies exists|j: int|
                0 <= j < mount_names@.len() && (#[trigger] mount_names@[j])@ == n by {
                let j = choose|j: int|
                    0 <= j < self.mounts().pairs().len() && (#[trigger] self.mounts().pairs()[
                        j
                    ]).0 == n;
                assert(mount_names@[j]@ == n);
            }
        }
        let mut i: usize = 0;
        while i < mount_names.len()
            invariant
                old(self).wf(),
                self.dir_tree.wf(),
                self.is_dir(vroot_id()),
                self.file_cache == old(self).file_cache,
                self.archive_cache == old(self).archive_cache,
                forall|id: Seq<u8>| #[trigger] self.is_dir(id) <==> old(self).is_dir(id),
                forall|id: Seq<u8>|
                    id != vroot_id() && #[trigger] self.is_dir(id) ==> self.dir_kids(id) == old(self).dir_kids(id),
                forall|n: Seq<u8>| #[trigger] self.mounts().has(n) ==> old(self).mounts().has(n),
                forall|n: Seq<u8>|
                    #[trigger] old(self).mounts().has(n) && !is_prefix_of(x@, n) ==> self.mounts(
                    ).has(n),
                forall|j: int|
                    0 <= j < i && is_prefix_of(x@, (#[trigger] mount_names@[j])@) ==> !self.mounts(
                    ).has(mount_names@[j]@),
                forall|n: Seq<u8>|
                    #[trigger] self.mounts().has(n) && is_prefix_of(x@, n) ==> exists|j: int|
                        i <= j < mount_names@.len() && (#[trigger] mount_names@[j])@ == n,
            decreases mount_names.len() - i,
        {
            let ghost pre = *self;
            if crate::paths::starts_with_bytes(&mount_names[i], &x) {
                proof {
                    assert(pre.dir_tree.has(vroot@));
                }
                self.dir_tree.remove_child(&vroot, &mount_names[i]);
                proof {
                    assert(!self.dir_tree.kids(vroot@).has(mount_names@[i as int]@));
                    assert(!self.mounts().has(mount_names@[i as int]@));
                }
            }
            proof {
                assert(pre.dir_tree.has(vroot_id()));
                assert forall|id: Seq<u8>| #[trigger] self.is_dir(id) <==> old(self).is_dir(
                    id,
                ) by {
                    assert(self.is_dir(id) <==> pre.is_dir(id));
                }
                assert forall|n: Seq<u8>| #[trigger] self.mounts().has(n) implies pre.mounts().has(
                    n,
                ) by {}
                assert forall|n: Seq<u8>| #[trigger]
                    self.mounts().has(n) && is_prefix_of(x@, n) implies exists|j: int|
                    i + 1 <= j < mount_names@.len() && (#[trigger] mount_names@[j])@ == n by {
                    assert(pre.mounts().has(n));
                    let j = choose|j: int|
                        i <= j < mount_names@.len() && (#[trigger] mount_names@[j])@ == n;
                    if j == i {
                        assert(!self.mounts().has(n));
                    }
                }
                assert forall|id: Seq<u8>|
                    id != vroot_id() && #[trigger] self.is_dir(id) implies self.dir_kids(id) == old(self).dir_kids(id) by {
                    assert(pre.is_dir(id));
                    assert(self.dir_kids(id) == pre.dir_kids(id));
                }
            }
            i = i + 1;
        }

        // drop every directory listing under the prefix (the root stays)
        let dkeys = self.dir_tree.keys();
        let ghost mid = *self;
        let mut i: usize = 0;
        while i < dkeys.len()
            invariant
                mid.dir_tree.wf(),
                self.dir_tree.wf(),
                self.file_cache == mid.file_cache,
                self.archive_cache == mid.archive_cache,
                self.is_dir(vroot_id()) == mid.is_dir(vroot_id()),
                forall|id: Seq<u8>|
                    #[trigger] self.is_dir(id) ==> mid.is_dir(id) && self.dir_kids(id)
                        == mid.dir_kids(id),
                forall|id: Seq<u8>|
                    #[trigger] mid.is_dir(id) && !(is_prefix_of(x@, id) && id != vroot_id())
                        ==> self.is_dir(id),
                forall|j: int|
                    0 <= j < i && is_prefix_of(x@, (#[trigger] dkeys@[j])@) && dkeys@[j]@
                        != vroot_id() ==> !self.is_dir(dkeys@[j]@),
                forall|id: Seq<u8>|
                    #[trigger] self.is_dir(id) && is_prefix_of(x@, id) && id != vroot_id()
                        ==> exists|j: int| i <= j < dkeys@.len() && (#[trigger] dkeys@[j])@ == id,
            decreases dkeys.len() - i,
        {
            let ghost pre = *self;
            if crate::paths::starts_with_bytes(&dkeys[i], &x) && !crate::paths::eq_bytes(
                &dkeys[i],
                &vroot,
            ) {
                self.dir_tree.remove_key(&dkeys[i]);
                proof {
                    assert(!self.is_dir(dkeys@[i as int]@));
                }
            }
            proof {
                assert forall|id: Seq<u8>| #[trigger]
                    self.is_dir(id) implies pre.is_dir(id) && self.dir_kids(id) == pre.dir_kids(
                    id,
                ) by {}
                assert forall|id: Seq<u8>| #[trigger]
                    self.is_dir(id) && is_prefix_of(x@, id) && id != vroot_id() implies exists|
                    j: int,
                |
                    i + 1 <= j < dkeys@.len() && (#[trigger] dkeys@[j])@ == id by {
                    assert(pre.is_dir(id));
                    let j = choose|j: int|
                        i <= j < dkeys@.len() && (#[trigger] dkeys@[j])@ == id;
                    if j == i {
                        assert(!self.is_dir(id));
                    }
                }
            }
            i = i + 1;
        }

        // drop cached bytes under the prefix
        let fkeys = self.file_cache.keys();
        let ghost mid2 = *self;
        let mut i: usize = 0;
        while i < fkeys.len()
            invariant
                mid2.file_cache.wf(),
                self.file_cache.wf(),
                self.file_cache.spec_limit() == mid2.file_cache.spec_limit(),
                self.dir_tree == mid2.dir_tree,
                self.archive_cache == mid2.archive_cache,
                forall|id: Seq<u8>|
                    #[trigger] self.is_file(id) ==> mid2.is_file(id) && self.file_val(id)
                        == mid2.file_val(id),
                forall|id: Seq<u8>|
                    #[trigger] mid2.is_file(id) && !is_prefix_of(x@, id) ==> self.is_file(id),
                forall|j: int|
                    0 <= j < i && is_prefix_of(x@, (#[trigger] fkeys@[j])@) ==> !self.is_file(
                        fkeys@[j]@,
                    ),
                forall|id: Seq<u8>|
                    #[trigger] self.is_file(id) && is_prefix_of(x@, id) ==> exists|j: int|
                        i <= j < fkeys@.len() && (#[trigger] fkeys@[j])@ == id,
            decreases fkeys.len() - i,
        {
            let ghost pre = *self;
            if crate::paths::starts_with_bytes(&fkeys[i], &x) {
                self.file_cache.remove(&fkeys[i]);
                proof {
                    assert(!self.is_file(fkeys@[i as int]@));
                }
            }
            proof {
                assert forall|id: Seq<u8>| #[trigger]
                    self.is_file(id) implies pre.is_file(id) && self.file_val(id) == pre.file_val(
                    id,
                ) by {}
                assert forall|id: Seq<u8>| #[trigger]
                    self.is_file(id) && is_prefix_of(x@, id) implies exists|j: int|
                    i + 1 <= j < fkeys@.len() && (#[trigger] fkeys@[j])@ == id by {
                    assert(pre.is_file(id));
                    let j = choose|j: int|
                        i <= j < fkeys@.len() && (#[trigger] fkeys@[j])@ == id;
                    if j == i {
                        assert(!self.is_file(id));
                    }
                }
            }
            i = i + 1;
        }

        // drop archive handles under the prefix
        let hkeys = self.archive_cache.keys();
        let ghost mid3 = *self;
        let mut i: usize = 0;
        while i < hkeys.len()
            invariant
                mid3.archive_cache.wf(),
                self.archive_cache.wf(),
                self.dir_tree == mid3.dir_tree,
                self.file_cache == mid3.file_cache,
                self.archive_cache.spec_limit() == mid3.archive_cache.spec_limit(),
                forall|k: Seq<u8>|
                    #[trigger] self.has_handle(k) ==> mid3.has_handle(k)
                        && self.archive_cache.hval(k) == mid3.archive_cache.hval(k),
                forall|k: Seq<u8>|
                    #[trigger] mid3.has_handle(k) && !is_prefix_of(x@, k) ==> self.has_handle(k),
                forall|j: int|
                    0 <= j < i && is_prefix_of(x@, (#[trigger] hkeys@[j])@) ==> !self.has_handle(
                        hkeys@[j]@,
                    ),
                forall|k: Seq<u8>|
                    #[trigger] self.has_handle(k) && is_prefix_of(x@, k) ==> exists|j: int|
                        i <= j < hkeys@.len() && (#[trigger] hkeys@[j])@ == k,
            decreases hkeys.len() - i,
        {
            let ghost pre = *self;
            if crate::paths::starts_with_bytes(&hkeys[i], &x) {
                self.archive_cache.pop(&hkeys[i]);
                proof {
                    assert(!self.has_handle(hkeys@[i as int]@));
                }
            }
            proof {
                assert forall|k: Seq<u8>| #[trigger] self.has_handle(k) implies pre.has_handle(k)
                    && self.archive_cache.hval(k) == pre.archive_cache.hval(k) by {}
                assert forall|k: Seq<u8>| #[trigger]
                    self.has_handle(k) && is_prefix_of(x@, k) implies exists|j: int|
                    i + 1 <= j < hkeys@.len() && (#[trigger] hkeys@[j])@ == k by {
                    assert(pre.has_handle(k));
                    let j = choose|j: int|
                        i <= j < hkeys@.len() && (#[trigger] hkeys@[j])@ == k;
                    if j == i {
                        assert(!self.has_handle(k));
                    }
                }
            }
            i = i + 1;
        }
        proof {
            assert forall|id: Seq<u8>| #[trigger] self.is_dir(id) implies !self.is_file(id) by {
                assert(mid3.is_dir(id));
                assert(mid2.is_dir(id));
                assert(mid.is_dir(id));
                assert(old(self).is_dir(id));
                assert(!old(self).is_file(id));
                assert(!mid.is_file(id));
                assert(!mid2.is_file(id));
                assert(!mid3.is_file(id));
            }
            assert forall|id: Seq<u8>|
                is_prefix_of(x@, id) && id != vroot_id() implies !self.cached(id)
                && !self.has_handle(id) by {
                if self.is_dir(id) {
                    assert(mid3.is_dir(id));
                    assert(mid2.is_dir(id));
                }
                if self.is_file(id) {
                    assert(mid3.is_file(id));
                }
            }
            assert forall|id: Seq<u8>|
                !is_prefix_of(x@, id) && #[trigger] old(self).is_dir(id) implies self.is_dir(
                id,
            ) by {
                assert(mid.is_dir(id));
                assert(mid2.is_dir(id));
                assert(mid3.is_dir(id));
            }
            assert forall|id: Seq<u8>| #[trigger] self.is_dir(id) implies old(self).is_dir(
                id,
            ) by {
                assert(mid3.is_dir(id));
                assert(mid2.is_dir(id));
                assert(mid.is_dir(id));
            }
            assert forall|id: Seq<u8>|
                !is_prefix_of(x@, id) && #[trigger] old(self).is_file(id) implies self.is_file(id)
                && self.file_val(id) == old(self).file_val(id) by {
                assert(mid.is_file(id));
                assert(mid2.is_file(id));
                assert(mid2.file_val(id) == old(self).file_val(id));
                assert(mid3.is_file(id));
                assert(mid3.file_val(id) == mid2.file_val(id));
            }
            assert(self.is_dir(vroot_id())) by {
                assert(mid.is_dir(vroot_id()));
                assert(mid2.is_dir(vroot_id()));
                assert(mid3.is_dir(vroot_id()));
            }
            assert forall|id: Seq<u8>|
                id != vroot_id() && !is_prefix_of(x@, id) && #[trigger] old(self).is_dir(
                id,
            ) implies self.dir_kids(id) == old(self).dir_kids(id) by {
                assert(mid.is_dir(id));
                assert(mid.dir_kids(id) == old(self).dir_kids(id));
                assert(mid2.is_dir(id));
                assert(mid2.dir_kids(id) == mid.dir_kids(id));
                assert(mid3.is_dir(id));
            }
            assert forall|k: Seq<u8>|
                !is_prefix_of(x@, k) && #[trigger] old(self).has_handle(k) implies self.has_handle(
                k,
            ) by {
                assert(mid.has_handle(k) == old(self).has_handle(k));
                assert(mid2.has_handle(k) == mid.has_handle(k));
                assert(mid3.has_handle(k) == mid2.has_handle(k));
            }
            assert forall|k: Seq<u8>| #[trigger]
                self.has_handle(k) implies old(self).has_handle(k) && self.handle_src(k) == old(self).handle_src(k) && self.handle_entries(k) == old(self).handle_entries(k)
                && self.handle_nested(k) == old(self).handle_nested(k) by {
                assert(mid3.has_handle(k));
                assert(self.archive_cache.hval(k) == mid3.archive_cache.hval(k));
                assert(mid3.archive_cache.hval(k) == old(self).archive_cache.hval(k));
            }
            assert(mid2.dir_kids(vroot_id()) == mid.dir_kids(vroot_id()));
            assert(self.dir_kids(vroot_id()) == mid.dir_kids(vroot_id()));
            assert forall|n: Seq<u8>|
                #[trigger] self.mounts().has(n) <==> old(self).mounts().has(n) && !is_prefix_of(
                x@,
                n,
            ) by {
                assert(self.mounts().has(n) == mid.mounts().has(n));
                if mid.mounts().has(n) && is_prefix_of(x@, n) {
                    assert(false);
                }
            }
            assert forall|k: Seq<u8>| #[trigger] self.has_handle(k) implies self.is_dir(k) by {
                assert(mid3.has_handle(k));
                assert(!is_prefix_of(x@, k) || k == vroot_id()) by {
                    if is_prefix_of(x@, k) && k != vroot_id() {
                        assert(!mid3.has_handle(k)) by {
                            if mid3.has_handle(k) {
                                assert(mid2.has_handle(k));
                                assert(mid.has_handle(k));
                                assert(old(self).has_handle(k));
                                assert(old(self).is_dir(k));
                                assert(mid.is_dir(k));
                                assert(!mid.is_dir(k));
                            }
                        }
                    }
                }
                assert(mid2.has_handle(k));
                assert(mid.has_handle(k));
                assert(old(self).has_handle(k));
                assert(old(self).is_dir(k));
                assert(mid.is_dir(k));
                assert(mid2.is_dir(k));
                assert(mid3.is_dir(k));
                assert(self.is_dir(k));
            }
        }
    }

    /// The component chain below `root` can be walked to depth `d` without
    /// any step landing on the virtual-root sentinel.
    pub open spec fn chain_ok(root: Seq<u8>, cs: Seq<Seq<u8>>, d: int) -> bool {
        forall|t: int| 0 <= t <= d ==> target_of(root, #[trigger] cs.take(t + 1)) != vroot_id()
    }

    /// Whether an entry name contributes a child under a mount: it has a
    /// first component, and stepping there does not land on the sentinel.
    pub open spec fn gains(vp: Seq<u8>, raw: Seq<u8>) -> bool {
        crate::paths::canon_comps(raw).len() > 0 && crate::paths::spec_join_may_empty(
            vp,
            crate::paths::canon_comps(raw)[0],
        ) != vroot_id()
    }

    /// Walks the components below `this_root`, making each interior node a
    /// directory listing the next component.  A node that becomes a directory
    /// leaves the byte cache: an identity is never both.  The walk never grows
    /// into the virtual root sentinel and never touches its listing.
    #[verifier::loop_isolation(false)]
    fn grow_under(&mut self, this_root: &PathU8, comps: &Vec<PathU8>)
        requires
            old(self).wf(),
            this_root@ != vroot_id(),
            crate::paths::valid_comps(crate::paths::view_comps(comps@)),
        ensures
            final(self).wf(),
            forall|d: int|
                0 <= d < comps@.len() && Self::chain_ok(
                    this_root@,
                    crate::paths::view_comps(comps@),
                    d,
                ) ==> final(self).is_dir(
                    target_of(this_root@, crate::paths::view_comps(comps@).take(d)),
                ) && final(self).dir_kids(
                    target_of(this_root@, crate::paths::view_comps(comps@).take(d)),
                ).has(comps@[d]@),
            forall|id: Seq<u8>, nm: Seq<u8>|
                old(self).is_dir(id) && #[trigger] old(self).dir_kids(id).has(nm) ==> final(self).is_dir(id) && final(self).dir_kids(id).has(nm),
            final(self).archive_cache == old(self).archive_cache,
            forall|id: Seq<u8>| #[trigger] old(self).is_dir(id) ==> final(self).is_dir(id),
            forall|id: Seq<u8>|
                #[trigger] final(self).is_dir(id) ==> old(self).is_dir(id) || is_prefix_of(
                    this_root@,
                    id,
                ),
            forall|id: Seq<u8>|
                #[trigger] old(self).is_dir(id) && !is_prefix_of(this_root@, id) ==> final(self).dir_kids(id) == old(self).dir_kids(id),
            final(self).mounts() == old(self).mounts(),
            forall|f: Seq<u8>|
                #[trigger] final(self).is_file(f) ==> old(self).is_file(f) && final(self).file_val(
                    f,
                ) == old(self).file_val(f),
            comps@.len() == 0 ==> *final(self) == *old(self),
            comps@.len() > 0 && crate::paths::spec_join_may_empty(this_root@, comps@[0]@)
                != vroot_id() ==> final(self).is_dir(this_root@) && (forall|n: Seq<u8>|
                #[trigger] final(self).dir_kids(this_root@).has(n) <==> (old(self).is_dir(
                    this_root@,
                ) && old(self).dir_kids(this_root@).has(n)) || n == comps@[0]@),
            comps@.len() > 0 && crate::paths::spec_join_may_empty(this_root@, comps@[0]@)
                == vroot_id() ==> *final(self) == *old(self),
    {
        let vroot = virtual_root_path();
        let mut parent = this_root.clone();
        let mut i: usize = 0;
        while i < comps.len()
            invariant
                i <= comps@.len(),
                i > 0 ==> crate::paths::spec_join_may_empty(this_root@, comps@[0]@) != vroot_id(),
                self.dir_tree.wf(),
                self.file_cache.wf(),
                self.archive_cache == old(self).archive_cache,
                forall|id: Seq<u8>| #[trigger] self.is_dir(id) ==> !self.is_file(id),
                forall|k: Seq<u8>| #[trigger] self.has_handle(k) ==> self.is_dir(k),
                self.is_dir(vroot_id()),
                parent@ != vroot_id(),
                is_prefix_of(this_root@, parent@),
                parent@ == target_of(this_root@, crate::paths::view_comps(comps@).take(i as int)),
                i == 0 ==> parent@ == this_root@ && *self == *old(self),
                i > 0 ==> parent@.len() > this_root@.len(),
                forall|d: int|
                    0 <= d < i && Self::chain_ok(this_root@, crate::paths::view_comps(comps@), d)
                        ==> self.is_dir(
                        target_of(this_root@, crate::paths::view_comps(comps@).take(d)),
                    ) && self.dir_kids(
                        target_of(this_root@, crate::paths::view_comps(comps@).take(d)),
                    ).has(comps@[d]@),
                forall|id: Seq<u8>, nm: Seq<u8>|
                    old(self).is_dir(id) && #[trigger] old(self).dir_kids(id).has(nm)
                        ==> self.is_dir(id) && self.dir_kids(id).has(nm),
                forall|id: Seq<u8>| #[trigger] old(self).is_dir(id) ==> self.is_dir(id),
                forall|id: Seq<u8>|
                    #[trigger] self.is_dir(id) ==> old(self).is_dir(id) || is_prefix_of(
                        this_root@,
                        id,
                    ),
                forall|id: Seq<u8>|
                    #[trigger] old(self).is_dir(id) && !is_prefix_of(this_root@, id) ==> self.dir_kids(
                        id,
                    ) == old(self).dir_kids(id),
                self.mounts() == old(self).mounts(),
                forall|f: Seq<u8>|
                    #[trigger] self.is_file(f) ==> old(self).is_file(f) && self.file_val(f) == old(self).file_val(f),
                i > 0 ==> self.is_dir(this_root@) && (forall|n: Seq<u8>|
                    #[trigger] self.dir_kids(this_root@).has(n) <==> (old(self).is_dir(this_root@)
                        && old(self).dir_kids(this_root@).has(n)) || n == comps@[0]@),
            decreases comps.len() - i,
        {
            let child = join_may_empty(&parent, &comps[i]);
            proof {
                let cs = crate::paths::view_comps(comps@);
                assert(crate::paths::valid_comp(cs[i as int]));
                assert(comps@[i as int]@.len() > 0);
                if parent@.len() == 0 {
                    assert(this_root@.len() == 0);
                    assert(child@ == comps@[i as int]@);
                } else {
                    assert(child@ == parent@ + seq![crate::paths::SLASH] + comps@[i as int]@);
                }
                assert(is_prefix_of(this_root@, child@));
                assert(child@.len() > parent@.len());
                assert(child@.len() > this_root@.len()) by {
                    if parent@.len() == 0 {
                        assert(comps@[i as int]@.len() > 0);
                    }
                }
                assert(cs.take(i as int) + seq![cs[i as int]] =~= cs.take(i as int + 1));
                assert forall|t: int|
                    0 <= t < cs.take(i as int).len() implies crate::paths::valid_comp(
                    #[trigger] cs.take(i as int)[t],
                ) by {
                    assert(cs.take(i as int)[t] == cs[t]);
                }
                assert(crate::paths::valid_comps(seq![cs[i as int]])) by {
                    assert(seq![cs[i as int]][0] == cs[i as int]);
                }
                crate::paths::lemma_join_assoc(this_root@, cs.take(i as int), seq![cs[i as int]]);
                assert(crate::paths::join_comps(seq![cs[i as int]]) == cs[i as int]);
                assert(child@ == target_of(this_root@, cs.take(i as int + 1)));
            }
            if crate::paths::eq_bytes(&child, &vroot) {
                proof {
                    let cs = crate::paths::view_comps(comps@);
                    assert forall|d: int|
                        0 <= d < comps@.len() && Self::chain_ok(this_root@, cs, d) implies d
                        < i by {
                        if d >= i {
                            assert(target_of(this_root@, cs.take(i as int + 1)) != vroot_id());
                        }
                    }
                }
                return ;
            }
            let ghost pre = *self;
            self.file_cache.remove(&parent);
            let ghost mid = *self;
            self.dir_tree.add_child(&parent, &comps[i], &child);
            proof {
                assert forall|id: Seq<u8>| #[trigger] self.is_dir(id) implies !self.is_file(
                    id,
                ) by {
                    if id == parent@ {
                        assert(!mid.is_file(parent@));
                    } else {
                        assert(pre.is_dir(id) ==> !pre.is_file(id));
                        assert(self.is_dir(id) ==> pre.is_dir(id) || id == parent@);
                    }
                }
                assert forall|k: Seq<u8>| #[trigger] self.has_handle(k) implies self.is_dir(k) by {
                    assert(pre.has_handle(k));
                    assert(pre.is_dir(k));
                }
                assert forall|id: Seq<u8>| #[trigger] old(self).is_dir(id) implies self.is_dir(
                    id,
                ) by {
                    assert(pre.is_dir(id));
                }
                assert forall|id: Seq<u8>| #[trigger]
                    self.is_dir(id) implies pre.is_dir(id) || id == parent@ by {}
                assert forall|id: Seq<u8>| #[trigger]
                    old(self).is_dir(id) && !is_prefix_of(this_root@, id) implies self.dir_kids(id)
                    == old(self).dir_kids(id) by {
                    assert(!is_prefix_of(this_root@, parent@) ==> false);
                    assert(id != parent@);
                    assert(self.dir_kids(id) == pre.dir_kids(id));
                }
                assert(vroot_id() != parent@);
                assert(self.mounts() == pre.mounts());
                assert forall|f: Seq<u8>| #[trigger] self.is_file(f) implies old(self).is_file(f)
                    && self.file_val(f) == old(self).file_val(f) by {
                    assert(mid.is_file(f));
                    assert(pre.is_file(f));
                    assert(pre.file_val(f) == mid.file_val(f));
                }
                if i > 0 {
                    assert(parent@ != this_root@);
                    assert(self.dir_kids(this_root@) == pre.dir_kids(this_root@));
                } else {
                    assert(parent@ == this_root@);
                    assert forall|n: Seq<u8>|
                        #[trigger] self.dir_kids(this_root@).has(n) <==> (old(self).is_dir(
                            this_root@,
                        ) && old(self).dir_kids(this_root@).has(n)) || n == comps@[0]@ by {
                        assert(mid.is_dir(this_root@) == old(self).is_dir(this_root@));
                        assert(mid.is_dir(this_root@) ==> mid.dir_kids(this_root@) == old(self).dir_kids(this_root@));
                    }
                }
                let cs = crate::paths::view_comps(comps@);
                assert forall|d: int|
                    0 <= d < i + 1 && Self::chain_ok(this_root@, cs, d) implies self.is_dir(
                    target_of(this_root@, cs.take(d)),
                ) && self.dir_kids(target_of(this_root@, cs.take(d))).has(comps@[d]@) by {
                    if d == i {
                        assert(target_of(this_root@, cs.take(d)) == parent@);
                        assert(self.is_dir(parent@));
                        assert(self.dir_kids(parent@).has(comps@[i as int]@));
                    } else {
                        let node = target_of(this_root@, cs.take(d));
                        assert(pre.is_dir(node) && pre.dir_kids(node).has(comps@[d]@));
                        assert(mid.is_dir(node) && mid.dir_kids(node) == pre.dir_kids(node));
                        if node == parent@ {
                            assert(self.dir_kids(parent@).has(comps@[d]@));
                        } else {
                            assert(self.dir_kids(node) == mid.dir_kids(node));
                        }
                        assert(self.is_dir(node));
                    }
                }
                assert forall|id: Seq<u8>, nm: Seq<u8>|
                    old(self).is_dir(id) && #[trigger] old(self).dir_kids(id).has(
                    nm,
                ) implies self.is_dir(id) && self.dir_kids(id).has(nm) by {
                    assert(pre.is_dir(id) && pre.dir_kids(id).has(nm));
                    assert(mid.is_dir(id) && mid.dir_kids(id) == pre.dir_kids(id));
                    if id == parent@ {
                    } else {
                        assert(self.dir_kids(id) == mid.dir_kids(id));
                    }
                    assert(self.is_dir(id));
                }
            }
            parent = child;
            i = i + 1;
        }
    }

    /// Registers an opened archive at a canonical mount identity: every entry
    /// name is componentized and grown into the directory index, the mount
    /// becomes a child of the virtual root, and the reader with its entry
    /// index (canonical lookup key to raw name, first binding kept on
    /// duplicates) takes a slot in the handle cache.
    #[verifier::loop_isolation(false)]
    fn set_archive_internal(
        &mut self,
        virtual_path: &PathU8,
        reader: crate::ziparc::ArchiveReader,
        raw_names: Vec<PathU8>,
        is_nested: bool,
    ) -> (r: Vec<PathU8>)
        requires
            old(self).wf(),
            virtual_path@ == canon_of(virtual_path@),
            virtual_path@ != vroot_id(),
            !old(self).is_dir(virtual_path@),
            !old(self).is_file(virtual_path@),
        ensures
            final(self).wf(),
            final(self).is_dir(virtual_path@),
            names_match(r@, final(self).dir_kids(virtual_path@)),
            forall|n: Seq<u8>|
                #[trigger] final(self).dir_kids(virtual_path@).has(n) <==> exists|j: int|
                    0 <= j < raw_names@.len() && Self::gains(
                        virtual_path@,
                        (#[trigger] raw_names@[j])@,
                    ) && n == crate::paths::canon_comps(raw_names@[j]@)[0],
            forall|m: Seq<u8>|
                #[trigger] final(self).mounts().has(m) <==> old(self).mounts().has(m) || m
                    == virtual_path@,
            final(self).has_handle(virtual_path@),
            final(self).handle_src(virtual_path@) == crate::ziparc::reader_src(&reader),
            final(self).handle_nested(virtual_path@) == is_nested,
            forall|j: int|
                0 <= j < raw_names@.len() && crate::paths::canon_comps((#[trigger] raw_names@[j])@).len()
                    > 0 ==> crate::assoc::rec_contains(
                    final(self).handle_entries(virtual_path@),
                    canon_of(raw_names@[j]@),
                ),
            forall|p: (Seq<u8>, Seq<u8>)|
                #[trigger] final(self).handle_entries(virtual_path@).contains(p) ==> exists|j: int|
                    0 <= j < raw_names@.len() && (#[trigger] raw_names@[j])@ == p.1 && p.0
                        == canon_of(p.1),
            forall|j: int, d: int|
                #![trigger crate::paths::canon_comps(raw_names@[j]@).take(d)]
                0 <= j < raw_names@.len() && 0 <= d < crate::paths::canon_comps(
                    raw_names@[j]@,
                ).len() && Self::chain_ok(
                    virtual_path@,
                    crate::paths::canon_comps(raw_names@[j]@),
                    d,
                ) ==> final(self).is_dir(
                    target_of(virtual_path@, crate::paths::canon_comps(raw_names@[j]@).take(d)),
                ) && final(self).dir_kids(
                    target_of(virtual_path@, crate::paths::canon_comps(raw_names@[j]@).take(d)),
                ).has(crate::paths::canon_comps(raw_names@[j]@)[d]),
            forall|id: Seq<u8>| #[trigger] old(self).is_dir(id) ==> final(self).is_dir(id),
            forall|id: Seq<u8>|
                #[trigger] final(self).is_dir(id) ==> old(self).is_dir(id) || is_prefix_of(
                    virtual_path@,
                    id,
                ),
            forall|id: Seq<u8>|
                #[trigger] old(self).is_dir(id) && !is_prefix_of(virtual_path@, id) && id
                    != vroot_id() ==> final(self).dir_kids(id) == old(self).dir_kids(id),
            forall|f: Seq<u8>|
                #[trigger] final(self).is_file(f) ==> old(self).is_file(f) && final(self).file_val(
                    f,
                ) == old(self).file_val(f),
            forall|k: Seq<u8>|
                #[trigger] final(self).has_handle(k) && k != virtual_path@ ==> old(self).has_handle(
                    k,
                ) && final(self).handle_src(k) == old(self).handle_src(k) && final(self).handle_entries(k) == old(self).handle_entries(k) && final(self).handle_nested(k)
                    == old(self).handle_nested(k),
    {
        let vroot = virtual_root_path();
        self.dir_tree.ensure_node(virtual_path);
        let ghost m1 = *self;
        self.dir_tree.add_child(&vroot, virtual_path, virtual_path);
        proof {
            assert(!old(self).has_handle(virtual_path@));
            assert(self.archive_cache == old(self).archive_cache);
            assert(self.file_cache == old(self).file_cache);
            assert forall|id: Seq<u8>| #[trigger] self.is_dir(id) implies old(self).is_dir(id)
                || id == virtual_path@ || id == vroot_id() by {
                assert(m1.is_dir(id) || id == vroot_id());
            }
            assert forall|id: Seq<u8>| #[trigger] old(self).is_dir(id) implies self.is_dir(id) by {
                assert(m1.is_dir(id));
            }
            assert forall|id: Seq<u8>| #[trigger] self.is_dir(id) implies !self.is_file(id) by {
                assert(old(self).is_dir(id) || id == virtual_path@ || id == vroot_id());
                assert(!old(self).is_file(id));
            }
            assert forall|k: Seq<u8>| #[trigger] self.has_handle(k) implies self.is_dir(k) by {
                assert(old(self).has_handle(k));
                assert(old(self).is_dir(k));
            }
            assert forall|id: Seq<u8>|
                #[trigger] old(self).is_dir(id) && !is_prefix_of(virtual_path@, id) && id
                != vroot_id() implies self.dir_kids(id) == old(self).dir_kids(id) by {
                assert(m1.is_dir(id));
                assert(m1.dir_kids(id) == old(self).dir_kids(id));
            }
            assert(self.is_dir(virtual_path@));
            assert forall|m: Seq<u8>|
                #[trigger] self.mounts().has(m) <==> old(self).mounts().has(m) || m
                == virtual_path@ by {
                assert(m1.mounts().has(m) == old(self).mounts().has(m));
            }
        }
        let ghost base = *self;
        let mut entries: Vec<(PathU8, PathU8)> = Vec::new();
        let mut j: usize = 0;
        proof {
            assert(crate::handles::vec_pairs(entries@) =~= Seq::<(Seq<u8>, Seq<u8>)>::empty());
        }
        while j < raw_names.len()
            invariant
                j <= raw_names@.len(),
                self.dir_tree.wf(),
                self.file_cache.wf(),
                self.archive_cache == base.archive_cache,
                forall|id: Seq<u8>| #[trigger] self.is_dir(id) ==> !self.is_file(id),
                forall|k: Seq<u8>| #[trigger] self.has_handle(k) ==> self.is_dir(k),
                self.is_dir(vroot_id()),
                self.is_dir(virtual_path@),
                self.mounts() == base.mounts(),
                forall|id: Seq<u8>| #[trigger] base.is_dir(id) ==> self.is_dir(id),
                forall|id: Seq<u8>|
                    #[trigger] self.is_dir(id) ==> base.is_dir(id) || is_prefix_of(
                        virtual_path@,
                        id,
                    ),
                forall|id: Seq<u8>|
                    #[trigger] base.is_dir(id) && !is_prefix_of(virtual_path@, id) ==> self.dir_kids(
                        id,
                    ) == base.dir_kids(id),
                forall|f: Seq<u8>|
                    #[trigger] self.is_file(f) ==> base.is_file(f) && self.file_val(f)
                        == base.file_val(f),
                crate::assoc::unique_keys(crate::handles::vec_pairs(entries@)),
                forall|t: int|
                    0 <= t < j && crate::paths::canon_comps((#[trigger] raw_names@[t])@).len() > 0
                        ==> crate::assoc::rec_contains(
                        crate::handles::vec_pairs(entries@),
                        canon_of(raw_names@[t]@),
                    ),
                forall|p: (Seq<u8>, Seq<u8>)|
                    #[trigger] crate::handles::vec_pairs(entries@).contains(p) ==> exists|t: int|
                        0 <= t < j && (#[trigger] raw_names@[t])@ == p.1 && p.0 == canon_of(p.1),
                forall|n: Seq<u8>|
                    #[trigger] self.dir_kids(virtual_path@).has(n) <==> exists|t: int|
                        0 <= t < j && Self::gains(virtual_path@, (#[trigger] raw_names@[t])@) && n
                            == crate::paths::canon_comps(raw_names@[t]@)[0],
                forall|t: int, d: int|
                    #![trigger crate::paths::canon_comps(raw_names@[t]@).take(d)]
                    0 <= t < j && 0 <= d < crate::paths::canon_comps(raw_names@[t]@).len()
                        && Self::chain_ok(
                        virtual_path@,
                        crate::paths::canon_comps(raw_names@[t]@),
                        d,
                    ) ==> self.is_dir(
                        target_of(virtual_path@, crate::paths::canon_comps(raw_names@[t]@).take(d)),
                    ) && self.dir_kids(
                        target_of(virtual_path@, crate::paths::canon_comps(raw_names@[t]@).take(d)),
                    ).has(crate::paths::canon_comps(raw_names@[t]@)[d]),
            decreases raw_names.len() - j,
        {
            let ghost pre = *self;
            let ghost epre0 = crate::handles::vec_pairs(entries@);
            let comps = crate::paths::split_components(&raw_names[j]);
            proof {
                crate::paths::lemma_canon_valid(raw_names@[j as int]@);
                assert forall|t: int| 0 <= t < comps@.len() implies (#[trigger] comps@[t])@.len()
                    > 0 by {
                    assert(crate::paths::view_comps(comps@)[t] == comps@[t]@);
                    assert(crate::paths::valid_comp(
                        crate::paths::canon_comps(raw_names@[j as int]@)[t],
                    ));
                }
            }
            if comps.len() > 0 {
                self.grow_under(virtual_path, &comps);
                let ckey = crate::paths::join_components(&comps);
                proof {
                    crate::paths::lemma_canon_join(
                        crate::paths::canon_comps(raw_names@[j as int]@),
                    );
                    assert(ckey@ == canon_of(raw_names@[j as int]@));
                }
                if !crate::handles::entries_contain(&entries, &ckey) {
                    entries.push((ckey, raw_names[j].clone()));
                    proof {
                        assert(crate::handles::vec_pairs(entries@) =~= epre0.push(
                            (canon_of(raw_names@[j as int]@), raw_names@[j as int]@),
                        ));
                        crate::assoc::lemma_push_fresh(
                            epre0,
                            canon_of(raw_names@[j as int]@),
                            raw_names@[j as int]@,
                        );
                    }
                }
            }
            proof {
                let rawj = raw_names@[j as int]@;
                let cc = crate::paths::canon_comps(rawj);
                let pairs = crate::handles::vec_pairs(entries@);
                let pushed_pair = (canon_of(rawj), rawj);
                assert(pairs == epre0 || pairs == epre0.push(pushed_pair));
                assert forall|p: (Seq<u8>, Seq<u8>)| #[trigger] pairs.contains(p) implies exists|
                    t: int,
                |
                    0 <= t < j + 1 && (#[trigger] raw_names@[t])@ == p.1 && p.0 == canon_of(
                        p.1,
                    ) by {
                    let idx = choose|idx: int| 0 <= idx < pairs.len() && pairs[idx] == p;
                    if pairs == epre0 || idx < epre0.len() {
                        assert(epre0[idx] == p);
                        assert(epre0.contains(p));
                        let t = choose|t: int|
                            0 <= t < j && (#[trigger] raw_names@[t])@ == p.1 && p.0 == canon_of(
                                p.1,
                            );
                        assert(0 <= t < j + 1 && raw_names@[t]@ == p.1 && p.0 == canon_of(p.1));
                    } else {
                        assert(p == pushed_pair);
                        assert(0 <= j < j + 1 && raw_names@[j as int]@ == p.1 && p.0 == canon_of(
                            p.1,
                        ));
                    }
                }
                assert forall|t: int|
                    0 <= t < j + 1 && crate::paths::canon_comps(
                        (#[trigger] raw_names@[t])@,
                    ).len() > 0 implies crate::assoc::rec_contains(
                    pairs,
                    canon_of(raw_names@[t]@),
                ) by {
                    if t < j {
                        assert(crate::assoc::rec_contains(epre0, canon_of(raw_names@[t]@)));
                        if pairs == epre0 {
                        } else {
                            let w = choose|w: int|
                                0 <= w < epre0.len() && (#[trigger] epre0[w]).0 == canon_of(
                                    raw_names@[t]@,
                                );
                            assert((#[trigger] pairs[w]).0 == canon_of(raw_names@[t]@));
                        }
                    } else {
                        assert(cc.len() > 0);
                        assert(crate::assoc::rec_contains(pairs, canon_of(rawj)));
                    }
                }
                assert forall|n: Seq<u8>|
                    #[trigger] self.dir_kids(virtual_path@).has(n) <==> exists|t: int|
                        0 <= t < j + 1 && Self::gains(virtual_path@, (#[trigger] raw_names@[t])@)
                            && n == crate::paths::canon_comps(raw_names@[t]@)[0] by {
                    if self.dir_kids(virtual_path@).has(n) {
                        if pre.dir_kids(virtual_path@).has(n) {
                            let t = choose|t: int|
                                0 <= t < j && Self::gains(
                                    virtual_path@,
                                    (#[trigger] raw_names@[t])@,
                                ) && n == crate::paths::canon_comps(raw_names@[t]@)[0];
                            assert(0 <= t < j + 1 && Self::gains(
                                virtual_path@,
                                (#[trigger] raw_names@[t])@,
                            ) && n == crate::paths::canon_comps(raw_names@[t]@)[0]);
                        } else {
                            assert(cc.len() > 0 && n == cc[0]);
                            assert(Self::gains(virtual_path@, rawj));
                            assert(0 <= j < j + 1 && Self::gains(
                                virtual_path@,
                                (#[trigger] raw_names@[j as int])@,
                            ) && n == crate::paths::canon_comps(raw_names@[j as int]@)[0]);
                        }
                    }
                    if exists|t: int|
                        0 <= t < j + 1 && Self::gains(virtual_path@, (#[trigger] raw_names@[t])@)
                            && n == crate::paths::canon_comps(raw_names@[t]@)[0] {
                        let t = choose|t: int|
                            0 <= t < j + 1 && Self::gains(virtual_path@, (#[trigger] raw_names@[t])@)
                                && n == crate::paths::canon_comps(raw_names@[t]@)[0];
                        if t < j {
                            assert(pre.dir_kids(virtual_path@).has(n));
                            assert(self.dir_kids(virtual_path@).has(n));
                        } else {
                            assert(self.dir_kids(virtual_path@).has(n));
                        }
                    }
                }
                assert forall|t: int, d: int|
                    #![trigger crate::paths::canon_comps(raw_names@[t]@).take(d)]
                    0 <= t < j + 1 && 0 <= d < crate::paths::canon_comps(raw_names@[t]@).len()
                        && Self::chain_ok(
                        virtual_path@,
                        crate::paths::canon_comps(raw_names@[t]@),
                        d,
                    ) implies self.is_dir(
                    target_of(virtual_path@, crate::paths::canon_comps(raw_names@[t]@).take(d)),
                ) && self.dir_kids(
                    target_of(virtual_path@, crate::paths::canon_comps(raw_names@[t]@).take(d)),
                ).has(crate::paths::canon_comps(raw_names@[t]@)[d]) by {
                    let cct = crate::paths::canon_comps(raw_names@[t]@);
                    let node = target_of(virtual_path@, cct.take(d));
                    if t < j {
                        assert(pre.is_dir(node) && pre.dir_kids(node).has(cct[d]));
                        if cc.len() > 0 {
                            assert(self.is_dir(node) && self.dir_kids(node).has(cct[d]));
                        } else {
                            assert(*self == pre);
                        }
                    } else {
                        assert(crate::paths::view_comps(comps@) == cct);
                        assert(self.is_dir(node) && self.dir_kids(node).has(comps@[d]@));
                    }
                }
            }
            j = j + 1;
        }
        let handle = ArchiveHandle { reader, entries, is_nested };
        let ghost hg = handle;
        let ghost g2 = *self;
        proof {
            assert(!self.has_handle(virtual_path@)) by {
                if self.has_handle(virtual_path@) {
                    assert(base.has_handle(virtual_path@) == self.has_handle(virtual_path@));
                    assert(old(self).has_handle(virtual_path@));
                    assert(old(self).is_dir(virtual_path@));
                }
            }
        }
        self.archive_cache.put(virtual_path, handle);
        proof {
            assert(self.dir_tree == g2.dir_tree);
            assert(self.file_cache == g2.file_cache);
            assert forall|k: Seq<u8>| #[trigger] self.has_handle(k) implies self.is_dir(k) by {
                if k != virtual_path@ {
                    assert(g2.has_handle(k));
                    assert(g2.is_dir(k));
                } else {
                    assert(g2.is_dir(virtual_path@));
                }
            }
            assert forall|id: Seq<u8>| #[trigger] self.is_dir(id) implies !self.is_file(id) by {
                assert(g2.is_dir(id));
                assert(!g2.is_file(id));
            }
            assert(crate::handles::entry_pairs(hg) == crate::handles::vec_pairs(hg.entries@));
            assert(self.handle_entries(virtual_path@) == crate::handles::entry_pairs(hg));
            assert forall|n: Seq<u8>|
                #[trigger] self.dir_kids(virtual_path@).has(n) <==> exists|j: int|
                    0 <= j < raw_names@.len() && Self::gains(
                        virtual_path@,
                        (#[trigger] raw_names@[j])@,
                    ) && n == crate::paths::canon_comps(raw_names@[j]@)[0] by {
                assert(self.dir_kids(virtual_path@) == g2.dir_kids(virtual_path@));
            }
            assert forall|j2: int, d: int|
                #![trigger crate::paths::canon_comps(raw_names@[j2]@).take(d)]
                0 <= j2 < raw_names@.len() && 0 <= d < crate::paths::canon_comps(
                    raw_names@[j2]@,
                ).len() && Self::chain_ok(
                    virtual_path@,
                    crate::paths::canon_comps(raw_names@[j2]@),
                    d,
                ) implies self.is_dir(
                target_of(virtual_path@, crate::paths::canon_comps(raw_names@[j2]@).take(d)),
            ) && self.dir_kids(
                target_of(virtual_path@, crate::paths::canon_comps(raw_names@[j2]@).take(d)),
            ).has(crate::paths::canon_comps(raw_names@[j2]@)[d]) by {
                let node = target_of(
                    virtual_path@,
                    crate::paths::canon_comps(raw_names@[j2]@).take(d),
                );
                assert(g2.is_dir(node) && g2.dir_kids(node).has(
                    crate::paths::canon_comps(raw_names@[j2]@)[d],
                ));
                assert(self.dir_tree == g2.dir_tree);
            }
            assert forall|id: Seq<u8>| #[trigger] old(self).is_dir(id) implies self.is_dir(id) by {
                assert(base.is_dir(id));
                assert(g2.is_dir(id));
            }
            assert forall|id: Seq<u8>|
                #[trigger] self.is_dir(id) implies old(self).is_dir(id) || is_prefix_of(
                virtual_path@,
                id,
            ) by {
                assert(g2.is_dir(id));
                assert(base.is_dir(id) || is_prefix_of(virtual_path@, id));
                if base.is_dir(id) && !is_prefix_of(virtual_path@, id) {
                    assert(old(self).is_dir(id) || id == virtual_path@ || id == vroot_id());
                    assert(is_prefix_of(virtual_path@, virtual_path@));
                    assert(old(self).is_dir(vroot_id()));
                }
            }
            assert forall|id: Seq<u8>|
                #[trigger] old(self).is_dir(id) && !is_prefix_of(virtual_path@, id) && id
                != vroot_id() implies self.dir_kids(id) == old(self).dir_kids(id) by {
                assert(base.is_dir(id));
                assert(base.dir_kids(id) == old(self).dir_kids(id));
                assert(g2.dir_kids(id) == base.dir_kids(id));
            }
            assert forall|f: Seq<u8>|
                #[trigger] self.is_file(f) implies old(self).is_file(f) && self.file_val(f) == old(self).file_val(f) by {
                assert(g2.is_file(f));
                assert(base.is_file(f));
                assert(base.file_val(f) == old(self).file_val(f));
                assert(g2.file_val(f) == base.file_val(f));
            }
            assert forall|m: Seq<u8>|
                #[trigger] self.mounts().has(m) <==> old(self).mounts().has(m) || m
                == virtual_path@ by {
                assert(self.mounts() == g2.mounts());
                assert(g2.mounts() == base.mounts());
            }
        }
        match self.dir_tree.child_names(virtual_path) {
            Some(ns) => ns,
            None => {
                proof {
                    assert(false);
                }
                Vec::new()
            },
        }
    }


    /// Mounts the archive held in `archive_bytes` at the virtual path.  If the
    /// path already has a directory listing the call is idempotent: the
    /// existing listing is returned and nothing is opened or changed (a
    /// previously evicted reader is not restored; a descent that needs it
    /// reports a failure until the mount is invalidated and mounted again).
    /// Bytes that do not parse as an archive leave the cache unchanged and are
    /// reported as a decode failure.  A stale cached leaf at the mount
    /// identity is superseded by the listing.
    pub fn set_archive(&mut self, virtual_path: &PathU8, archive_bytes: &Vec<u8>) -> (r: Result<
        NodeContents,
        CacheError,
    >)
        requires
            old(self).wf(),
        ensures
            final(self).wf(),
            old(self).is_dir(canon_of(virtual_path@)) ==> *final(self) == *old(self) && r is Ok
                && r->Ok_0 is Dir && names_match(
                r->Ok_0->Dir_0@,
                old(self).dir_kids(canon_of(virtual_path@)),
            ),
            !old(self).is_dir(canon_of(virtual_path@)) && zip_entries(archive_bytes@) is None ==> r
                == Result::<NodeContents, CacheError>::Err(CacheError::DecodeError) && *final(self)
                == *old(self),
            !old(self).is_dir(canon_of(virtual_path@)) && zip_entries(archive_bytes@) is Some ==> {
                let vid = canon_of(virtual_path@);
                let names = zip_entries(archive_bytes@)->Some_0;
                &&& r is Ok
                &&& r->Ok_0 is Dir
                &&& final(self).is_dir(vid)
                &&& names_match(r->Ok_0->Dir_0@, final(self).dir_kids(vid))
                &&& (forall|n: Seq<u8>|
                    #[trigger] final(self).dir_kids(vid).has(n) <==> exists|j: int|
                        0 <= j < names.len() && Self::gains(vid, #[trigger] names[j]) && n
                            == crate::paths::canon_comps(names[j])[0])
                &&& (forall|m: Seq<u8>|
                    #[trigger] final(self).mounts().has(m) <==> old(self).mounts().has(m) || m
                        == vid)
                &&& final(self).has_handle(vid)
                &&& final(self).handle_src(vid) == archive_bytes@
                &&& final(self).handle_nested(vid) == false
                &&& (forall|id: Seq<u8>| #[trigger] old(self).is_dir(id) ==> final(self).is_dir(id))
                &&& (forall|id: Seq<u8>|
                    #[trigger] final(self).is_dir(id) ==> old(self).is_dir(id) || is_prefix_of(
                        vid,
                        id,
                    ))
                &&& (forall|f: Seq<u8>|
                    #[trigger] final(self).is_file(f) ==> old(self).is_file(f) && final(self).file_val(f) == old(self).file_val(f))
                &&& (forall|j: int|
                    0 <= j < names.len() && crate::paths::canon_comps(#[trigger] names[j]).len()
                        > 0 ==> crate::assoc::rec_contains(
                        final(self).handle_entries(vid),
                        canon_of(names[j]),
                    ))
                &&& (forall|p: (Seq<u8>, Seq<u8>)|
                    #[trigger] final(self).handle_entries(vid).contains(p) ==> exists|j: int|
                        0 <= j < names.len() && #[trigger] names[j] == p.1 && p.0 == canon_of(p.1))
                &&& (forall|j: int, d: int|
                    #![trigger crate::paths::canon_comps(names[j]).take(d)]
                    0 <= j < names.len() && 0 <= d < crate::paths::canon_comps(names[j]).len()
                        && Self::chain_ok(vid, crate::paths::canon_comps(names[j]), d) ==> final(self).is_dir(target_of(vid, crate::paths::canon_comps(names[j]).take(d))) && final(self).dir_kids(target_of(vid, crate::paths::canon_comps(names[j]).take(d))).has(
                        crate::paths::canon_comps(names[j])[d],
                    ))
            },
    {
        let vid = path_to_id(virtual_path);
        proof {
            crate::paths::lemma_canon_valid(virtual_path@);
            crate::paths::lemma_canon_join(crate::paths::canon_comps(virtual_path@));
            assert(canon_of(vid@) == vid@);
        }
        match self.dir_tree.child_names(&vid) {
            Some(ns) => {
                return Ok(NodeContents::Dir(ns));
            },
            None => {},
        }
        proof {
            // the virtual root always has a listing, so reaching this point
            // means the mount identity is not the sentinel
            assert(vid@ != vroot_id());
        }
        match crate::ziparc::open_archive(archive_bytes) {
            None => Err(CacheError::DecodeError),
            Some(opened) => {
                let (reader, names) = opened;
                let ghost g0 = *self;
                self.file_cache.remove(&vid);
                let ghost g1 = *self;
                proof {
                    assert(self.dir_tree == g0.dir_tree);
                    assert(self.archive_cache == g0.archive_cache);
                    assert forall|id: Seq<u8>| #[trigger] self.is_dir(id) implies !self.is_file(
                        id,
                    ) by {
                        assert(g0.is_dir(id));
                        assert(!g0.is_file(id));
                    }
                    assert forall|k: Seq<u8>| #[trigger] self.has_handle(k) implies self.is_dir(
                        k,
                    ) by {
                        assert(g0.has_handle(k));
                        assert(g0.is_dir(k));
                    }
                    assert(!self.is_dir(vid@));
                    assert(!self.is_file(vid@));
                }
                let listing = self.set_archive_internal(&vid, reader, names, false);
                proof {
                    let namesv = zip_entries(archive_bytes@)->Some_0;
                    assert forall|n: Seq<u8>|
                        #[trigger] self.dir_kids(vid@).has(n) <==> exists|j: int|
                            0 <= j < namesv.len() && Self::gains(vid@, #[trigger] namesv[j]) && n
                                == crate::paths::canon_comps(namesv[j])[0] by {
                        if self.dir_kids(vid@).has(n) {
                            let j = choose|j: int|
                                0 <= j < names@.len() && Self::gains(
                                    vid@,
                                    (#[trigger] names@[j])@,
                                ) && n == crate::paths::canon_comps(names@[j]@)[0];
                            assert(namesv[j] == names@[j]@);
                            assert(0 <= j < namesv.len() && Self::gains(vid@, #[trigger] namesv[j])
                                && n == crate::paths::canon_comps(namesv[j])[0]);
                        }
                        if exists|j: int|
                            0 <= j < namesv.len() && Self::gains(vid@, #[trigger] namesv[j]) && n
                                == crate::paths::canon_comps(namesv[j])[0] {
                            let j = choose|j: int|
                                0 <= j < namesv.len() && Self::gains(vid@, #[trigger] namesv[j])
                                    && n == crate::paths::canon_comps(namesv[j])[0];
                            assert(names@[j]@ == namesv[j]);
                            assert(0 <= j < names@.len() && Self::gains(
                                vid@,
                                (#[trigger] names@[j])@,
                            ) && n == crate::paths::canon_comps(names@[j]@)[0]);
                        }
                    }
                    assert forall|id: Seq<u8>| #[trigger] old(self).is_dir(id) implies self.is_dir(
                        id,
                    ) by {
                        assert(g1.is_dir(id));
                    }
                    assert forall|f: Seq<u8>|
                        #[trigger] self.is_file(f) implies old(self).is_file(f) && self.file_val(f)
                        == old(self).file_val(f) by {
                        assert(g1.is_file(f));
                        assert(g1.file_val(f) == self.file_val(f));
                    }
                    assert forall|m: Seq<u8>|
                        #[trigger] self.mounts().has(m) <==> old(self).mounts().has(m) || m
                        == vid@ by {
                        assert(g1.mounts() == g0.mounts());
                    }
                    assert forall|j: int|
                        0 <= j < namesv.len() && crate::paths::canon_comps(
                            #[trigger] namesv[j],
                        ).len() > 0 implies crate::assoc::rec_contains(
                        self.handle_entries(vid@),
                        canon_of(namesv[j]),
                    ) by {
                        assert(names@[j]@ == namesv[j]);
                        assert(crate::paths::canon_comps((#[trigger] names@[j])@).len() > 0);
                    }
                    assert forall|p: (Seq<u8>, Seq<u8>)|
                        #[trigger] self.handle_entries(vid@).contains(p) implies exists|j: int|
                        0 <= j < namesv.len() && #[trigger] namesv[j] == p.1 && p.0 == canon_of(
                            p.1,
                        ) by {
                        let j = choose|j: int|
                            0 <= j < names@.len() && (#[trigger] names@[j])@ == p.1 && p.0
                                == canon_of(p.1);
                        assert(namesv[j] == p.1);
                        assert(0 <= j < namesv.len() && #[trigger] namesv[j] == p.1 && p.0
                            == canon_of(p.1));
                    }
                    assert forall|j: int, d: int|
                        #![trigger crate::paths::canon_comps(namesv[j]).take(d)]
                        0 <= j < namesv.len() && 0 <= d < crate::paths::canon_comps(
                            namesv[j],
                        ).len() && Self::chain_ok(
                            vid@,
                            crate::paths::canon_comps(namesv[j]),
                            d,
                        ) implies self.is_dir(
                        target_of(vid@, crate::paths::canon_comps(namesv[j]).take(d)),
                    ) && self.dir_kids(
                        target_of(vid@, crate::paths::canon_comps(namesv[j]).take(d)),
                    ).has(crate::paths::canon_comps(namesv[j])[d]) by {
                        assert(names@[j]@ == namesv[j]);
                        assert(crate::paths::canon_comps((#[trigger] names@[j])@).take(d)
                            == crate::paths::canon_comps(namesv[j]).take(d));
                    }
                }
                Ok(NodeContents::Dir(listing))
            },
        }
    }

    /// Attempts every split of `rel_comps` under the mounted archive at
    /// `virtual_path`, longest entry name first: a matching non-archive entry
    /// with nothing left lands in the byte cache; a matching archive entry is
    /// mounted as a nested archive and the descent continues inside it.  A
    /// directory node in the way of a nested mount is a conflict.
    #[verifier::loop_isolation(false)]
    fn recursive_try_at(&mut self, virtual_path: &PathU8, rel_comps: &Vec<PathU8>) -> (r: Result<
        (),
        CacheError,
    >)
        requires
            old(self).wf(),
            virtual_path@ == canon_of(virtual_path@),
            virtual_path@ != vroot_id(),
            old(self).has_handle(virtual_path@),
            crate::paths::valid_comps(crate::paths::view_comps(rel_comps@)),
            !old(self).cached(target_of(virtual_path@, crate::paths::view_comps(rel_comps@))),
        ensures
            final(self).wf(),
            r is Ok ==> final(self).cached(
                target_of(virtual_path@, crate::paths::view_comps(rel_comps@)),
            ),
            r is Err ==> !final(self).cached(
                target_of(virtual_path@, crate::paths::view_comps(rel_comps@)),
            ),
            direct_hit(
                old(self),
                virtual_path@,
                crate::paths::join_comps(crate::paths::view_comps(rel_comps@)),
            ) ==> r is Ok && final(self).is_file(
                target_of(virtual_path@, crate::paths::view_comps(rel_comps@)),
            ) && final(self).file_val(
                target_of(virtual_path@, crate::paths::view_comps(rel_comps@)),
            ) == direct_data(
                old(self),
                virtual_path@,
                crate::paths::join_comps(crate::paths::view_comps(rel_comps@)),
            ),
            no_split_matches(old(self), virtual_path@, crate::paths::view_comps(rel_comps@))
                ==> r == Result::<(), CacheError>::Err(CacheError::NotFound),
            mount_hit(
                old(self),
                virtual_path@,
                crate::paths::join_comps(crate::paths::view_comps(rel_comps@)),
            ) ==> r is Ok && final(self).is_dir(
                target_of(virtual_path@, crate::paths::view_comps(rel_comps@)),
            ),
            forall|k: int|
                #[trigger] conflict_owed(
                    old(self),
                    virtual_path@,
                    crate::paths::view_comps(rel_comps@),
                    k,
                ) ==> r == Result::<(), CacheError>::Err(CacheError::NestedArchiveConflict),
            forall|k: int|
                #[trigger] leaf_suffix_owed(
                    old(self),
                    virtual_path@,
                    crate::paths::view_comps(rel_comps@),
                    k,
                ) ==> r == Result::<(), CacheError>::Err(CacheError::NotAnArchive),
            forall|k: int|
                #[trigger] bad_nested_owed(
                    old(self),
                    virtual_path@,
                    crate::paths::view_comps(rel_comps@),
                    k,
                ) ==> r == Result::<(), CacheError>::Err(CacheError::DecodeError) && !final(self).is_dir(target_of(virtual_path@, crate::paths::view_comps(rel_comps@).take(k))),
        decreases rel_comps@.len(),
    {
        let ghost allcs = crate::paths::view_comps(rel_comps@);
        let ghost target = target_of(virtual_path@, allcs);
        let ghost relc = crate::paths::join_comps(allcs);
        let ghost owed = direct_hit(old(self), virtual_path@, relc);
        let ghost nf = no_split_matches(old(self), virtual_path@, allcs);
        let ghost mhit = mount_hit(old(self), virtual_path@, relc);
        proof {
            crate::paths::lemma_canon_join(allcs);
        }
        let n = rel_comps.len();
        proof {
            assert(n > 0) by {
                if n == 0 {
                    assert(allcs =~= Seq::<Seq<u8>>::empty());
                    assert(crate::paths::join_comps(allcs) =~= Seq::<u8>::empty());
                    assert(target == virtual_path@);
                    assert(old(self).is_dir(virtual_path@));
                }
            }
        }
        let mut i: usize = 0;
        while i < n
            invariant
                i <= n,
                n == rel_comps@.len(),
                self.wf(),
                self.dir_tree == old(self).dir_tree,
                self.file_cache == old(self).file_cache,
                self.has_handle(virtual_path@),
                !self.cached(target),
                forall|k: Seq<u8>| #[trigger] self.has_handle(k) <==> old(self).has_handle(k),
                forall|k: Seq<u8>|
                    #[trigger] self.has_handle(k) ==> self.handle_src(k) == old(self).handle_src(k)
                        && self.handle_entries(k) == old(self).handle_entries(k)
                        && self.handle_nested(k) == old(self).handle_nested(k),
                i > 0 ==> !owed,
                i > 0 ==> !mhit,
                forall|k: int|
                    #[trigger] conflict_owed(old(self), virtual_path@, allcs, k) ==> n - i >= k,
                forall|k: int|
                    #[trigger] leaf_suffix_owed(old(self), virtual_path@, allcs, k) ==> n - i >= k,
                forall|k: int|
                    #[trigger] bad_nested_owed(old(self), virtual_path@, allcs, k) ==> n - i >= k,
            decreases n - i,
        {
            let take_n = n - i;
            let partial_comps = crate::paths::comps_prefix(rel_comps, take_n);
            let partial = crate::paths::join_components(&partial_comps);
            let full_virtual = join_may_empty(virtual_path, &partial);
            let ghost headcs = allcs.take(take_n as int);
            let ghost tailcs = allcs.skip(take_n as int);
            proof {
                assert(headcs + tailcs =~= allcs);
                assert(partial@ == crate::paths::join_comps(headcs));
                assert(full_virtual@ == target_of(virtual_path@, headcs));
                crate::paths::lemma_join_assoc(virtual_path@, headcs, tailcs);
                assert(target == crate::paths::spec_join_may_empty(
                    full_virtual@,
                    crate::paths::join_comps(tailcs),
                ));
                crate::paths::lemma_canon_join(headcs);
                crate::paths::lemma_join_canon(virtual_path@, partial@);
                assert(full_virtual@ == canon_of(full_virtual@));
                if i == 0 {
                    assert(headcs =~= allcs);
                    assert(partial@ == relc);
                }
            }
            if i > 0 && self.dir_tree.contains_key(&full_virtual) {
                // a real directory node cannot double as a nested-archive node
                proof {
                    assert(!nf) by {
                        if nf {
                            assert(!old(self).is_dir(target_of(virtual_path@, allcs.take(
                                take_n as int,
                            ))));
                        }
                    }
                    assert(old(self).is_dir(target_of(virtual_path@, allcs.take(take_n as int))));
                    assert forall|k: int| #[trigger]
                        leaf_suffix_owed(old(self), virtual_path@, allcs, k) implies false by {
                        if k < take_n {
                        } else {
                            assert(k == take_n);
                        }
                    }
                    assert forall|k: int| #[trigger]
                        bad_nested_owed(old(self), virtual_path@, allcs, k) implies false by {
                        if k < take_n {
                        } else {
                            assert(k == take_n);
                        }
                    }
                }
                return Err(CacheError::NestedArchiveConflict);
            }
            let ghost pre_lookup = *self;
            let raw_opt = self.archive_cache.entry_raw(virtual_path, &partial);
            proof {
                assert forall|k: Seq<u8>| #[trigger] self.has_handle(k) <==> old(self).has_handle(
                    k,
                ) by {
                    assert(self.has_handle(k) <==> pre_lookup.has_handle(k));
                }
                assert forall|k: Seq<u8>| #[trigger] self.has_handle(k) implies self.handle_src(k)
                    == old(self).handle_src(k) && self.handle_entries(k) == old(self).handle_entries(k) && self.handle_nested(k) == old(self).handle_nested(k) by {
                    assert(pre_lookup.has_handle(k));
                }
                assert forall|k: Seq<u8>| #[trigger] self.has_handle(k) implies self.is_dir(k) by {
                    assert(pre_lookup.has_handle(k));
                    assert(pre_lookup.is_dir(k));
                }
                assert forall|id: Seq<u8>| #[trigger] self.is_dir(id) implies !self.is_file(id) by {
                    assert(pre_lookup.is_dir(id));
                    assert(!pre_lookup.is_file(id));
                }
                assert(self.is_dir(vroot_id()));
            }
            match raw_opt {
                None => {
                    proof {
                        assert(!owed && !mhit) by {
                            if (owed || mhit) && i == 0 {
                                assert(crate::assoc::rec_contains(
                                    pre_lookup.handle_entries(virtual_path@),
                                    partial@,
                                ));
                            }
                        }
                        assert(!crate::assoc::rec_contains(
                            old(self).handle_entries(virtual_path@),
                            partial@,
                        ));
                        assert forall|k: int| #[trigger]
                            conflict_owed(old(self), virtual_path@, allcs, k) implies n - (i + 1)
                            >= k by {
                            if k == take_n {
                                assert(i > 0);
                                assert(!self.is_dir(full_virtual@));
                                assert(!old(self).is_dir(target_of(virtual_path@, allcs.take(k))));
                            }
                        }
                        assert forall|k: int| #[trigger]
                            leaf_suffix_owed(old(self), virtual_path@, allcs, k) implies n - (i
                            + 1) >= k by {
                            if k == take_n {
                            }
                        }
                        assert forall|k: int| #[trigger]
                            bad_nested_owed(old(self), virtual_path@, allcs, k) implies n - (i + 1)
                            >= k by {
                            if k == take_n {
                            }
                        }
                    }
                },
                Some(raw) => {
                    proof {
                        assert(!nf) by {
                            if nf {
                                assert(!crate::assoc::rec_contains(
                                    old(self).handle_entries(virtual_path@),
                                    crate::paths::join_comps(allcs.take(take_n as int)),
                                ));
                                assert(pre_lookup.has_handle(virtual_path@));
                            }
                        }
                        assert(pre_lookup.has_handle(virtual_path@));
                        assert(crate::assoc::rec_contains(
                            old(self).handle_entries(virtual_path@),
                            partial@,
                        ));
                        assert(raw@ == crate::assoc::rec_val(
                            old(self).handle_entries(virtual_path@),
                            partial@,
                        ));
                        assert forall|k: int| #[trigger]
                            leaf_suffix_owed(old(self), virtual_path@, allcs, k) implies k
                            == take_n by {
                            if k < take_n {
                                assert(!crate::assoc::rec_contains(
                                    old(self).handle_entries(virtual_path@),
                                    crate::paths::join_comps(allcs.take(take_n as int)),
                                ));
                            }
                        }
                        assert forall|k: int| #[trigger]
                            bad_nested_owed(old(self), virtual_path@, allcs, k) implies k
                            == take_n by {
                            if k < take_n {
                                assert(!crate::assoc::rec_contains(
                                    old(self).handle_entries(virtual_path@),
                                    crate::paths::join_comps(allcs.take(take_n as int)),
                                ));
                            }
                        }
                        assert forall|k: int| #[trigger]
                            conflict_owed(old(self), virtual_path@, allcs, k) implies false by {
                            if k < take_n {
                                assert(!crate::assoc::rec_contains(
                                    old(self).handle_entries(virtual_path@),
                                    crate::paths::join_comps(allcs.take(take_n as int)),
                                ));
                            } else {
                                assert(k == take_n && k < n);
                                assert(i > 0);
                                assert(!self.is_dir(full_virtual@));
                                assert(!old(self).is_dir(target_of(virtual_path@, allcs.take(k))));
                            }
                        }
                    }
                    let ghost pre_read = *self;
                    let data = self.archive_cache.read_from(virtual_path, &raw);
                    proof {
                        assert forall|k: Seq<u8>| #[trigger] self.has_handle(k) <==> old(self).has_handle(k) by {
                            assert(self.has_handle(k) <==> pre_read.has_handle(k));
                        }
                        assert forall|k: Seq<u8>| #[trigger]
                            self.has_handle(k) implies self.handle_src(k) == old(self).handle_src(
                            k,
                        ) && self.handle_entries(k) == old(self).handle_entries(k)
                            && self.handle_nested(k) == old(self).handle_nested(k) by {
                            assert(pre_read.has_handle(k));
                        }
                        assert forall|k: Seq<u8>| #[trigger]
                            self.has_handle(k) implies self.is_dir(k) by {
                            assert(pre_read.has_handle(k));
                            assert(pre_read.is_dir(k));
                        }
                        assert forall|id: Seq<u8>| #[trigger]
                            self.is_dir(id) implies !self.is_file(id) by {
                            assert(pre_read.is_dir(id));
                            assert(!pre_read.is_file(id));
                        }
                        assert(self.is_dir(vroot_id()));
                    }
                    match data {
                        None => {
                            proof {
                                assert(pre_read.has_handle(virtual_path@));
                                assert(pre_read.handle_src(virtual_path@) == old(self).handle_src(
                                    virtual_path@,
                                ));
                                assert(!owed && !mhit) by {
                                    if (owed || mhit) && i == 0 {
                                        assert(raw_opt->Some_0@ == crate::assoc::rec_val(
                                            old(self).handle_entries(virtual_path@),
                                            relc,
                                        ));
                                    }
                                }
                                assert forall|k: int| #[trigger]
                                    leaf_suffix_owed(old(self), virtual_path@, allcs, k) implies
                                    false by {
                                    assert(k == take_n);
                                }
                                assert forall|k: int| #[trigger]
                                    bad_nested_owed(old(self), virtual_path@, allcs, k) implies
                                    false by {
                                    assert(k == take_n);
                                }
                            }
                            return Err(CacheError::IoError);
                        },
                        Some(binary) => {
                            let arch = crate::sniff::is_archive_bytes(&partial, &binary);
                            proof {
                                if i == 0 {
                                    assert(raw_opt->Some_0@ == crate::assoc::rec_val(
                                        old(self).handle_entries(virtual_path@),
                                        relc,
                                    ));
                                    assert(pre_read.handle_src(virtual_path@) == old(self).handle_src(virtual_path@));
                                }
                                if owed && i == 0 {
                                    assert(!arch);
                                    assert(binary@ == direct_data(old(self), virtual_path@, relc));
                                }
                                if mhit && i == 0 {
                                    assert(arch);
                                    assert(crate::ziparc::zip_entries(binary@) is Some);
                                }
                            }
                            if !arch {
                                if i == 0 {
                                    proof {
                                        assert(tailcs =~= Seq::<Seq<u8>>::empty());
                                        assert(target == full_virtual@);
                                    }
                                    let ghost pre_put = *self;
                                    self.file_cache.put(&full_virtual, binary);
                                    proof {
                                        assert forall|id: Seq<u8>| #[trigger]
                                            self.is_dir(id) implies !self.is_file(id) by {
                                            assert(pre_put.is_dir(id));
                                            if id != full_virtual@ {
                                                assert(!pre_put.is_file(id));
                                            } else {
                                                assert(!pre_put.cached(target));
                                            }
                                        }
                                        assert forall|k: Seq<u8>| #[trigger]
                                            self.has_handle(k) implies self.is_dir(k) by {
                                            assert(pre_put.has_handle(k));
                                        }
                                        assert(self.is_file(target));
                                    }
                                    return Ok(());
                                }
                                // a leaf cannot have descendants
                                return Err(CacheError::NotAnArchive);
                            }
                            match crate::ziparc::open_archive(&binary) {
                                None => {
                                    proof {
                                        assert(!owed && !mhit);
                                    }
                                    return Err(CacheError::DecodeError);
                                },
                                Some(opened) => {
                                    let (reader, names) = opened;
                                    if self.dir_tree.contains_key(&full_virtual) {
                                        proof {
                                            assert(!mhit) by {
                                                if mhit && i == 0 {
                                                    assert(!old(self).cached(target));
                                                }
                                            }
                                        }
                                        return Err(CacheError::NestedArchiveConflict);
                                    }
                                    proof {
                                        assert(full_virtual@ != vroot_id());
                                    }
                                    let ghost pre_rm = *self;
                                    self.file_cache.remove(&full_virtual);
                                    proof {
                                        assert forall|id: Seq<u8>| #[trigger]
                                            self.is_dir(id) implies !self.is_file(id) by {
                                            assert(pre_rm.is_dir(id));
                                            assert(!pre_rm.is_file(id));
                                        }
                                        assert forall|k: Seq<u8>| #[trigger]
                                            self.has_handle(k) implies self.is_dir(k) by {
                                            assert(pre_rm.has_handle(k));
                                        }
                                        assert(!self.is_dir(full_virtual@));
                                        assert(!self.is_file(full_virtual@));
                                        assert(!self.cached(target)) by {
                                            assert(!pre_rm.cached(target));
                                        }
                                    }
                                    let nested_listing = self.set_archive_internal(
                                        &full_virtual,
                                        reader,
                                        names,
                                        true,
                                    );
                                    if i == 0 {
                                        proof {
                                            assert(tailcs =~= Seq::<Seq<u8>>::empty());
                                            assert(target == full_virtual@);
                                            assert(self.is_dir(target));
                                        }
                                        return Ok(());
                                    }
                                    let target_exec = join_may_empty(
                                        virtual_path,
                                        &crate::paths::join_components(rel_comps),
                                    );
                                    proof {
                                        assert(target_exec@ == target);
                                    }
                                    if self.dir_tree.contains_key(&target_exec)
                                        || self.file_cache.contains_key(&target_exec) {
                                        return Ok(());
                                    }
                                    let left_comps = crate::paths::comps_suffix(rel_comps, take_n);
                                    proof {
                                        assert(crate::paths::view_comps(left_comps@) == tailcs);
                                        assert(left_comps@.len() == i);
                                        assert forall|t: int|
                                            0 <= t < tailcs.len() implies crate::paths::valid_comp(
                                            #[trigger] tailcs[t],
                                        ) by {
                                            assert(tailcs[t] == allcs[t + take_n]);
                                        }
                                        assert(!self.cached(target));
                                    }
                                    return self.recursive_try_at(&full_virtual, &left_comps);
                                },
                            }
                        },
                    }
                },
            }
            i = i + 1;
        }
        // every split tried, nothing matched
        Err(CacheError::NotFound)
    }

    /// The slow lookup of a path already known to miss the caches: resolves it
    /// through the mounted archives, descending into nested archives as
    /// needed, then reads the result back from the caches.
    pub fn recursive_try(&mut self, virtual_path: &PathU8, rel: &PathU8) -> (r: Result<
        (),
        CacheError,
    >)
        requires
            old(self).wf(),
            canon_of(virtual_path@) != vroot_id(),
            old(self).has_handle(canon_of(virtual_path@)),
            !old(self).cached(
                target_of(canon_of(virtual_path@), crate::paths::canon_comps(rel@)),
            ),
        ensures
            final(self).wf(),
            r is Ok ==> final(self).cached(
                target_of(canon_of(virtual_path@), crate::paths::canon_comps(rel@)),
            ),
            r is Err ==> !final(self).cached(
                target_of(canon_of(virtual_path@), crate::paths::canon_comps(rel@)),
            ),
            direct_hit(old(self), canon_of(virtual_path@), canon_of(rel@)) ==> r is Ok && final(self).is_file(target_of(canon_of(virtual_path@), crate::paths::canon_comps(rel@))) && final(self).file_val(target_of(canon_of(virtual_path@), crate::paths::canon_comps(rel@)))
                == direct_data(old(self), canon_of(virtual_path@), canon_of(rel@)),
            no_split_matches(old(self), canon_of(virtual_path@), crate::paths::canon_comps(rel@))
                ==> r == Result::<(), CacheError>::Err(CacheError::NotFound),
            mount_hit(old(self), canon_of(virtual_path@), canon_of(rel@)) ==> r is Ok && final(self).is_dir(target_of(canon_of(virtual_path@), crate::paths::canon_comps(rel@))),
            forall|k: int|
                #[trigger] conflict_owed(
                    old(self),
                    canon_of(virtual_path@),
                    crate::paths::canon_comps(rel@),
                    k,
                ) ==> r == Result::<(), CacheError>::Err(CacheError::NestedArchiveConflict),
            forall|k: int|
                #[trigger] leaf_suffix_owed(
                    old(self),
                    canon_of(virtual_path@),
                    crate::paths::canon_comps(rel@),
                    k,
                ) ==> r == Result::<(), CacheError>::Err(CacheError::NotAnArchive),
            forall|k: int|
                #[trigger] bad_nested_owed(
                    old(self),
                    canon_of(virtual_path@),
                    crate::paths::canon_comps(rel@),
                    k,
                ) ==> r == Result::<(), CacheError>::Err(CacheError::DecodeError) && !final(self).is_dir(
                    target_of(canon_of(virtual_path@), crate::paths::canon_comps(rel@).take(k)),
                ),
    {
        let vp = path_to_id(virtual_path);
        let comps = crate::paths::split_components(rel);
        proof {
            crate::paths::lemma_canon_valid(virtual_path@);
            crate::paths::lemma_canon_join(crate::paths::canon_comps(virtual_path@));
            crate::paths::lemma_canon_valid(rel@);
        }
        self.recursive_try_at(&vp, &comps)
    }

    /// Whether a mount point matches a path: a byte prefix of the canonical
    /// form, on a component boundary.
    pub open spec fn mount_matches(m: Seq<u8>, id: Seq<u8>) -> bool {
        is_prefix_of(m, id) && (m.len() == id.len() || id[m.len() as int] == crate::paths::SLASH)
    }

    /// The remainder of a path below a matching mount name.
    pub open spec fn mount_rem(m: Seq<u8>, id: Seq<u8>) -> Seq<u8> {
        if m.len() == id.len() {
            Seq::empty()
        } else {
            id.skip(m.len() + 1int)
        }
    }

    /// The mount the slow path descends from: it matches, and no other
    /// matching mount is longer.  Matching mounts are prefixes of one path, so
    /// the longest one is unique.
    pub open spec fn is_longest_mount(&self, m: Seq<u8>, id: Seq<u8>) -> bool {
        &&& self.mounts().has(m)
        &&& Self::mount_matches(m, id)
        &&& forall|m2: Seq<u8>|
            self.mounts().has(m2) && Self::mount_matches(m2, id) ==> m2.len() <= m.len()
    }

    /// Resolution of a path that misses the caches: finds the longest matching
    /// archive mount among the virtual root's children, descends from it, and
    /// reads the result back with a quick lookup.  With no matching mount the
    /// path is simply not found and nothing changes; a matching mount whose
    /// reader has been evicted reports a read failure until it is invalidated
    /// and mounted again.
    #[verifier::loop_isolation(false)]
    pub fn slow_try(&mut self, path: &PathU8) -> (r: Result<NodeContents, CacheError>)
        requires
            old(self).wf(),
            !old(self).cached(canon_of(path@)),
        ensures
            final(self).wf(),
            r is Ok ==> final(self).cached(canon_of(path@)) && final(self).matches_lookup(
                canon_of(path@),
                r->Ok_0,
            ),
            r is Err ==> !final(self).cached(canon_of(path@)),
            (forall|m: Seq<u8>|
                #[trigger] old(self).mounts().has(m) ==> !Self::mount_matches(
                    m,
                    canon_of(path@),
                )) ==> r == Result::<NodeContents, CacheError>::Err(CacheError::NotFound) && *final(self) == *old(self),
            forall|m: Seq<u8>|
                old(self).is_longest_mount(m, canon_of(path@)) && canon_of(m) != vroot_id()
                    && !old(self).has_handle(canon_of(m)) ==> r == Result::<
                    NodeContents,
                    CacheError,
                >::Err(CacheError::IoError),
            forall|m: Seq<u8>|
                old(self).is_longest_mount(m, canon_of(path@)) && canon_of(m) != vroot_id() && old(self).has_handle(canon_of(m)) && direct_hit(
                    old(self),
                    canon_of(m),
                    canon_of(Self::mount_rem(m, canon_of(path@))),
                ) ==> r is Ok && r->Ok_0 is File && r->Ok_0->File_0@ == direct_data(
                    old(self),
                    canon_of(m),
                    canon_of(Self::mount_rem(m, canon_of(path@))),
                ),
    {
        let id = path_to_id(path);
        proof {
            crate::paths::lemma_canon_valid(path@);
            crate::paths::lemma_canon_join(crate::paths::canon_comps(path@));
        }
        let vroot = virtual_root_path();
        let mount_names = match self.dir_tree.child_names(&vroot) {
            Some(ns) => ns,
            None => {
                proof {
                    assert(false);
                }
                Vec::new()
            },
        };
        let mut best: Option<PathU8> = None;
        let mut i: usize = 0;
        while i < mount_names.len()
            invariant
                i <= mount_names@.len(),
                best is None ==> forall|j: int|
                    0 <= j < i ==> !Self::mount_matches((#[trigger] mount_names@[j])@, id@),
                best is Some ==> self.mounts().has(best->Some_0@) && Self::mount_matches(
                    best->Some_0@,
                    id@,
                ),
                forall|j: int|
                    0 <= j < i && Self::mount_matches((#[trigger] mount_names@[j])@, id@) ==> best
                        is Some && mount_names@[j]@.len() <= best->Some_0@.len(),
            decreases mount_names.len() - i,
        {
            let m = &mount_names[i];
            let mut matched = false;
            if crate::paths::starts_with_bytes(&id, m) {
                if m.len() == id.len() {
                    matched = true;
                } else {
                    matched = id[m.len()] == crate::paths::SLASH;
                }
            }
            proof {
                assert(matched == Self::mount_matches(m@, id@));
                if matched {
                    assert(self.mounts().pairs()[i as int].0 == m@);
                    assert(self.mounts().has(m@));
                }
            }
            if matched {
                match &best {
                    None => {
                        best = Some(m.clone());
                    },
                    Some(b) => {
                        if m.len() > b.len() {
                            best = Some(m.clone());
                        }
                    },
                }
            }
            i = i + 1;
        }
        match best {
            None => {
                proof {
                    assert forall|m: Seq<u8>| #[trigger]
                        old(self).mounts().has(m) implies !Self::mount_matches(m, id@) by {
                        let j = choose|j: int|
                            0 <= j < self.mounts().pairs().len() && (#[trigger] self.mounts(
                            ).pairs()[j]).0 == m;
                        assert(mount_names@[j]@ == m);
                    }
                }
                Err(CacheError::NotFound)
            },
            Some(m) => {
                let mc = path_to_id(&m);
                proof {
                    crate::paths::lemma_canon_valid(m@);
                    crate::paths::lemma_canon_join(crate::paths::canon_comps(m@));
                    // the longest matching mount is unique: it is this one
                    assert forall|m2: Seq<u8>|
                        old(self).is_longest_mount(m2, id@) implies m2 == m@ by {
                        let j = choose|j: int|
                            0 <= j < self.mounts().pairs().len() && (#[trigger] self.mounts(
                            ).pairs()[j]).0 == m2;
                        assert(mount_names@[j]@ == m2);
                        assert(m2.len() <= m@.len());
                        assert(m@.len() <= m2.len());
                        assert(m2 =~= m@);
                    }
                }
                if crate::paths::eq_bytes(&mc, &vroot) {
                    return Err(CacheError::NotFound);
                }
                if !self.archive_cache.contains(&mc) {
                    // the mount's reader was evicted; only a fresh mount restores it
                    return Err(CacheError::IoError);
                }
                let rel_bytes: PathU8 = if m.len() == id.len() {
                    Vec::new()
                } else {
                    crate::paths::bytes_from(&id, m.len() + 1)
                };
                proof {
                    assert(rel_bytes@ == Self::mount_rem(m@, id@));
                }
                let comps = crate::paths::split_components(&rel_bytes);
                proof {
                    crate::paths::lemma_canon_valid(rel_bytes@);
                    let ccm = crate::paths::canon_comps(m@);
                    let ccr = crate::paths::canon_comps(rel_bytes@);
                    if m@.len() == id@.len() {
                        assert(m@ =~= id@);
                        assert(ccr =~= Seq::<Seq<u8>>::empty());
                        assert(crate::paths::join_comps(ccr) =~= Seq::<u8>::empty());
                        assert(target_of(mc@, ccr) == mc@);
                        assert(canon_of(m@) == canon_of(id@));
                    } else {
                        assert(id@ =~= m@ + seq![crate::paths::SLASH] + rel_bytes@);
                        crate::paths::lemma_canon_append(m@, rel_bytes@);
                        assert(crate::paths::canon_comps(id@) == ccm + ccr);
                        if ccm.len() == 0 {
                            assert(mc@ =~= Seq::<u8>::empty());
                            assert(ccm + ccr =~= ccr);
                            assert(target_of(mc@, ccr) == crate::paths::join_comps(ccr));
                        } else if ccr.len() == 0 {
                            assert(ccm + ccr =~= ccm);
                            assert(crate::paths::join_comps(ccr) =~= Seq::<u8>::empty());
                            assert(target_of(mc@, ccr) == mc@);
                        } else {
                            crate::paths::lemma_join_append(ccm, ccr);
                            crate::paths::lemma_join_nonempty(ccm);
                            assert(target_of(mc@, ccr) == crate::paths::join_comps(ccm + ccr));
                        }
                        assert(target_of(mc@, ccr) == canon_of(id@));
                    }
                    assert(canon_of(id@) == id@);
                    assert(id@ == canon_of(path@));
                    assert(target_of(mc@, crate::paths::canon_comps(rel_bytes@)) == canon_of(
                        path@,
                    ));
                    assert(crate::paths::view_comps(comps@) == crate::paths::canon_comps(
                        rel_bytes@,
                    ));
                }
                let ghost owed_here = old(self).has_handle(mc@) && direct_hit(
                    old(self),
                    mc@,
                    canon_of(Self::mount_rem(m@, id@)),
                );
                proof {
                    if owed_here {
                        assert(direct_hit(
                            old(self),
                            mc@,
                            crate::paths::join_comps(crate::paths::view_comps(comps@)),
                        ));
                    }
                }
                let descended = self.recursive_try_at(&mc, &comps);
                match descended {
                    Err(e) => {
                        proof {
                            assert(!owed_here);
                        }
                        Err(e)
                    },
                    Ok(()) => {
                        let ghost post_desc = *self;
                        let q = self.quick_try(path);
                        match q {
                            Some(c) => {
                                proof {
                                    assert(self.cached(canon_of(path@))) by {
                                        assert(post_desc.cached(canon_of(path@)));
                                        if post_desc.is_dir(canon_of(path@)) {
                                            assert(self.is_dir(canon_of(path@)));
                                        } else {
                                            assert(self.is_file(canon_of(path@)));
                                        }
                                    }
                                    if owed_here {
                                        assert(post_desc.is_file(id@));
                                        assert(self.is_file(id@) && self.file_val(id@)
                                            == post_desc.file_val(id@));
                                        assert(!self.is_dir(id@));
                                        assert(c is File && c->File_0@ == direct_data(
                                            old(self),
                                            mc@,
                                            canon_of(Self::mount_rem(m@, id@)),
                                        ));
                                    }
                                }
                                Ok(c)
                            },
                            None => {
                                proof {
                                    assert(false);
                                }
                                Err(CacheError::NotFound)
                            },
                        }
                    },
                }
            },
        }
    }

    /// Walks one node of the virtual tree into the rendering: its display
    /// name indented by depth, then its children, depth first, with the given
    /// fuel bounding the visit.
    #[verifier::loop_isolation(false)]
    fn walk_node(&self, id: &PathU8, name: &PathU8, depth: usize, fuel: usize, out: &mut Vec<u8>)
        requires
            self.wf(),
        decreases fuel,
    {
        if fuel == 0 {
            return ;
        }
        let mut d: usize = 0;
        while d < depth
            invariant
                d <= depth,
            decreases depth - d,
        {
            out.push(32);
            d = d + 1;
        }
        let disp = crate::paths::to_display_name(name);
        let mut t: usize = 0;
        while t < disp.len()
            invariant
                t <= disp@.len(),
            decreases disp.len() - t,
        {
            let b = disp[t];
            out.push(b);
            t = t + 1;
        }
        out.push(10);
        match self.dir_tree.child_pairs(id) {
            None => {},
            Some(pairs) => {
                let nd: usize = if depth < usize::MAX {
                    depth + 1
                } else {
                    depth
                };
                let mut j: usize = 0;
                while j < pairs.len()
                    invariant
                        j <= pairs@.len(),
                        self.wf(),
                    decreases pairs.len() - j,
                {
                    self.walk_node(&pairs[j].1, &pairs[j].0, nd, fuel - 1, out);
                    j = j + 1;
                }
            },
        }
    }

    /// A plain-text sketch of the virtual tree for diagnostics: each known
    /// node's display name, indented one space per depth, walked depth first
    /// from the virtual root.  The walk is bounded by the number of known
    /// listings, so it always ends; the caches are not touched and nothing is
    /// promised of the layout.
    pub fn recursive_walk(&self) -> (r: Vec<u8>)
        requires
            self.wf(),
    {
        let vroot = virtual_root_path();
        let fuel: usize = if self.dir_tree.len() < usize::MAX {
            self.dir_tree.len() + 1
        } else {
            usize::MAX
        };
        let mut out: Vec<u8> = Vec::new();
        self.walk_node(&vroot, &vroot, 0, fuel, &mut out);
        out
    }
}

/// A listing returned in index order names exactly the children mapping's
/// name set: iteration order aside, the two are equal as sets.
pub proof fn lemma_listing_set(ns: Seq<PathU8>, ch: Children)
    requires
        names_match(ns, ch),
    ensures
        forall|n: Seq<u8>|
            (exists|i: int| 0 <= i < ns.len() && (#[trigger] ns[i])@ == n) <==> ch.has(n),
{
    assert forall|n: Seq<u8>|
        (exists|i: int| 0 <= i < ns.len() && (#[trigger] ns[i])@ == n) <==> ch.has(n) by {
        if exists|i: int| 0 <= i < ns.len() && (#[trigger] ns[i])@ == n {
            let i = choose|i: int| 0 <= i < ns.len() && (#[trigger] ns[i])@ == n;
            assert(ch.pairs()[i].0 == n);
        }
        if ch.has(n) {
            let j = choose|j: int| 0 <= j < ch.pairs().len() && (#[trigger] ch.pairs()[j]).0 == n;
            assert(ns[j]@ == n);
        }
    }
}

/// A well-formed cache always has the virtual root's listing.
pub proof fn lemma_wf_root(c: &ArchiveCache)
    requires
        c.wf(),
    ensures
        c.is_dir(vroot_id()),
{
}

/// The mount points are exactly the virtual root's listing: what `mounts`
/// says is what a lookup of the virtual root returns.
pub proof fn lemma_mounts_are_root_kids(c: &ArchiveCache)
    ensures
        c.mounts() == c.dir_kids(vroot_id()),
{
}

/// Repeated lookups with no write between them agree: a quick lookup's result
/// is a function of the cached contents, and a quick lookup leaves the
/// contents unchanged — so two consecutive successful reads of the same path
/// yield identical bytes and identical listings.
pub proof fn lemma_quick_try_stable(a: &ArchiveCache, b: &ArchiveCache, id: Seq<u8>)
    requires
        a.same_caches(b),
    ensures
        a.cached(id) == b.cached(id),
        a.is_dir(id) == b.is_dir(id),
        a.is_dir(id) ==> a.dir_kids(id) == b.dir_kids(id),
        a.is_file(id) == b.is_file(id),
        a.is_file(id) ==> a.file_val(id) == b.file_val(id),
{
}

/// After an invalidation of prefix X, a quick lookup of any path whose
/// identity extends X misses: nothing under X stays reachable.  The one
/// exception is the virtual root sentinel itself, which is never removed.
pub proof fn lemma_invalidate_then_quick_try(post: &ArchiveCache, x: Seq<u8>, y: Seq<u8>)
    requires
        forall|id: Seq<u8>|
            is_prefix_of(canon_of(x), id) && id != vroot_id() ==> !post.cached(id),
        is_prefix_of(canon_of(x), canon_of(y)),
        canon_of(y) != vroot_id(),
    ensures
        !post.cached(canon_of(y)),
{
}

} // verus!
