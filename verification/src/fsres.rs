//! The filesystem-layer resolver.
//!
//! Given a request path, the deepest prefix that exists on the real filesystem
//! decides what happens: a directory is listed, a plain file is streamed, an
//! archive file is mounted and the remaining suffix resolved inside it.  The
//! embedder performs the stats and reads and drives the walk; every decision,
//! the request checks and the in-archive resolution are here.

use vstd::prelude::*;

use crate::cache::{ArchiveCache, NodeContents};
use crate::errors::CacheError;
use crate::paths::{canon_comps, canon_of, join_comps, view_comps, PathU8, SLASH};

verus! {

pub const PERCENT: u8 = 37;

/// The value of a hexadecimal digit byte.
pub open spec fn hex_val(b: u8) -> Option<u8> {
    if 48 <= b <= 57 {
        Some((b - 48) as u8)
    } else if 97 <= b <= 102 {
        Some((b - 87) as u8)
    } else if 65 <= b <= 70 {
        Some((b - 55) as u8)
    } else {
        None
    }
}

/// Percent-decoding: `%` followed by two hexadecimal digits becomes one byte;
/// anything else passes through unchanged.
pub open spec fn pct_decode(s: Seq<u8>) -> Seq<u8>
    decreases s.len(),
{
    if s.len() == 0 {
        Seq::empty()
    } else if s[0] == PERCENT && s.len() >= 3 && hex_val(s[1]) is Some && hex_val(s[2]) is Some {
        seq![(hex_val(s[1])->Some_0 * 16 + hex_val(s[2])->Some_0) as u8] + pct_decode(s.skip(3))
    } else {
        seq![s[0]] + pct_decode(s.skip(1))
    }
}

fn hex_digit(b: u8) -> (r: Option<u8>)
    ensures
        r == hex_val(b),
{
    if 48 <= b && b <= 57 {
        Some(b - 48)
    } else if 97 <= b && b <= 102 {
        Some(b - 87)
    } else if 65 <= b && b <= 70 {
        Some(b - 55)
    } else {
        None
    }
}

/// Decodes percent-escapes in a request path.
#[verifier::loop_isolation(false)]
pub fn percent_decode(input: &Vec<u8>) -> (r: Vec<u8>)
    ensures
        r@ == pct_decode(input@),
{
    let mut out: Vec<u8> = Vec::new();
    let mut i: usize = 0;
    assert(input@.skip(0) =~= input@);
    while i < input.len()
        invariant
            i <= input@.len(),
            pct_decode(input@) == out@ + pct_decode(input@.skip(i as int)),
        decreases input.len() - i,
    {
        let ghost pre = out@;
        let ghost rest = input@.skip(i as int);
        assert(rest[0] == input@[i as int]);
        if input[i] == PERCENT && input.len() - i > 2 {
            let h1 = hex_digit(input[i + 1]);
            let h2 = hex_digit(input[i + 2]);
            proof {
                assert(rest.len() >= 3);
                assert(rest[1] == input@[i + 1]);
                assert(rest[2] == input@[i + 2]);
            }
            match (h1, h2) {
                (Some(a), Some(b)) => {
                    out.push(a * 16 + b);
                    proof {
                        assert(rest.skip(3) =~= input@.skip(i as int + 3));
                        assert(out@ =~= pre + seq![(a * 16 + b) as u8]);
                        assert(pre + pct_decode(rest) =~= out@ + pct_decode(
                            input@.skip(i as int + 3),
                        ));
                    }
                    i = i + 3;
                },
                _ => {
                    let c = input[i];
                    out.push(c);
                    proof {
                        assert(rest.skip(1) =~= input@.skip(i as int + 1));
                        assert(pre + pct_decode(rest) =~= out@ + pct_decode(
                            input@.skip(i as int + 1),
                        ));
                    }
                    i = i + 1;
                },
            }
        } else {
            let c = input[i];
            out.push(c);
            proof {
                if rest[0] == PERCENT && rest.len() >= 3 {
                    assert(i + 2 < input@.len());
                }
                assert(rest.skip(1) =~= input@.skip(i as int + 1));
                assert(pre + pct_decode(rest) =~= out@ + pct_decode(input@.skip(i as int + 1)));
            }
            i = i + 1;
        }
    }
    assert(input@.skip(input@.len() as int) =~= Seq::<u8>::empty());
    out
}

/// The `..` component.
pub open spec fn dotdot() -> Seq<u8> {
    seq![crate::paths::DOT, crate::paths::DOT]
}

/// Resolves `..` components against the components before them; climbing past
/// the start means the path escapes the root.
pub open spec fn resolve_dots(cs: Seq<Seq<u8>>, acc: Seq<Seq<u8>>) -> Option<Seq<Seq<u8>>>
    decreases cs.len(),
{
    if cs.len() == 0 {
        Some(acc)
    } else if cs[0] == dotdot() {
        if acc.len() == 0 {
            None
        } else {
            resolve_dots(cs.drop_first(), acc.drop_last())
        }
    } else {
        resolve_dots(cs.drop_first(), acc.push(cs[0]))
    }
}

/// Resolution never leaves a `..` in the result if the accumulator has none.
pub proof fn lemma_resolve_no_dotdot(cs: Seq<Seq<u8>>, acc: Seq<Seq<u8>>)
    requires
        forall|i: int| 0 <= i < acc.len() ==> acc[i] != dotdot(),
        resolve_dots(cs, acc) is Some,
    ensures
        forall|i: int|
            0 <= i < resolve_dots(cs, acc)->Some_0.len() ==> resolve_dots(cs, acc)->Some_0[i]
                != dotdot(),
    decreases cs.len(),
{
    if cs.len() == 0 {
    } else if cs[0] == dotdot() {
        assert(forall|i: int|
            0 <= i < acc.drop_last().len() ==> acc.drop_last()[i] == acc[i] && acc[i] != dotdot());
        lemma_resolve_no_dotdot(cs.drop_first(), acc.drop_last());
    } else {
        assert(forall|i: int|
            0 <= i < acc.push(cs[0]).len() ==> #[trigger] acc.push(cs[0])[i] != dotdot());
        lemma_resolve_no_dotdot(cs.drop_first(), acc.push(cs[0]));
    }
}

/// Checks a request path: an absolute path is not served, and a path whose
/// normalization climbs past the root is denied.  The result is the resolved
/// component sequence, free of `.` and `..`.
#[verifier::loop_isolation(false)]
pub fn check_request(path: &PathU8) -> (r: Result<Vec<PathU8>, CacheError>)
    ensures
        path@.len() > 0 && path@[0] == SLASH ==> r == Result::<
            Vec<PathU8>,
            CacheError,
        >::Err(CacheError::NotFound),
        !(path@.len() > 0 && path@[0] == SLASH) ==> {
            &&& (r is Err <==> resolve_dots(canon_comps(path@), Seq::empty()) is None)
            &&& (r is Err ==> r == Result::<Vec<PathU8>, CacheError>::Err(
                CacheError::PermissionDenied,
            ))
            &&& (r is Ok ==> view_comps(r->Ok_0@) == resolve_dots(
                canon_comps(path@),
                Seq::empty(),
            )->Some_0)
        },
        r is Ok ==> forall|i: int| 0 <= i < r->Ok_0@.len() ==> (#[trigger] r->Ok_0@[i])@ != dotdot(),
        r is Ok ==> crate::paths::valid_comps(view_comps(r->Ok_0@)),
{
    if path.len() > 0 && path[0] == SLASH {
        return Err(CacheError::NotFound);
    }
    let comps = crate::paths::split_components(path);
    let mut acc: Vec<PathU8> = Vec::new();
    let mut i: usize = 0;
    let ghost all = canon_comps(path@);
    proof {
        assert(all.skip(0) =~= all);
        assert(view_comps(acc@) =~= Seq::<Seq<u8>>::empty());
        crate::paths::lemma_canon_valid(path@);
    }
    while i < comps.len()
        invariant
            i <= comps@.len(),
            resolve_dots(all, Seq::empty()) == resolve_dots(
                all.skip(i as int),
                view_comps(acc@),
            ),
            forall|t: int| 0 <= t < acc@.len() ==> (#[trigger] acc@[t])@ != dotdot(),
            crate::paths::valid_comps(view_comps(acc@)),
        decreases comps.len() - i,
    {
        let ghost rest = all.skip(i as int);
        proof {
            assert(rest[0] == all[i as int]);
            assert(rest.drop_first() =~= all.skip(i as int + 1));
            assert(all[i as int] == comps@[i as int]@);
        }
        let c = &comps[i];
        if c.len() == 2 && c[0] == crate::paths::DOT && c[1] == crate::paths::DOT {
            proof {
                assert(c@ =~= dotdot());
            }
            if acc.len() == 0 {
                return Err(CacheError::PermissionDenied);
            }
            let ghost pre = view_comps(acc@);
            acc.pop();
            proof {
                assert(view_comps(acc@) =~= pre.drop_last());
            }
        } else {
            proof {
                assert(c@ != dotdot()) by {
                    if c@ == dotdot() {
                        assert(c@.len() == 2 && c@[0] == crate::paths::DOT && c@[1]
                            == crate::paths::DOT);
                    }
                }
            }
            let ghost pre = view_comps(acc@);
            acc.push(c.clone());
            proof {
                assert(view_comps(acc@) =~= pre.push(c@));
            }
        }
        i = i + 1;
    }
    proof {
        assert(all.skip(all.len() as int) =~= Seq::<Seq<u8>>::empty());
    }
    Ok(acc)
}

/// What a stat of a candidate filesystem prefix reported.
pub enum StatResult {
    Missing,
    IsDir,
    IsFile,
}

/// The state of a prefix walk: the resolved request components, and how many
/// trailing components have been popped into the in-archive suffix so far.
pub struct Walk {
    pub comps: Vec<PathU8>,
    pub popped: usize,
}

/// What the resolver asks of its embedder next.
pub enum StepAction {
    /// Stat the next, one component shorter, filesystem prefix.
    NextStat(Walk),
    /// The whole path is a real directory: list it, one name per line.
    ServeDir,
    /// The prefix is a real file: read its bytes and hand them back.
    ReadFileBytes(Walk),
    /// The walk is over; nothing matched.
    Fail(CacheError),
}

/// What a cache lookup or a started walk yields.
pub enum ReadOutcome {
    Hit(NodeContents),
    Walk(Walk),
}

/// The canonical identity of a walk's current filesystem prefix.
pub open spec fn walk_rel_id(w: &Walk) -> Seq<u8> {
    canon_of(join_comps(view_comps(w.comps@).take(w.comps@.len() - w.popped)))
}

/// The walk prefix names an archive by extension and not the sentinel: the
/// resolver must mount it rather than serve or reject it.
pub open spec fn arch_prefix(w: &Walk, bytes: Seq<u8>) -> bool {
    let relc = join_comps(view_comps(w.comps@).take(w.comps@.len() - w.popped));
    &&& canon_of(relc) != crate::cache::vroot_id()
    &&& crate::sniff::name_ext(relc) is Some
    &&& crate::sniff::spec_is_archive_ext(crate::sniff::name_ext(relc)->Some_0)
}

/// An in-archive resolution that is owed success: the suffix components are
/// well formed, the mount already has a listing, a live reader and no other
/// mount reaching deeper into the target, the target itself is not yet
/// cached, and the suffix is a direct hit of the mount's entry index (an
/// indexed entry with a non-archive extension that decodes).
pub open spec fn tia_owed(c: &ArchiveCache, vp_id: Seq<u8>, leftv: Seq<Seq<u8>>) -> bool {
    let relc = join_comps(leftv);
    let target = crate::paths::spec_join_may_empty(vp_id, relc);
    &&& leftv.len() > 0
    &&& crate::paths::valid_comps(leftv)
    &&& vp_id != crate::cache::vroot_id()
    &&& c.is_dir(vp_id)
    &&& c.has_handle(vp_id)
    &&& !c.cached(target)
    &&& c.is_longest_mount(vp_id, target)
    &&& crate::cache::direct_hit(c, vp_id, relc)
}

/// The filesystem layer: holds the canonicalized root the embedder serves.
pub struct Fs {
    root: PathU8,
}

impl Fs {
    pub closed spec fn root_view(&self) -> Seq<u8> {
        self.root@
    }

    /// A filesystem layer over an already canonicalized root directory path.
    pub fn new(path: &PathU8) -> (r: Fs)
        ensures
            r.root_view() == path@,
    {
        Fs { root: path.clone() }
    }

    /// The filesystem path of the current walk prefix: the root joined with
    /// the components not yet popped.
    pub fn fs_path(&self, w: &Walk) -> (r: PathU8)
        requires
            w.popped <= w.comps@.len(),
        ensures
            r@ == crate::paths::spec_join_may_empty(
                self.root_view(),
                join_comps(view_comps(w.comps@).take(w.comps@.len() - w.popped)),
            ),
    {
        let keep = w.comps.len() - w.popped;
        let prefix = crate::paths::comps_prefix(&w.comps, keep);
        let joined = crate::paths::join_components(&prefix);
        crate::paths::join_may_empty(&self.root, &joined)
    }

    /// The request-relative path of the current walk prefix.
    pub fn rel_path(&self, w: &Walk) -> (r: PathU8)
        requires
            w.popped <= w.comps@.len(),
        ensures
            r@ == join_comps(view_comps(w.comps@).take(w.comps@.len() - w.popped)),
    {
        let keep = w.comps.len() - w.popped;
        let prefix = crate::paths::comps_prefix(&w.comps, keep);
        crate::paths::join_components(&prefix)
    }

    /// Starts a read: checks the request and tries the caches; a miss hands a
    /// walk back for the embedder to drive with stats.
    pub fn read_start(&self, cache: &mut ArchiveCache, path: &PathU8) -> (r: Result<
        ReadOutcome,
        CacheError,
    >)
        requires
            old(cache).wf(),
        ensures
            final(cache).wf(),
            final(cache).same_caches(old(cache)),
            r matches Ok(ReadOutcome::Hit(c)) ==> final(cache).matches_lookup(
                canon_of(join_comps(resolve_dots(canon_comps(path@), Seq::empty())->Some_0)),
                c,
            ),
            r matches Ok(ReadOutcome::Walk(w)) ==> w.popped == 0 && view_comps(w.comps@)
                == resolve_dots(canon_comps(path@), Seq::empty())->Some_0 && (forall|i: int|
                0 <= i < w.comps@.len() ==> (#[trigger] w.comps@[i])@ != dotdot()),
            path@.len() > 0 && path@[0] == SLASH ==> r == Result::<
                ReadOutcome,
                CacheError,
            >::Err(CacheError::NotFound),
            !(path@.len() > 0 && path@[0] == SLASH) && resolve_dots(
                canon_comps(path@),
                Seq::empty(),
            ) is None ==> r == Result::<ReadOutcome, CacheError>::Err(CacheError::PermissionDenied),
            !(path@.len() > 0 && path@[0] == SLASH) && resolve_dots(
                canon_comps(path@),
                Seq::empty(),
            ) is Some ==> r is Ok,
            r is Ok ==> (r->Ok_0 is Hit <==> old(cache).cached(
                canon_of(join_comps(resolve_dots(canon_comps(path@), Seq::empty())->Some_0)),
            )),
    {
        let comps = match check_request(path) {
            Err(e) => {
                return Err(e);
            },
            Ok(cs) => cs,
        };
        let joined = crate::paths::join_components(&comps);
        match cache.quick_try(&joined) {
            Some(c) => Ok(ReadOutcome::Hit(c)),
            None => Ok(ReadOutcome::Walk(Walk { comps, popped: 0 })),
        }
    }

    /// One step of the prefix walk, decided from what the stat reported.
    pub fn on_stat(&self, w: Walk, st: StatResult) -> (r: StepAction)
        requires
            w.popped <= w.comps@.len(),
        ensures
            r matches StepAction::NextStat(w2) ==> w2.comps == w.comps && w2.popped == w.popped
                + 1 && st is Missing && w.popped < w.comps@.len(),
            r matches StepAction::ReadFileBytes(w2) ==> w2.comps == w.comps && w2.popped
                == w.popped && st is IsFile,
            r is ServeDir ==> st is IsDir && w.popped == 0,
            r matches StepAction::Fail(e) ==> (st is Missing && w.popped == w.comps@.len() && e
                == CacheError::NotFound) || (st is IsDir && w.popped > 0 && e
                == CacheError::NotFound),
    {
        match st {
            StatResult::Missing => {
                if w.popped >= w.comps.len() {
                    StepAction::Fail(CacheError::NotFound)
                } else {
                    StepAction::NextStat(Walk { comps: w.comps, popped: w.popped + 1 })
                }
            },
            StatResult::IsDir => {
                if w.popped == 0 {
                    StepAction::ServeDir
                } else {
                    // a real directory cannot contain nested-archive children
                    StepAction::Fail(CacheError::NotFound)
                }
            },
            StatResult::IsFile => StepAction::ReadFileBytes(w),
        }
    }

    /// The prefix turned out to be a real file whose bytes are in hand: a
    /// non-archive with nothing left is served directly, a non-archive with a
    /// suffix left cannot have descendants, and an archive is mounted with the
    /// suffix resolved inside it.
    pub fn on_file_bytes(&self, cache: &mut ArchiveCache, w: &Walk, bytes: Vec<u8>) -> (r: Result<
        NodeContents,
        CacheError,
    >)
        requires
            old(cache).wf(),
            w.popped <= w.comps@.len(),
        ensures
            final(cache).wf(),
            ({
                let relc = join_comps(view_comps(w.comps@).take(w.comps@.len() - w.popped));
                &&& canon_of(relc) != crate::cache::vroot_id()
                &&& crate::sniff::name_ext(relc) is Some
                &&& !crate::sniff::spec_is_archive_ext(crate::sniff::name_ext(relc)->Some_0)
                &&& w.popped == 0
            }) ==> r is Ok && r->Ok_0 is File && r->Ok_0->File_0@ == bytes@,
            ({
                let relc = join_comps(view_comps(w.comps@).take(w.comps@.len() - w.popped));
                &&& canon_of(relc) != crate::cache::vroot_id()
                &&& crate::sniff::name_ext(relc) is Some
                &&& !crate::sniff::spec_is_archive_ext(crate::sniff::name_ext(relc)->Some_0)
                &&& w.popped > 0
            }) ==> r == Result::<NodeContents, CacheError>::Err(CacheError::NotAnArchive),
            arch_prefix(w, bytes@) && old(cache).is_dir(walk_rel_id(w)) && w.popped == 0 ==> r
                is Ok && r->Ok_0 is Dir && crate::cache::names_match(
                r->Ok_0->Dir_0@,
                old(cache).dir_kids(walk_rel_id(w)),
            ),
            arch_prefix(w, bytes@) && !old(cache).is_dir(walk_rel_id(w))
                && crate::ziparc::zip_entries(bytes@) is None ==> r == Result::<
                NodeContents,
                CacheError,
            >::Err(CacheError::DecodeError),
            arch_prefix(w, bytes@) && !old(cache).is_dir(walk_rel_id(w))
                && crate::ziparc::zip_entries(bytes@) is Some && w.popped == 0 ==> r is Ok
                && r->Ok_0 is Dir && crate::cache::names_match(
                r->Ok_0->Dir_0@,
                final(cache).dir_kids(walk_rel_id(w)),
            ),
            arch_prefix(w, bytes@) && w.popped > 0 && tia_owed(
                old(cache),
                walk_rel_id(w),
                view_comps(w.comps@).skip(w.comps@.len() - w.popped),
            ) ==> r is Ok && r->Ok_0 is File && r->Ok_0->File_0@ == crate::cache::direct_data(
                old(cache),
                walk_rel_id(w),
                join_comps(view_comps(w.comps@).skip(w.comps@.len() - w.popped)),
            ),
    {
        let rel = self.rel_path(w);
        let vrp = crate::cache::virtual_root_path();
        let vid = crate::paths::path_to_id(&rel);
        if crate::paths::eq_bytes(&vid, &vrp) {
            // a request prefix may not name the virtual root sentinel
            return Err(CacheError::NotFound);
        }
        let arch = crate::sniff::is_archive_bytes(&rel, &bytes);
        if !arch {
            if w.popped == 0 {
                return Ok(NodeContents::File(bytes));
            }
            // the suffix would have to live inside a non-archive leaf
            return Err(CacheError::NotAnArchive);
        }
        let left = crate::paths::comps_suffix(&w.comps, w.comps.len() - w.popped);
        proof {
            assert(view_comps(left@) =~= view_comps(w.comps@).skip(
                w.comps@.len() - w.popped as int,
            ));
            assert(canon_of(rel@) == walk_rel_id(w));
        }
        let r = self.try_in_archive(cache, &rel, &bytes, &left);
        proof {
            if arch_prefix(w, bytes@) && w.popped > 0 && tia_owed(
                old(cache),
                walk_rel_id(w),
                view_comps(w.comps@).skip(w.comps@.len() - w.popped),
            ) {
                assert(tia_owed(old(cache), canon_of(rel@), view_comps(left@)));
            }
        }
        r
    }

    /// Mounts the archive (idempotently) at its request-relative path and
    /// resolves the remaining suffix inside it: first with a quick lookup,
    /// then through the slow path.
    pub fn try_in_archive(
        &self,
        cache: &mut ArchiveCache,
        virtual_path: &PathU8,
        archive_bytes: &Vec<u8>,
        left: &Vec<PathU8>,
    ) -> (r: Result<NodeContents, CacheError>)
        requires
            old(cache).wf(),
        ensures
            final(cache).wf(),
            r is Ok && left@.len() > 0 ==> final(cache).matches_lookup(
                canon_of(
                    crate::paths::spec_join_may_empty(
                        canon_of(virtual_path@),
                        join_comps(view_comps(left@)),
                    ),
                ),
                r->Ok_0,
            ),
            r is Ok && left@.len() == 0 ==> r->Ok_0 is Dir && final(cache).is_dir(
                canon_of(virtual_path@),
            ),
            old(cache).is_dir(canon_of(virtual_path@)) && left@.len() == 0 ==> r is Ok && r->Ok_0
                is Dir && crate::cache::names_match(
                r->Ok_0->Dir_0@,
                old(cache).dir_kids(canon_of(virtual_path@)),
            ),
            !old(cache).is_dir(canon_of(virtual_path@)) && crate::ziparc::zip_entries(
                archive_bytes@,
            ) is None ==> r == Result::<NodeContents, CacheError>::Err(CacheError::DecodeError),
            !old(cache).is_dir(canon_of(virtual_path@)) && crate::ziparc::zip_entries(
                archive_bytes@,
            ) is Some && left@.len() == 0 ==> r is Ok && r->Ok_0 is Dir
                && crate::cache::names_match(
                r->Ok_0->Dir_0@,
                final(cache).dir_kids(canon_of(virtual_path@)),
            ),
            tia_owed(old(cache), canon_of(virtual_path@), view_comps(left@)) ==> r is Ok
                && r->Ok_0 is File
                && r->Ok_0->File_0@ == crate::cache::direct_data(
                old(cache),
                canon_of(virtual_path@),
                join_comps(view_comps(left@)),
            ),
    {
        let ghost vp_id = canon_of(virtual_path@);
        let ghost relc = join_comps(view_comps(left@));
        let ghost owed = tia_owed(old(cache), vp_id, view_comps(left@));
        let res = match cache.set_archive(virtual_path, archive_bytes) {
            Ok(c) => c,
            Err(e) => {
                proof {
                    assert(!owed);
                }
                return Err(e);
            },
        };
        if left.len() == 0 {
            return Ok(res);
        }
        let vid = crate::paths::path_to_id(virtual_path);
        let left_joined = crate::paths::join_components(left);
        let full = crate::paths::join_may_empty(&vid, &left_joined);
        proof {
            crate::paths::lemma_canon_valid(virtual_path@);
            crate::paths::lemma_canon_join(canon_comps(virtual_path@));
            if owed {
                // with valid suffix components the joined target is already
                // canonical, and the mount's remainder below it is the suffix
                crate::paths::lemma_canon_join(view_comps(left@));
                crate::paths::lemma_join_canon(vp_id, relc);
                assert(canon_of(full@) == full@);
                crate::paths::lemma_join_nonempty(view_comps(left@));
                assert(vp_id.len() > 0) by {
                    if vp_id.len() == 0 {
                        assert(full@ == relc);
                        assert(!ArchiveCache::mount_matches(vp_id, full@)) by {
                            assert(crate::paths::valid_comp(view_comps(left@)[0]));
                            assert(relc[0] == view_comps(left@)[0][0]);
                            assert(relc[0] != SLASH);
                        }
                    }
                }
                assert(full@ == vp_id + seq![SLASH] + relc);
                assert(ArchiveCache::mount_rem(vp_id, full@) =~= relc);
                assert(canon_of(relc) == relc);
            }
        }
        match cache.quick_try(&full) {
            Some(c) => {
                proof {
                    assert(!owed) by {
                        if owed {
                            assert(old(cache).cached(canon_of(full@)));
                        }
                    }
                }
                Ok(c)
            },
            None => {
                let ghost mid = *cache;
                proof {
                    if owed {
                        // the quick miss only moved recency: every fact the
                        // slow path is owed under carries over
                        crate::cache::lemma_mounts_are_root_kids(&mid);
                        crate::cache::lemma_mounts_are_root_kids(old(cache));
                        crate::cache::lemma_wf_root(old(cache));
                        assert(old(cache).is_dir(crate::cache::vroot_id()));
                        assert(mid.is_dir(crate::cache::vroot_id()));
                        assert(mid.dir_kids(crate::cache::vroot_id()) == old(cache).dir_kids(
                            crate::cache::vroot_id(),
                        ));
                        assert(mid.mounts() == old(cache).mounts());
                        assert(canon_of(vp_id) == vp_id);
                        assert(mid.is_longest_mount(vp_id, canon_of(full@))) by {
                            assert(old(cache).is_longest_mount(vp_id, full@));
                        }
                        assert(mid.has_handle(vp_id));
                        assert(mid.handle_entries(vp_id) == old(cache).handle_entries(vp_id));
                        assert(mid.handle_src(vp_id) == old(cache).handle_src(vp_id));
                        assert(crate::cache::direct_hit(&mid, vp_id, relc));
                        assert(crate::cache::direct_hit(
                            &mid,
                            canon_of(vp_id),
                            canon_of(ArchiveCache::mount_rem(vp_id, canon_of(full@))),
                        ));
                        assert(crate::cache::direct_data(&mid, vp_id, relc)
                            == crate::cache::direct_data(old(cache), vp_id, relc));
                    }
                }
                match cache.slow_try(&full) {
                    Ok(res2) => {
                        proof {
                            if owed {
                                assert(res2 is File && res2->File_0@ == crate::cache::direct_data(
                                    old(cache),
                                    vp_id,
                                    relc,
                                ));
                            }
                        }
                        Ok(res2)
                    },
                    Err(e) => {
                        proof {
                            assert(!owed);
                        }
                        Err(e)
                    },
                }
            },
        }
    }
}

/// The newline-separated rendering of a directory listing: each name is
/// followed by one newline.
pub open spec fn listing_bytes(names: Seq<Seq<u8>>) -> Seq<u8>
    decreases names.len(),
{
    if names.len() == 0 {
        Seq::empty()
    } else {
        names[0] + seq![10u8] + listing_bytes(names.drop_first())
    }
}

pub proof fn lemma_listing_push(names: Seq<Seq<u8>>, n: Seq<u8>)
    ensures
        listing_bytes(names.push(n)) == listing_bytes(names) + n + seq![10u8],
    decreases names.len(),
{
    let t = names.push(n);
    assert(listing_bytes(t) == t[0] + seq![10u8] + listing_bytes(t.drop_first()));
    if names.len() == 0 {
        assert(t.drop_first() =~= Seq::<Seq<u8>>::empty());
        assert(t[0] == n);
        assert(listing_bytes(t) =~= listing_bytes(names) + n + seq![10u8]);
    } else {
        assert(t.drop_first() =~= names.drop_first().push(n));
        assert(t[0] == names[0]);
        lemma_listing_push(names.drop_first(), n);
        assert(listing_bytes(t) =~= listing_bytes(names) + n + seq![10u8]);
    }
}

/// The MIME string for directory listings.
pub fn mime_text_plain() -> (r: Vec<u8>)
    ensures
        r@ == spec_mime_text(),
{
    let r: Vec<u8> = vec![
        116u8,
        101u8,
        120u8,
        116u8,
        47u8,
        112u8,
        108u8,
        97u8,
        105u8,
        110u8,
        59u8,
        32u8,
        99u8,
        104u8,
        97u8,
        114u8,
        115u8,
        101u8,
        116u8,
        61u8,
        117u8,
        116u8,
        102u8,
        45u8,
        56u8,
    ];
    proof {
        assert(r@ =~= spec_mime_text());
    }
    r
}

/// `text/plain; charset=utf-8`.
pub open spec fn spec_mime_text() -> Seq<u8> {
    seq![
        116u8,
        101u8,
        120u8,
        116u8,
        47u8,
        112u8,
        108u8,
        97u8,
        105u8,
        110u8,
        59u8,
        32u8,
        99u8,
        104u8,
        97u8,
        114u8,
        115u8,
        101u8,
        116u8,
        61u8,
        117u8,
        116u8,
        102u8,
        45u8,
        56u8,
    ]
}

/// Renders node contents into a response body and its MIME string: leaf bytes
/// with a sniffed MIME, or a newline-separated listing as plain text.
#[verifier::loop_isolation(false)]
pub fn respond(contents: NodeContents) -> (r: (Vec<u8>, Vec<u8>))
    ensures
        contents matches NodeContents::File(b) ==> r.0@ == b@,
        contents matches NodeContents::Dir(ns) ==> r.0@ == listing_bytes(view_comps(ns@)) && r.1@
            == spec_mime_text(),
{
    match contents {
        NodeContents::File(b) => {
            let mime = crate::sniff::mime_of_bytes(&b);
            (b, mime)
        },
        NodeContents::Dir(ns) => {
            let mut body: Vec<u8> = Vec::new();
            let mut i: usize = 0;
            proof {
                assert(view_comps(ns@).take(0) =~= Seq::<Seq<u8>>::empty());
            }
            while i < ns.len()
                invariant
                    i <= ns@.len(),
                    body@ == listing_bytes(view_comps(ns@).take(i as int)),
                decreases ns.len() - i,
            {
                let ghost pre = body@;
                let mut j: usize = 0;
                while j < ns[i].len()
                    invariant
                        0 <= i < ns@.len(),
                        j <= ns@[i as int]@.len(),
                        body@ == pre + ns@[i as int]@.take(j as int),
                    decreases ns@[i as int]@.len() - j,
                {
                    let b = ns[i][j];
                    body.push(b);
                    assert(body@ =~= pre + ns@[i as int]@.take(j as int + 1));
                    j = j + 1;
                }
                body.push(10);
                proof {
                    assert(ns@[i as int]@.take(ns@[i as int]@.len() as int) =~= ns@[i as int]@);
                    lemma_listing_push(view_comps(ns@).take(i as int), ns@[i as int]@);
                    assert(view_comps(ns@).take(i as int).push(ns@[i as int]@) =~= view_comps(
                        ns@,
                    ).take(i as int + 1));
                    assert(body@ =~= listing_bytes(view_comps(ns@).take(i as int + 1)));
                }
                i = i + 1;
            }
            proof {
                assert(view_comps(ns@).take(ns@.len() as int) =~= view_comps(ns@));
            }
            (body, mime_text_plain())
        },
    }
}

/// `image/jpeg`.
pub open spec fn spec_mime_jpeg() -> Seq<u8> {
    seq![105u8, 109u8, 97u8, 103u8, 101u8, 47u8, 106u8, 112u8, 101u8, 103u8]
}

/// `image/png`.
pub open spec fn spec_mime_png() -> Seq<u8> {
    seq![105u8, 109u8, 97u8, 103u8, 101u8, 47u8, 112u8, 110u8, 103u8]
}

/// The byte size at and above which an image response is re-encoded.
pub const CONVERT_THRESHOLD: usize = 307200;

/// Whether an image response should be re-encoded as JPEG before it is sent,
/// and at which quality: JPEG sources shrink little, so they drop to quality
/// 60; PNG sources re-encode at 80.  Anything else passes unchanged.  The
/// caches are not involved: they keep originals.
pub fn should_convert(mime: &Vec<u8>, len: usize) -> (r: Option<u8>)
    ensures
        r is Some <==> len >= CONVERT_THRESHOLD && (mime@ == spec_mime_jpeg() || mime@
            == spec_mime_png()),
        r is Some && mime@ == spec_mime_jpeg() ==> r->Some_0 == 60,
        r is Some && mime@ == spec_mime_png() ==> r->Some_0 == 80,
    {
    if len < CONVERT_THRESHOLD {
        proof {
            assert(!(len >= CONVERT_THRESHOLD));
        }
        return None;
    }
    let jpeg: Vec<u8> = vec![105u8, 109u8, 97u8, 103u8, 101u8, 47u8, 106u8, 112u8, 101u8, 103u8];
    let png: Vec<u8> = vec![105u8, 109u8, 97u8, 103u8, 101u8, 47u8, 112u8, 110u8, 103u8];
    proof {
        assert(jpeg@ =~= spec_mime_jpeg());
        assert(png@ =~= spec_mime_png());
    }
    if crate::paths::eq_bytes(mime, &jpeg) {
        Some(60)
    } else if crate::paths::eq_bytes(mime, &png) {
        Some(80)
    } else {
        None
    }
}

/// Turns a watcher's absolute event path into the invalidation prefix: the
/// part after the root, when the root is a prefix on a component boundary.
pub fn watch_rel(root: &PathU8, abs_path: &PathU8) -> (r: Option<PathU8>)
    ensures
        r is Some ==> root@.len() <= abs_path@.len() && r->Some_0@ == abs_path@.skip(
            if root@.len() == abs_path@.len() {
                root@.len() as int
            } else {
                root@.len() + 1int
            },
        ),
        r is None ==> !crate::paths::is_prefix_of(root@, abs_path@) || (root@.len() < abs_path@.len()
            && abs_path@[root@.len() as int] != SLASH),
{
    if !crate::paths::starts_with_bytes(abs_path, root) {
        return None;
    }
    if root.len() == abs_path.len() {
        return Some(Vec::new());
    }
    if abs_path[root.len()] != SLASH {
        return None;
    }
    Some(crate::paths::bytes_from(abs_path, root.len() + 1))
}

} // verus!
