//! Deciding whether a name or a byte buffer denotes an archive.
//!
//! A known archive extension decides first; a name without an extension falls
//! back to MIME sniffing of the bytes.  Sniffing a bare filesystem path would
//! take I/O, which stays with the embedder: it hands the bytes in instead.
//!
//! All six known extensions are classified as archives; of them only ZIP and
//! CBZ can currently be decoded (see [`crate::ziparc`]).

use vstd::prelude::*;

use crate::paths::{canon_comps, DOT, PathU8};

verus! {

/// An archive source: a filesystem path, or its bytes already in memory.
pub enum FileOrMem {
    Path(PathU8),
    Mem(Vec<u8>),
}

/// The index of the last `.` in a component, or -1 when there is none.
pub open spec fn last_dot(c: Seq<u8>) -> int
    decreases c.len(),
{
    if c.len() == 0 {
        -1
    } else if c[c.len() - 1] == DOT {
        c.len() - 1
    } else {
        last_dot(c.drop_last())
    }
}

/// The extension of a single name component: what follows the last dot,
/// provided the dot is not the leading byte.
pub open spec fn ext_of_comp(c: Seq<u8>) -> Option<Seq<u8>> {
    if last_dot(c) >= 1 {
        Some(c.subrange(last_dot(c) + 1, c.len() as int))
    } else {
        None
    }
}

/// The extension of a path: the extension of its last canonical component.
pub open spec fn name_ext(name: Seq<u8>) -> Option<Seq<u8>> {
    let cs = canon_comps(name);
    if cs.len() == 0 {
        None
    } else {
        ext_of_comp(cs.last())
    }
}

pub open spec fn ext_zip() -> Seq<u8> {
    seq![122u8, 105u8, 112u8]
}

pub open spec fn ext_cbz() -> Seq<u8> {
    seq![99u8, 98u8, 122u8]
}

pub open spec fn ext_rar() -> Seq<u8> {
    seq![114u8, 97u8, 114u8]
}

pub open spec fn ext_cbr() -> Seq<u8> {
    seq![99u8, 98u8, 114u8]
}

pub open spec fn ext_tar() -> Seq<u8> {
    seq![116u8, 97u8, 114u8]
}

pub open spec fn ext_7z() -> Seq<u8> {
    seq![55u8, 122u8]
}

/// The known archive extensions: zip, cbz, rar, cbr, tar, 7z.
pub open spec fn spec_is_archive_ext(e: Seq<u8>) -> bool {
    ||| e == ext_zip()
    ||| e == ext_cbz()
    ||| e == ext_rar()
    ||| e == ext_cbr()
    ||| e == ext_tar()
    ||| e == ext_7z()
}

pub open spec fn ends_with(s: Seq<u8>, t: Seq<u8>) -> bool {
    t.len() <= s.len() && s.subrange(s.len() - t.len(), s.len() as int) == t
}

/// Whether a MIME string names one of the known archive kinds by its suffix.
pub open spec fn spec_mime_archive(m: Seq<u8>) -> bool {
    ||| ends_with(m, ext_zip())
    ||| ends_with(m, ext_cbz())
    ||| ends_with(m, ext_rar())
    ||| ends_with(m, ext_cbr())
    ||| ends_with(m, ext_tar())
    ||| ends_with(m, ext_7z())
}

/// Relies on tree_magic::from_u8 to name a MIME type for a byte buffer, and
/// on its built-in ruleset being compiled in, which makes it return a name
/// for any input.  The result also depends on the MIME definitions installed
/// on the machine, so nothing is claimed of it; callers decide over whatever
/// string comes back.
#[verifier::external_body]
pub(crate) fn mime_of_bytes(bytes: &Vec<u8>) -> (r: Vec<u8>)
{
    tree_magic::from_u8(bytes).into_bytes()
}

/// The extension of a path, if its last component has one.
pub fn extension_of(name: &PathU8) -> (r: Option<PathU8>)
    ensures
        r is Some <==> name_ext(name@) is Some,
        r is Some ==> r->Some_0@ == name_ext(name@)->Some_0,
{
    let comps = crate::paths::split_components(name);
    if comps.len() == 0 {
        return None;
    }
    let last = &comps[comps.len() - 1];
    proof {
        assert(crate::paths::view_comps(comps@).last() == last@);
    }
    let mut j: usize = last.len();
    assert(last@.take(last@.len() as int) =~= last@);
    while j > 0
        invariant
            j <= last@.len(),
            canon_comps(name@).len() > 0,
            canon_comps(name@).last() == last@,
            last_dot(last@) == last_dot(last@.take(j as int)),
            forall|t: int| j <= t < last@.len() ==> last@[t] != DOT,
        decreases j,
    {
        let ghost pre = last@.take(j as int);
        assert(pre.len() == j);
        assert(pre[j - 1] == last@[j - 1]);
        if last[j - 1] == DOT {
            assert(last_dot(pre) == j - 1);
            proof {
                let cs = canon_comps(name@);
                assert(cs.last() == last@);
                assert(name_ext(name@) == ext_of_comp(last@));
            }
            if j - 1 >= 1 {
                let mut e: Vec<u8> = Vec::new();
                let mut t: usize = j;
                while t < last.len()
                    invariant
                        j <= t <= last@.len(),
                        e@ == last@.subrange(j as int, t as int),
                    decreases last.len() - t,
                {
                    let b = last[t];
                    e.push(b);
                    assert(e@ =~= last@.subrange(j as int, t as int + 1));
                    t = t + 1;
                }
                assert(e@ == last@.subrange(j as int, last@.len() as int));
                return Some(e);
            }
            return None;
        }
        assert(pre.drop_last() =~= last@.take(j as int - 1));
        assert(last_dot(pre) == last_dot(last@.take(j as int - 1)));
        j = j - 1;
    }
    assert(last@.take(0) =~= Seq::<u8>::empty());
    assert(last_dot(last@) == -1);
    None
}

/// Whether an extension is one of the known archive extensions.
pub fn is_archive_extension(e: &PathU8) -> (r: bool)
    ensures
        r == spec_is_archive_ext(e@),
{
    if e.len() == 3 {
        let a = e[0];
        let b = e[1];
        let c = e[2];
        let hit = (a == 122 && b == 105 && c == 112) || (a == 99 && b == 98 && c == 122) || (a
            == 114 && b == 97 && c == 114) || (a == 99 && b == 98 && c == 114) || (a == 116 && b
            == 97 && c == 114);
        proof {
            if hit {
                if a == 122 {
                    assert(e@ =~= ext_zip());
                } else if a == 99 && c == 122 {
                    assert(e@ =~= ext_cbz());
                } else if a == 114 {
                    assert(e@ =~= ext_rar());
                } else if a == 99 {
                    assert(e@ =~= ext_cbr());
                } else {
                    assert(e@ =~= ext_tar());
                }
            } else {
                assert(e@ != ext_zip() && e@ != ext_cbz() && e@ != ext_rar() && e@ != ext_cbr()
                    && e@ != ext_tar()) by {
                    if e@ == ext_zip() {
                        assert(a == 122 && b == 105 && c == 112);
                    }
                    if e@ == ext_cbz() {
                        assert(a == 99 && b == 98 && c == 122);
                    }
                    if e@ == ext_rar() {
                        assert(a == 114 && b == 97 && c == 114);
                    }
                    if e@ == ext_cbr() {
                        assert(a == 99 && b == 98 && c == 114);
                    }
                    if e@ == ext_tar() {
                        assert(a == 116 && b == 97 && c == 114);
                    }
                }
                assert(e@.len() != 2);
            }
        }
        return hit;
    }
    if e.len() == 2 {
        let hit = e[0] == 55 && e[1] == 122;
        proof {
            if hit {
                assert(e@ =~= ext_7z());
            } else {
                if e@ == ext_7z() {
                    assert(e@[0] == 55 && e@[1] == 122);
                }
            }
            assert(e@.len() != 3);
        }
        return hit;
    }
    proof {
        assert(e@.len() != 3 && e@.len() != 2);
    }
    false
}

/// Whether `s` ends with `t`, byte for byte.
pub fn ends_with_bytes(s: &Vec<u8>, t: &Vec<u8>) -> (r: bool)
    ensures
        r == ends_with(s@, t@),
{
    if t.len() > s.len() {
        return false;
    }
    let off: usize = s.len() - t.len();
    let mut idx: usize = off;
    while idx < s.len()
        invariant
            off <= idx <= s@.len(),
            off == s@.len() - t@.len(),
            t@.len() <= s@.len(),
            forall|j: int| 0 <= j < idx - off ==> s@[off + j] == t@[j],
        decreases s.len() - idx,
    {
        if s[idx] != t[idx - off] {
            assert(s@.subrange(s@.len() - t@.len(), s@.len() as int)[idx - off] != t@[idx - off]);
            return false;
        }
        idx = idx + 1;
    }
    assert(s@.subrange(s@.len() - t@.len(), s@.len() as int) =~= t@);
    true
}

/// Whether a MIME string names one of the known archive kinds.
pub fn mime_is_archive(m: &Vec<u8>) -> (r: bool)
    ensures
        r == spec_mime_archive(m@),
{
    let zip_e: Vec<u8> = vec![122u8, 105u8, 112u8];
    let cbz_e: Vec<u8> = vec![99u8, 98u8, 122u8];
    let rar_e: Vec<u8> = vec![114u8, 97u8, 114u8];
    let cbr_e: Vec<u8> = vec![99u8, 98u8, 114u8];
    let tar_e: Vec<u8> = vec![116u8, 97u8, 114u8];
    let sz_e: Vec<u8> = vec![55u8, 122u8];
    proof {
        assert(zip_e@ =~= ext_zip());
        assert(cbz_e@ =~= ext_cbz());
        assert(rar_e@ =~= ext_rar());
        assert(cbr_e@ =~= ext_cbr());
        assert(tar_e@ =~= ext_tar());
        assert(sz_e@ =~= ext_7z());
    }
    ends_with_bytes(m, &zip_e) || ends_with_bytes(m, &cbz_e) || ends_with_bytes(m, &rar_e)
        || ends_with_bytes(m, &cbr_e) || ends_with_bytes(m, &tar_e) || ends_with_bytes(m, &sz_e)
}

/// Whether a name with in-memory contents denotes an archive: a known
/// extension decides alone, else the bytes are sniffed.
pub fn is_archive_bytes(name: &PathU8, bytes: &Vec<u8>) -> (r: bool)
    ensures
        name_ext(name@) is Some ==> r == spec_is_archive_ext(name_ext(name@)->Some_0),
{
    match extension_of(name) {
        Some(e) => is_archive_extension(&e),
        None => {
            let mime = mime_of_bytes(bytes);
            mime_is_archive(&mime)
        },
    }
}

/// Whether a name, with the given source, denotes an archive.  A known
/// extension decides alone; a name without an extension falls back to MIME
/// sniffing of in-memory bytes.  A bare path with no extension cannot be
/// sniffed without I/O and is reported as not an archive; a caller holding
/// only a path supplies the bytes instead.
pub fn is_archive(name: &PathU8, file_or_mem: &FileOrMem) -> (r: bool)
    ensures
        name_ext(name@) is Some ==> r == spec_is_archive_ext(name_ext(name@)->Some_0),
        name_ext(name@) is None && file_or_mem is Path ==> r == false,
{
    match extension_of(name) {
        Some(e) => is_archive_extension(&e),
        None => match file_or_mem {
            FileOrMem::Path(_) => false,
            FileOrMem::Mem(m) => {
                let mime = mime_of_bytes(m);
                mime_is_archive(&mime)
            },
        },
    }
}

} // verus!
