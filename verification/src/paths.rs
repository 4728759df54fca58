//! Byte-level path model.
//!
//! A path is a relative, slash-separated sequence of byte components.  Two
//! paths denote the same virtual node exactly when their canonical component
//! sequences are equal, so every cache key is the canonical joined form:
//! components split on `/`, with empty components and `.` components dropped.

use vstd::prelude::*;

verus! {

/// A path as a plain byte string, slash-separated and relative.
pub type PathU8 = Vec<u8>;

/// The identity of a virtual tree node: the canonical byte form of its path.
pub type NodeId = Vec<u8>;

pub const SLASH: u8 = 47;

pub const DOT: u8 = 46;

/// A component survives canonicalization if it is neither empty nor `.`.
pub open spec fn keep_comp(c: Seq<u8>) -> bool {
    c.len() > 0 && c != seq![DOT]
}

/// Components of `s` when scanning with `cur` as the partial component read so far.
pub open spec fn scan_comps(s: Seq<u8>, cur: Seq<u8>) -> Seq<Seq<u8>>
    decreases s.len(),
{
    if s.len() == 0 {
        if keep_comp(cur) {
            seq![cur]
        } else {
            Seq::empty()
        }
    } else if s[0] == SLASH {
        (if keep_comp(cur) {
            seq![cur]
        } else {
            Seq::empty()
        }) + scan_comps(s.drop_first(), Seq::empty())
    } else {
        scan_comps(s.drop_first(), cur.push(s[0]))
    }
}

/// The canonical component sequence of a byte path.
pub open spec fn canon_comps(s: Seq<u8>) -> Seq<Seq<u8>> {
    scan_comps(s, Seq::empty())
}

/// Components joined with single slashes, no leading or trailing slash.
pub open spec fn join_comps(cs: Seq<Seq<u8>>) -> Seq<u8>
    decreases cs.len(),
{
    if cs.len() == 0 {
        Seq::empty()
    } else if cs.len() == 1 {
        cs[0]
    } else {
        cs[0] + seq![SLASH] + join_comps(cs.drop_first())
    }
}

/// The canonical byte form of a path: its node identity.
pub open spec fn canon_of(s: Seq<u8>) -> Seq<u8> {
    join_comps(canon_comps(s))
}

/// A component sequence that canonicalization can produce: every component
/// nonempty, slash-free, and not `.`.
pub open spec fn valid_comp(c: Seq<u8>) -> bool {
    &&& keep_comp(c)
    &&& forall|i: int| 0 <= i < c.len() ==> c[i] != SLASH
}

pub open spec fn valid_comps(cs: Seq<Seq<u8>>) -> bool {
    forall|i: int| 0 <= i < cs.len() ==> valid_comp(#[trigger] cs[i])
}

pub open spec fn view_comps(cs: Seq<PathU8>) -> Seq<Seq<u8>> {
    cs.map_values(|c: PathU8| c@)
}

/// Scanning `a / b` yields the components of `a` (seeded with `cur`) followed
/// by the components of `b`.
pub proof fn lemma_scan_append(a: Seq<u8>, b: Seq<u8>, cur: Seq<u8>)
    ensures
        scan_comps(a + seq![SLASH] + b, cur) == scan_comps(a, cur) + scan_comps(b, Seq::empty()),
    decreases a.len(),
{
    let whole = a + seq![SLASH] + b;
    if a.len() == 0 {
        assert(whole[0] == SLASH);
        assert(whole.drop_first() =~= b);
        assert(scan_comps(whole, cur) == (if keep_comp(cur) {
            seq![cur]
        } else {
            Seq::<Seq<u8>>::empty()
        }) + scan_comps(b, Seq::empty()));
        assert(scan_comps(a, cur) =~= if keep_comp(cur) {
            seq![cur]
        } else {
            Seq::<Seq<u8>>::empty()
        });
    } else {
        assert(whole[0] == a[0]);
        assert(whole.drop_first() =~= a.drop_first() + seq![SLASH] + b);
        if a[0] == SLASH {
            lemma_scan_append(a.drop_first(), b, Seq::empty());
        } else {
            lemma_scan_append(a.drop_first(), b, cur.push(a[0]));
        }
    }
}

/// Canonical components distribute over a slash join.
pub proof fn lemma_canon_append(a: Seq<u8>, b: Seq<u8>)
    ensures
        canon_comps(a + seq![SLASH] + b) == canon_comps(a) + canon_comps(b),
{
    lemma_scan_append(a, b, Seq::empty());
}

/// Joining nonempty component sequences is associative with a slash between.
pub proof fn lemma_join_append(cs1: Seq<Seq<u8>>, cs2: Seq<Seq<u8>>)
    requires
        cs1.len() > 0,
        cs2.len() > 0,
    ensures
        join_comps(cs1 + cs2) == join_comps(cs1) + seq![SLASH] + join_comps(cs2),
    decreases cs1.len(),
{
    let whole = cs1 + cs2;
    if cs1.len() == 1 {
        assert(whole.len() >= 2);
        assert(whole[0] == cs1[0]);
        assert(whole.drop_first() =~= cs2);
        assert(join_comps(cs1) =~= cs1[0]);
    } else {
        assert(whole[0] == cs1[0]);
        assert(whole.drop_first() =~= cs1.drop_first() + cs2);
        lemma_join_append(cs1.drop_first(), cs2);
        assert(join_comps(cs1 + cs2) =~= join_comps(cs1) + seq![SLASH] + join_comps(cs2));
    }
}

/// Every component that scanning produces is valid, provided the seed read so
/// far contains no slash.
pub proof fn lemma_scan_valid(s: Seq<u8>, cur: Seq<u8>)
    requires
        forall|i: int| 0 <= i < cur.len() ==> cur[i] != SLASH,
    ensures
        valid_comps(scan_comps(s, cur)),
    decreases s.len(),
{
    if s.len() == 0 {
    } else if s[0] == SLASH {
        lemma_scan_valid(s.drop_first(), Seq::empty());
        assert forall|i: int| 0 <= i < scan_comps(s, cur).len() implies valid_comp(
            #[trigger] scan_comps(s, cur)[i],
        ) by {
            let tail = scan_comps(s.drop_first(), Seq::empty());
            if keep_comp(cur) {
                if i >= 1 {
                    assert(scan_comps(s, cur)[i] == tail[i - 1]);
                }
            } else {
                assert(scan_comps(s, cur)[i] == tail[i]);
            }
        }
    } else {
        lemma_scan_valid(s.drop_first(), cur.push(s[0]));
    }
}

pub proof fn lemma_canon_valid(s: Seq<u8>)
    ensures
        valid_comps(canon_comps(s)),
{
    lemma_scan_valid(s, Seq::empty());
}

/// On a valid component sequence, canonicalization of the joined form gives
/// the components back: canonical byte paths are fixed points.
pub proof fn lemma_canon_join(cs: Seq<Seq<u8>>)
    requires
        valid_comps(cs),
    ensures
        canon_comps(join_comps(cs)) == cs,
    decreases cs.len(),
{
    if cs.len() == 0 {
    } else if cs.len() == 1 {
        lemma_scan_single(cs[0], Seq::empty());
        assert(canon_comps(join_comps(cs)) =~= cs);
    } else {
        lemma_canon_append(cs[0], join_comps(cs.drop_first()));
        lemma_scan_single(cs[0], Seq::empty());
        lemma_canon_join(cs.drop_first());
        assert(canon_comps(join_comps(cs)) =~= cs);
    }
}

/// A single slash-free kept component scans to itself.
pub proof fn lemma_scan_single(c: Seq<u8>, done: Seq<u8>)
    requires
        valid_comp(done + c),
        forall|i: int| 0 <= i < c.len() ==> c[i] != SLASH,
    ensures
        scan_comps(c, done) == seq![done + c],
    decreases c.len(),
{
    if c.len() == 0 {
        assert(done + c =~= done);
        assert(scan_comps(c, done) =~= seq![done + c]);
    } else {
        assert(c[0] != SLASH);
        assert(done.push(c[0]) + c.drop_first() =~= done + c);
        lemma_scan_single(c.drop_first(), done.push(c[0]));
    }
}

/// Splits a path into its canonical components.
pub fn split_components(p: &PathU8) -> (r: Vec<PathU8>)
    ensures
        view_comps(r@) == canon_comps(p@),
{
    let mut acc: Vec<PathU8> = Vec::new();
    let mut cur: Vec<u8> = Vec::new();
    let mut i: usize = 0;
    assert(p@.skip(0) =~= p@);
    assert(view_comps(acc@) + scan_comps(p@, cur@) =~= scan_comps(p@, Seq::empty()));
    while i < p.len()
        invariant
            i <= p.len(),
            canon_comps(p@) == view_comps(acc@) + scan_comps(p@.skip(i as int), cur@),
        decreases p.len() - i,
    {
        let ghost pre_acc = acc@;
        let ghost pre_cur = cur@;
        assert(p@.skip(i as int)[0] == p@[i as int]);
        assert(p@.skip(i as int).drop_first() =~= p@.skip(i as int + 1));
        if p[i] == SLASH {
            if cur.len() > 0 && !(cur.len() == 1 && cur[0] == DOT) {
                assert(pre_cur != seq![DOT]);
                acc.push(cur);
                cur = Vec::new();
                assert(view_comps(acc@) =~= view_comps(pre_acc).push(pre_cur));
            } else {
                assert(!keep_comp(pre_cur)) by {
                    if pre_cur.len() == 1 && pre_cur[0] == DOT {
                        assert(pre_cur =~= seq![DOT]);
                    }
                }
                cur.clear();
            }
            assert(view_comps(acc@) + scan_comps(p@.skip(i as int + 1), Seq::empty())
                =~= pre_acc.map_values(|c: PathU8| c@) + scan_comps(p@.skip(i as int), pre_cur));
        } else {
            cur.push(p[i]);
        }
        i = i + 1;
    }
    assert(p@.skip(p.len() as int) =~= Seq::<u8>::empty());
    let ghost pre_acc = acc@;
    let ghost pre_cur = cur@;
    if cur.len() > 0 && !(cur.len() == 1 && cur[0] == DOT) {
        assert(pre_cur != seq![DOT]);
        acc.push(cur);
        assert(view_comps(acc@) =~= view_comps(pre_acc).push(pre_cur));
    } else {
        assert(!keep_comp(pre_cur)) by {
            if pre_cur.len() == 1 && pre_cur[0] == DOT {
                assert(pre_cur =~= seq![DOT]);
            }
        }
    }
    assert(view_comps(acc@) =~= canon_comps(p@));
    acc
}

/// Joins components with single slashes.
pub fn join_components(cs: &Vec<PathU8>) -> (r: PathU8)
    ensures
        r@ == join_comps(view_comps(cs@)),
{
    let mut r: Vec<u8> = Vec::new();
    if cs.len() == 0 {
        assert(r@ =~= join_comps(view_comps(cs@)));
        return r;
    }
    let mut i: usize = 0;
    while i < cs.len()
        invariant
            i <= cs.len(),
            cs@.len() > 0,
            i > 0 ==> r@ == join_comps(view_comps(cs@.take(i as int))),
            i == 0 ==> r@ == Seq::<u8>::empty(),
        decreases cs.len() - i,
    {
        let ghost pre = r@;
        if i > 0 {
            r.push(SLASH);
        }
        let mut j: usize = 0;
        let ghost mid = r@;
        while j < cs[i].len()
            invariant
                0 <= i < cs@.len(),
                j <= cs@[i as int].len(),
                r@ == mid + cs@[i as int]@.take(j as int),
            decreases cs@[i as int].len() - j,
        {
            let b = cs[i][j];
            r.push(b);
            assert(r@ =~= mid + cs@[i as int]@.take(j as int + 1));
            j = j + 1;
        }
        assert(cs@[i as int]@.take(cs@[i as int]@.len() as int) =~= cs@[i as int]@);
        proof {
            let full = view_comps(cs@);
            assert(view_comps(cs@.take(i as int)) =~= full.take(i as int));
            assert(view_comps(cs@.take(i as int + 1)) =~= full.take(i as int + 1));
            if i == 0 {
                assert(full.take(1) =~= seq![full[0]]);
                assert(join_comps(full.take(1)) == full[0]);
                assert(r@ =~= full[0]);
            } else {
                lemma_join_append(full.take(i as int), seq![full[i as int]]);
                assert(full.take(i as int) + seq![full[i as int]] =~= full.take(i as int + 1));
                assert(join_comps(seq![full[i as int]]) == full[i as int]);
                assert(mid =~= join_comps(full.take(i as int)) + seq![SLASH]);
                assert(r@ =~= join_comps(full.take(i as int)) + seq![SLASH] + full[i as int]);
            }
            assert(r@ == join_comps(view_comps(cs@.take(i as int + 1))));
        }
        i = i + 1;
    }
    assert(view_comps(cs@.take(cs@.len() as int)) =~= view_comps(cs@));
    r
}

/// The node identity of a path: equal paths in the sense of the data model
/// (same canonical component sequence) map to equal identities.
pub fn path_to_id(path: &PathU8) -> (r: NodeId)
    ensures
        r@ == canon_of(path@),
{
    let comps = split_components(path);
    join_components(&comps)
}

/// What joining an identity and a relative part yields.
pub open spec fn spec_join_may_empty(lhs: Seq<u8>, rhs: Seq<u8>) -> Seq<u8> {
    if lhs.len() == 0 {
        rhs
    } else if rhs.len() == 0 {
        lhs
    } else {
        lhs + seq![SLASH] + rhs
    }
}

/// Joins two byte paths, treating an empty side as absent.
pub fn join_may_empty(lhs: &PathU8, rhs: &PathU8) -> (r: PathU8)
    ensures
        r@ == spec_join_may_empty(lhs@, rhs@),
{
    if lhs.len() == 0 {
        return rhs.clone();
    }
    if rhs.len() == 0 {
        return lhs.clone();
    }
    let mut r = lhs.clone();
    r.push(SLASH);
    let mut j: usize = 0;
    let ghost mid = r@;
    while j < rhs.len()
        invariant
            j <= rhs@.len(),
            r@ == mid + rhs@.take(j as int),
        decreases rhs.len() - j,
    {
        let b = rhs[j];
        r.push(b);
        assert(r@ =~= mid + rhs@.take(j as int + 1));
        j = j + 1;
    }
    assert(rhs@.take(rhs@.len() as int) =~= rhs@);
    assert(r@ =~= lhs@ + seq![SLASH] + rhs@);
    r
}

/// Joining canonical paths gives a canonical path whose components are the
/// concatenation of both sides' components.
pub proof fn lemma_join_canon(lhs: Seq<u8>, rhs: Seq<u8>)
    requires
        lhs == canon_of(lhs),
        rhs == canon_of(rhs),
    ensures
        canon_of(spec_join_may_empty(lhs, rhs)) == spec_join_may_empty(lhs, rhs),
        canon_comps(spec_join_may_empty(lhs, rhs)) == canon_comps(lhs) + canon_comps(rhs),
    decreases lhs.len(),
{
    lemma_canon_valid(lhs);
    lemma_canon_valid(rhs);
    lemma_canon_join(canon_comps(lhs));
    lemma_canon_join(canon_comps(rhs));
    if lhs.len() == 0 {
        assert(canon_comps(lhs).len() == 0) by {
            if canon_comps(lhs).len() > 0 {
                lemma_join_nonempty(canon_comps(lhs));
            }
        }
        assert(canon_comps(lhs) + canon_comps(rhs) =~= canon_comps(rhs));
    } else if rhs.len() == 0 {
        assert(canon_comps(rhs).len() == 0) by {
            if canon_comps(rhs).len() > 0 {
                lemma_join_nonempty(canon_comps(rhs));
            }
        }
        assert(canon_comps(lhs) + canon_comps(rhs) =~= canon_comps(lhs));
    } else {
        lemma_canon_append(lhs, rhs);
        assert(canon_comps(spec_join_may_empty(lhs, rhs)) == canon_comps(lhs) + canon_comps(rhs));
        assert(canon_comps(lhs).len() > 0) by {
            if canon_comps(lhs).len() == 0 {
                assert(lhs =~= Seq::<u8>::empty());
            }
        }
        assert(canon_comps(rhs).len() > 0) by {
            if canon_comps(rhs).len() == 0 {
                assert(rhs =~= Seq::<u8>::empty());
            }
        }
        lemma_join_append(canon_comps(lhs), canon_comps(rhs));
        lemma_canon_join(canon_comps(lhs) + canon_comps(rhs));
    }
}

/// Joining component groups one after the other is the same as joining their
/// concatenation.
pub proof fn lemma_join_assoc(a: Seq<u8>, cs1: Seq<Seq<u8>>, cs2: Seq<Seq<u8>>)
    requires
        valid_comps(cs1),
        valid_comps(cs2),
    ensures
        spec_join_may_empty(a, join_comps(cs1 + cs2)) == spec_join_may_empty(
            spec_join_may_empty(a, join_comps(cs1)),
            join_comps(cs2),
        ),
{
    if cs1.len() == 0 {
        assert(cs1 + cs2 =~= cs2);
        assert(join_comps(cs1) =~= Seq::<u8>::empty());
        assert(spec_join_may_empty(a, join_comps(cs1)) =~= a);
    } else if cs2.len() == 0 {
        assert(cs1 + cs2 =~= cs1);
        assert(join_comps(cs2) =~= Seq::<u8>::empty());
    } else {
        lemma_join_append(cs1, cs2);
        lemma_join_nonempty(cs1);
        lemma_join_nonempty(cs2);
        let j1 = join_comps(cs1);
        let j2 = join_comps(cs2);
        if a.len() == 0 {
            assert(spec_join_may_empty(a, j1 + seq![SLASH] + j2) =~= j1 + seq![SLASH] + j2);
            assert(spec_join_may_empty(j1, j2) =~= j1 + seq![SLASH] + j2);
        } else {
            assert(spec_join_may_empty(a, j1 + seq![SLASH] + j2) =~= a + seq![SLASH] + j1 + seq![
                SLASH,
            ] + j2);
            assert(spec_join_may_empty(spec_join_may_empty(a, j1), j2) =~= a + seq![SLASH] + j1
                + seq![SLASH] + j2);
        }
    }
}

/// A nonempty valid component sequence joins to a nonempty byte path.
pub proof fn lemma_join_nonempty(cs: Seq<Seq<u8>>)
    requires
        valid_comps(cs),
        cs.len() > 0,
    ensures
        join_comps(cs).len() > 0,
{
    assert(valid_comp(cs[0]));
    if cs.len() == 1 {
    } else {
        assert(join_comps(cs).len() >= cs[0].len());
    }
}

pub open spec fn is_prefix_of(p: Seq<u8>, s: Seq<u8>) -> bool {
    p.len() <= s.len() && forall|i: int| 0 <= i < p.len() ==> s[i] == p[i]
}

/// Byte equality of two paths.
pub fn eq_bytes(a: &PathU8, b: &PathU8) -> (r: bool)
    ensures
        r == (a@ == b@),
{
    if a.len() != b.len() {
        assert(a@ != b@) by {
            if a@ == b@ {
                assert(a@.len() == b@.len());
            }
        }
        return false;
    }
    let mut i: usize = 0;
    while i < a.len()
        invariant
            i <= a@.len(),
            a@.len() == b@.len(),
            forall|j: int| 0 <= j < i ==> a@[j] == b@[j],
        decreases a.len() - i,
    {
        if a[i] != b[i] {
            return false;
        }
        i = i + 1;
    }
    assert(a@ =~= b@);
    true
}

/// Whether `prefix` is a byte prefix of `s`.
pub fn starts_with_bytes(s: &PathU8, prefix: &PathU8) -> (r: bool)
    ensures
        r == is_prefix_of(prefix@, s@),
{
    if prefix.len() > s.len() {
        return false;
    }
    let mut i: usize = 0;
    while i < prefix.len()
        invariant
            i <= prefix@.len(),
            prefix@.len() <= s@.len(),
            forall|j: int| 0 <= j < i ==> s@[j] == prefix@[j],
        decreases prefix.len() - i,
    {
        if s[i] != prefix[i] {
            return false;
        }
        i = i + 1;
    }
    true
}

/// The bytes of a path from an offset on.
pub fn bytes_from(v: &PathU8, from: usize) -> (r: PathU8)
    requires
        from <= v@.len(),
    ensures
        r@ == v@.skip(from as int),
{
    let mut r: Vec<u8> = Vec::new();
    let mut i: usize = from;
    while i < v.len()
        invariant
            from <= i <= v@.len(),
            r@ == v@.subrange(from as int, i as int),
        decreases v.len() - i,
    {
        let b = v[i];
        r.push(b);
        assert(r@ =~= v@.subrange(from as int, i as int + 1));
        i = i + 1;
    }
    assert(v@.subrange(from as int, v@.len() as int) =~= v@.skip(from as int));
    r
}

/// The first `k` components, as values.
pub fn comps_prefix(cs: &Vec<PathU8>, k: usize) -> (r: Vec<PathU8>)
    requires
        k <= cs@.len(),
    ensures
        view_comps(r@) == view_comps(cs@).take(k as int),
{
    let mut r: Vec<PathU8> = Vec::new();
    let mut i: usize = 0;
    while i < k
        invariant
            i <= k <= cs@.len(),
            r@.len() == i,
            forall|j: int| 0 <= j < i ==> (#[trigger] r@[j])@ == cs@[j]@,
        decreases k - i,
    {
        r.push(cs[i].clone());
        i = i + 1;
    }
    assert(view_comps(r@) =~= view_comps(cs@).take(k as int));
    r
}

/// The components from index `k` on, as values.
pub fn comps_suffix(cs: &Vec<PathU8>, k: usize) -> (r: Vec<PathU8>)
    requires
        k <= cs@.len(),
    ensures
        view_comps(r@) == view_comps(cs@).skip(k as int),
{
    let mut r: Vec<PathU8> = Vec::new();
    let mut i: usize = k;
    while i < cs.len()
        invariant
            k <= i <= cs@.len(),
            r@.len() == i - k,
            forall|j: int| 0 <= j < i - k ==> (#[trigger] r@[j])@ == cs@[j + k]@,
        decreases cs.len() - i,
    {
        r.push(cs[i].clone());
        i = i + 1;
    }
    assert(view_comps(r@) =~= view_comps(cs@).skip(k as int));
    r
}

/// The placeholder shown for an empty name in renderings.
pub fn to_display_name(v: &PathU8) -> (r: PathU8)
    ensures
        v@.len() == 0 ==> r@ == seq![42u8, 69u8, 77u8, 80u8, 84u8, 89u8, 42u8],
        v@.len() > 0 ==> r@ == v@,
{
    if v.len() == 0 {
        let star_empty_star: Vec<u8> = vec![42u8, 69u8, 77u8, 80u8, 84u8, 89u8, 42u8];
        return star_empty_star;
    }
    v.clone()
}

} // verus!
