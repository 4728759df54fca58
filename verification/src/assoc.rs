//! Association sequences: key/value pairs with byte-string keys, the common
//! model behind the byte cache, the directory index and the handle cache.

use vstd::prelude::*;

verus! {

pub open spec fn rec_contains<V>(s: Seq<(Seq<u8>, V)>, k: Seq<u8>) -> bool {
    exists|i: int| 0 <= i < s.len() && (#[trigger] s[i]).0 == k
}

/// The value stored under `k`; meaningful when the keys are unique.
pub open spec fn rec_val<V>(s: Seq<(Seq<u8>, V)>, k: Seq<u8>) -> V {
    s[choose|i: int| 0 <= i < s.len() && (#[trigger] s[i]).0 == k].1
}

pub open spec fn unique_keys<V>(s: Seq<(Seq<u8>, V)>) -> bool {
    forall|i: int, j: int| 0 <= i < j < s.len() ==> (#[trigger] s[i]).0 != (#[trigger] s[j]).0
}

/// With unique keys, the entry at any index is the one its key finds.
pub proof fn lemma_val_at<V>(s: Seq<(Seq<u8>, V)>, i: int)
    requires
        unique_keys(s),
        0 <= i < s.len(),
    ensures
        rec_contains(s, s[i].0),
        rec_val(s, s[i].0) == s[i].1,
{
    assert(0 <= i < s.len() && s[i].0 == s[i].0);
    let j = choose|j: int| 0 <= j < s.len() && (#[trigger] s[j]).0 == s[i].0;
    if j != i {
        if j < i {
            assert(s[j].0 != s[i].0);
        } else {
            assert(s[i].0 != s[j].0);
        }
    }
}

/// Dropping the first entry keeps every other key and value.
pub proof fn lemma_drop_first<V>(s: Seq<(Seq<u8>, V)>)
    requires
        unique_keys(s),
        s.len() > 0,
    ensures
        unique_keys(s.drop_first()),
        forall|k2: Seq<u8>| #[trigger]
            rec_contains(s.drop_first(), k2) ==> rec_contains(s, k2) && rec_val(
                s.drop_first(),
                k2,
            ) == rec_val(s, k2),
        forall|k2: Seq<u8>| #[trigger]
            rec_contains(s, k2) && k2 != s[0].0 ==> rec_contains(s.drop_first(), k2),
{
    let t = s.drop_first();
    assert(forall|i: int| 0 <= i < t.len() ==> #[trigger] t[i] == s[i + 1]);
    assert forall|k2: Seq<u8>| #[trigger]
        rec_contains(t, k2) implies rec_contains(s, k2) && rec_val(t, k2) == rec_val(s, k2) by {
        let i = choose|i: int| 0 <= i < t.len() && (#[trigger] t[i]).0 == k2;
        assert(s[i + 1].0 == k2);
        lemma_val_at(s, i + 1);
        lemma_val_at(t, i);
    }
    assert forall|k2: Seq<u8>| #[trigger]
        rec_contains(s, k2) && k2 != s[0].0 implies rec_contains(t, k2) by {
        let i = choose|i: int| 0 <= i < s.len() && (#[trigger] s[i]).0 == k2;
        assert(i != 0);
        assert(t[i - 1].0 == k2);
    }
}

/// Appending a fresh key keeps every other key and value and adds the new one.
pub proof fn lemma_push_fresh<V>(s: Seq<(Seq<u8>, V)>, k: Seq<u8>, v: V)
    requires
        unique_keys(s),
        !rec_contains(s, k),
    ensures
        unique_keys(s.push((k, v))),
        rec_contains(s.push((k, v)), k),
        rec_val(s.push((k, v)), k) == v,
        forall|k2: Seq<u8>| #[trigger]
            rec_contains(s.push((k, v)), k2) && k2 != k ==> rec_contains(s, k2) && rec_val(
                s.push((k, v)),
                k2,
            ) == rec_val(s, k2),
        forall|k2: Seq<u8>| #[trigger] rec_contains(s, k2) ==> rec_contains(s.push((k, v)), k2),
{
    let t = s.push((k, v));
    assert(forall|i: int| 0 <= i < s.len() ==> #[trigger] t[i] == s[i]);
    assert(t[s.len() as int] == (k, v));
    assert(unique_keys(t)) by {
        assert forall|i: int, j: int| 0 <= i < j < t.len() implies (#[trigger] t[i]).0 != (
        #[trigger] t[j]).0 by {
            if j < s.len() {
            } else {
                assert(t[j].0 == k);
                assert(t[i] == s[i]);
                if t[i].0 == k {
                    assert(rec_contains(s, k));
                }
            }
        }
    }
    lemma_val_at(t, s.len() as int);
    assert forall|k2: Seq<u8>| #[trigger]
        rec_contains(t, k2) && k2 != k implies rec_contains(s, k2) && rec_val(t, k2) == rec_val(
        s,
        k2,
    ) by {
        let i = choose|i: int| 0 <= i < t.len() && (#[trigger] t[i]).0 == k2;
        assert(i < s.len());
        lemma_val_at(s, i);
        lemma_val_at(t, i);
    }
    assert forall|k2: Seq<u8>| #[trigger] rec_contains(s, k2) implies rec_contains(t, k2) by {
        let i = choose|i: int| 0 <= i < s.len() && (#[trigger] s[i]).0 == k2;
        assert(t[i].0 == k2);
    }
}

/// Removing one entry keeps every other key and value.
pub proof fn lemma_remove_at<V>(s: Seq<(Seq<u8>, V)>, i: int)
    requires
        unique_keys(s),
        0 <= i < s.len(),
    ensures
        unique_keys(s.remove(i)),
        !rec_contains(s.remove(i), s[i].0),
        forall|k2: Seq<u8>| #[trigger]
            rec_contains(s.remove(i), k2) ==> rec_contains(s, k2) && rec_val(s.remove(i), k2)
                == rec_val(s, k2),
        forall|k2: Seq<u8>| #[trigger]
            rec_contains(s, k2) && k2 != s[i].0 ==> rec_contains(s.remove(i), k2),
{
    let t = s.remove(i);
    assert(forall|j: int| 0 <= j < i ==> #[trigger] t[j] == s[j]);
    assert(forall|j: int| i <= j < t.len() ==> #[trigger] t[j] == s[j + 1]);
    assert(unique_keys(t)) by {
        assert forall|a: int, b: int| 0 <= a < b < t.len() implies (#[trigger] t[a]).0 != (
        #[trigger] t[b]).0 by {
            let sa = if a < i {
                a
            } else {
                a + 1
            };
            let sb = if b < i {
                b
            } else {
                b + 1
            };
            assert(t[a] == s[sa] && t[b] == s[sb]);
        }
    }
    assert(!rec_contains(t, s[i].0)) by {
        if rec_contains(t, s[i].0) {
            let j = choose|j: int| 0 <= j < t.len() && (#[trigger] t[j]).0 == s[i].0;
            let sj = if j < i {
                j
            } else {
                j + 1
            };
            assert(s[sj].0 == s[i].0 && sj != i);
        }
    }
    assert forall|k2: Seq<u8>| #[trigger]
        rec_contains(t, k2) implies rec_contains(s, k2) && rec_val(t, k2) == rec_val(s, k2) by {
        let j = choose|j: int| 0 <= j < t.len() && (#[trigger] t[j]).0 == k2;
        let sj = if j < i {
            j
        } else {
            j + 1
        };
        assert(t[j] == s[sj]);
        lemma_val_at(s, sj);
        lemma_val_at(t, j);
    }
    assert forall|k2: Seq<u8>| #[trigger]
        rec_contains(s, k2) && k2 != s[i].0 implies rec_contains(t, k2) by {
        let j = choose|j: int| 0 <= j < s.len() && (#[trigger] s[j]).0 == k2;
        if j < i {
            assert(t[j].0 == k2);
        } else {
            assert(j != i);
            assert(t[j - 1].0 == k2);
        }
    }
}

} // verus!
