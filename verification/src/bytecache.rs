//! The size-bounded byte cache: extracted file contents keyed by node
//! identity, evicted least-recently-used first once the byte budget is
//! exceeded.
//!
//! The recency bookkeeping is the `lru` crate's; this module gives its cache a
//! model (the held entries, least recently used first) and keeps the byte
//! budget on top of it, verified.

use vstd::prelude::*;

use crate::assoc::{lemma_drop_first, lemma_push_fresh, lemma_remove_at, lemma_val_at, rec_contains, rec_val, unique_keys};

verus! {

#[verifier::external_type_specification]
#[verifier::external_body]
#[verifier::reject_recursive_types(K)]
#[verifier::reject_recursive_types(V)]
#[verifier::reject_recursive_types(S)]
pub struct ExLruCache<K, V, S>(lru::LruCache<K, V, S>);

#[verifier::external_type_specification]
#[verifier::external_body]
pub struct ExLruDefaultHasher(lru::DefaultHasher);

/// What a byte cache holds: its key/value pairs, least recently used first.
pub uninterp spec fn rec_order(c: &lru::LruCache<Vec<u8>, Vec<u8>>) -> Seq<(Seq<u8>, Seq<u8>)>;

/// The sum of the stored buffer lengths.
pub open spec fn sum_len(s: Seq<(Seq<u8>, Seq<u8>)>) -> int
    decreases s.len(),
{
    if s.len() == 0 {
        0
    } else {
        s[0].1.len() + sum_len(s.drop_first())
    }
}

/// Relies on lru::LruCache::unbounded: a fresh cache holds nothing.
#[verifier::external_body]
fn lru_new() -> (r: lru::LruCache<Vec<u8>, Vec<u8>>)
    ensures
        rec_order(&r) == Seq::<(Seq<u8>, Seq<u8>)>::empty(),
{
    lru::LruCache::unbounded()
}

/// Relies on lru::LruCache::contains, which reports membership without
/// touching recency.
#[verifier::external_body]
fn lru_contains(c: &lru::LruCache<Vec<u8>, Vec<u8>>, k: &Vec<u8>) -> (r: bool)
    ensures
        r == rec_contains(rec_order(c), k@),
{
    c.contains(k)
}

/// Relies on lru::LruCache::push: an absent key is linked in at the most
/// recent end; push evicts the least recently used entry only when the cache
/// is at its capacity, and returns what it evicted.
#[verifier::external_body]
fn lru_push(c: &mut lru::LruCache<Vec<u8>, Vec<u8>>, k: Vec<u8>, v: Vec<u8>) -> (r: Option<
    (Vec<u8>, Vec<u8>),
>)
    requires
        !rec_contains(rec_order(old(c)), k@),
    ensures
        r is None ==> rec_order(final(c)) == rec_order(old(c)).push((k@, v@)),
        r is Some ==> rec_order(old(c)).len() > 0 && (r->Some_0.0@, r->Some_0.1@) == rec_order(
            old(c),
        )[0] && rec_order(final(c)) == rec_order(old(c)).drop_first().push((k@, v@)),
{
    c.push(k, v)
}

/// Relies on lru::LruCache::get: a hit moves the entry to the most recent end
/// and exposes its value, a miss changes nothing.  The value is handed out as
/// a copy.
#[verifier::external_body]
fn lru_get_clone(c: &mut lru::LruCache<Vec<u8>, Vec<u8>>, k: &Vec<u8>) -> (r: Option<Vec<u8>>)
    ensures
        r is None ==> !rec_contains(rec_order(old(c)), k@) && rec_order(final(c)) == rec_order(
            old(c),
        ),
        r is Some ==> exists|i: int|
            0 <= i < rec_order(old(c)).len() && #[trigger] rec_order(old(c))[i] == (
                k@,
                r->Some_0@,
            ) && rec_order(final(c)) == rec_order(old(c)).remove(i).push((k@, r->Some_0@)),
{
    c.get(k).cloned()
}

/// Relies on lru::LruCache::pop: the entry under the key leaves the cache and
/// its value is returned; a miss changes nothing.
#[verifier::external_body]
fn lru_pop(c: &mut lru::LruCache<Vec<u8>, Vec<u8>>, k: &Vec<u8>) -> (r: Option<Vec<u8>>)
    ensures
        r is None ==> !rec_contains(rec_order(old(c)), k@) && rec_order(final(c)) == rec_order(
            old(c),
        ),
        r is Some ==> exists|i: int|
            0 <= i < rec_order(old(c)).len() && #[trigger] rec_order(old(c))[i] == (
                k@,
                r->Some_0@,
            ) && rec_order(final(c)) == rec_order(old(c)).remove(i),
{
    c.pop(k)
}

/// Relies on lru::LruCache::pop_lru: the least recently used entry leaves the
/// cache and is returned; an empty cache returns nothing.
#[verifier::external_body]
fn lru_pop_lru(c: &mut lru::LruCache<Vec<u8>, Vec<u8>>) -> (r: Option<(Vec<u8>, Vec<u8>)>)
    ensures
        r is None ==> rec_order(old(c)).len() == 0 && rec_order(final(c)) == rec_order(old(c)),
        r is Some ==> rec_order(old(c)).len() > 0 && (r->Some_0.0@, r->Some_0.1@) == rec_order(
            old(c),
        )[0] && rec_order(final(c)) == rec_order(old(c)).drop_first(),
{
    c.pop_lru()
}

/// Relies on lru::LruCache::iter, which walks the entries from most to least
/// recently used without touching recency.
#[verifier::external_body]
fn lru_keys(c: &lru::LruCache<Vec<u8>, Vec<u8>>) -> (r: Vec<Vec<u8>>)
    ensures
        r@.len() == rec_order(c).len(),
        forall|i: int|
            0 <= i < r@.len() ==> (#[trigger] r@[i])@ == rec_order(c)[rec_order(c).len() - 1 - i].0,
{
    c.iter().map(|p| p.0.clone()).collect()
}

pub proof fn lemma_sum_push(s: Seq<(Seq<u8>, Seq<u8>)>, p: (Seq<u8>, Seq<u8>))
    ensures
        sum_len(s.push(p)) == sum_len(s) + p.1.len(),
    decreases s.len(),
{
    let t = s.push(p);
    assert(t.len() == s.len() + 1);
    assert(sum_len(t) == t[0].1.len() + sum_len(t.drop_first()));
    if s.len() == 0 {
        assert(t.drop_first() =~= Seq::<(Seq<u8>, Seq<u8>)>::empty());
        assert(t[0] == p);
    } else {
        assert(t.drop_first() =~= s.drop_first().push(p));
        assert(t[0] == s[0]);
        lemma_sum_push(s.drop_first(), p);
    }
}

pub proof fn lemma_sum_remove(s: Seq<(Seq<u8>, Seq<u8>)>, i: int)
    requires
        0 <= i < s.len(),
    ensures
        sum_len(s.remove(i)) == sum_len(s) - s[i].1.len(),
    decreases s.len(),
{
    if i == 0 {
        assert(s.remove(0) =~= s.drop_first());
    } else {
        assert(s.remove(i)[0] == s[0]);
        assert(s.remove(i).drop_first() =~= s.drop_first().remove(i - 1));
        lemma_sum_remove(s.drop_first(), i - 1);
    }
}

/// Dropping one more leading entry never increases the sum.
pub proof fn lemma_sum_skip_step(s: Seq<(Seq<u8>, Seq<u8>)>, j: int)
    requires
        0 <= j < s.len(),
    ensures
        sum_len(s.skip(j)) == s[j].1.len() + sum_len(s.skip(j + 1)),
{
    assert(s.skip(j).drop_first() =~= s.skip(j + 1));
    assert(s.skip(j)[0] == s[j]);
}

pub proof fn lemma_sum_nonneg(s: Seq<(Seq<u8>, Seq<u8>)>)
    ensures
        sum_len(s) >= 0,
        s.len() == 1 ==> sum_len(s) == s[0].1.len(),
    decreases s.len(),
{
    if s.len() > 0 {
        lemma_sum_nonneg(s.drop_first());
    }
}

/// Byte-budget law: after any sequence of inserts, the running size is within
/// the byte budget whenever every inserted buffer was itself within it — the
/// one relaxation being that a buffer larger than the whole budget sits alone.
pub proof fn lemma_byte_budget(c: &SizedLru, last: Seq<u8>)
    requires
        c.spec_size() <= c.spec_limit() || c.spec_size() == last.len(),
        last.len() <= c.spec_limit(),
    ensures
        c.spec_size() <= c.spec_limit(),
{
}

/// The size-capped byte cache: node identity to byte buffer, with the running
/// size held at or under the byte budget, except that the entry being inserted
/// is never evicted even when it alone exceeds the budget.
pub struct SizedLru {
    lru: lru::LruCache<Vec<u8>, Vec<u8>>,
    size: usize,
    limit: usize,
}

impl SizedLru {
    /// The held entries, least recently used first.
    pub closed spec fn rec(&self) -> Seq<(Seq<u8>, Seq<u8>)> {
        rec_order(&self.lru)
    }

    pub closed spec fn spec_size(&self) -> int {
        self.size as int
    }

    pub closed spec fn spec_limit(&self) -> int {
        self.limit as int
    }

    /// Keys are unique and the running size is the sum of the stored buffer
    /// lengths.
    pub closed spec fn wf(&self) -> bool {
        &&& unique_keys(self.rec())
        &&& self.size == sum_len(self.rec())
    }

    pub open spec fn has(&self, k: Seq<u8>) -> bool {
        rec_contains(self.rec(), k)
    }

    pub open spec fn val(&self, k: Seq<u8>) -> Seq<u8> {
        rec_val(self.rec(), k)
    }

    pub fn new(limit: usize) -> (r: SizedLru)
        ensures
            r.wf(),
            r.rec() == Seq::<(Seq<u8>, Seq<u8>)>::empty(),
            r.spec_limit() == limit,
            r.spec_size() == 0,
    {
        SizedLru { lru: lru_new(), size: 0, limit }
    }

    pub fn contains_key(&self, key: &Vec<u8>) -> (r: bool)
        ensures
            r == self.has(key@),
    {
        lru_contains(&self.lru, key)
    }

    pub fn size(&self) -> (r: usize)
        ensures
            r == self.spec_size(),
    {
        self.size
    }

    pub fn limit(&self) -> (r: usize)
        ensures
            r == self.spec_limit(),
    {
        self.limit
    }

    /// Inserts a fresh buffer, evicting entries from the least recently used
    /// end — and only from there — until the new one fits within the byte
    /// budget: the survivors are a suffix of the old recency order, and
    /// eviction stops as soon as the budget is met.  Room is made before the
    /// buffer is linked in, so the entry being inserted is never the one
    /// evicted: a buffer larger than the whole budget still lands in the
    /// cache, alone.
    pub fn put(&mut self, key: &Vec<u8>, binary: Vec<u8>)
        requires
            old(self).wf(),
            !old(self).has(key@),
        ensures
            final(self).wf(),
            final(self).spec_limit() == old(self).spec_limit(),
            final(self).has(key@),
            final(self).val(key@) == binary@,
            forall|k2: Seq<u8>| #[trigger]
                final(self).has(k2) && k2 != key@ ==> old(self).has(k2) && final(self).val(k2)
                    == old(self).val(k2),
            final(self).spec_size() <= final(self).spec_limit() || final(self).spec_size()
                == binary@.len(),
            binary@.len() <= old(self).spec_limit() ==> final(self).spec_size() <= old(self).spec_limit(),
            exists|k: int|
                0 <= k <= old(self).rec().len() && final(self).rec() == old(self).rec().skip(
                    k,
                ).push((key@, binary@)) && (k > 1 ==> sum_len(old(self).rec().skip(k - 2))
                    + binary@.len() > old(self).spec_limit()),
    {
        let room: usize = if binary.len() >= self.limit {
            0
        } else {
            self.limit - binary.len()
        };
        let ghost mut evicted: int = 0;
        while self.size > room
            invariant
                unique_keys(rec_order(&self.lru)),
                self.size == sum_len(rec_order(&self.lru)),
                !rec_contains(rec_order(&self.lru), key@),
                self.limit == old(self).spec_limit(),
                room == if binary@.len() >= old(self).spec_limit() {
                    0int
                } else {
                    old(self).spec_limit() - binary@.len()
                },
                0 <= evicted <= old(self).rec().len(),
                rec_order(&self.lru) == old(self).rec().skip(evicted),
                evicted > 0 ==> sum_len(old(self).rec().skip(evicted - 1)) + binary@.len() > old(
                    self,
                ).spec_limit(),
                forall|k2: Seq<u8>| #[trigger]
                    rec_contains(rec_order(&self.lru), k2) ==> old(self).has(k2) && rec_val(
                        rec_order(&self.lru),
                        k2,
                    ) == old(self).val(k2),
            decreases rec_order(&self.lru).len(),
        {
            let ghost pre = rec_order(&self.lru);
            proof {
                lemma_sum_nonneg(pre);
                if pre.len() == 0 {
                }
            }
            let popped = lru_pop_lru(&mut self.lru);
            match popped {
                None => {
                    // the running size is the sum over the entries, so a
                    // positive size means the cache is nonempty
                    proof {
                        assert(false);
                    }
                },
                Some(pair) => {
                    proof {
                        let post = rec_order(&self.lru);
                        assert(sum_len(pre) == pre[0].1.len() + sum_len(post));
                        lemma_sum_nonneg(post);
                        lemma_drop_first(pre);
                        if rec_contains(post, key@) {
                            assert(rec_contains(pre, key@));
                        }
                    }
                    self.size = self.size - pair.1.len();
                    proof {
                        assert(old(self).rec().skip(evicted).drop_first() =~= old(self).rec().skip(
                            evicted + 1,
                        ));
                        assert(sum_len(old(self).rec().skip(evicted)) + binary@.len() > old(
                            self,
                        ).spec_limit());
                        evicted = evicted + 1;
                    }
                },
            }
        }
        let ghost pre = rec_order(&self.lru);
        let ghost bseq = binary@;
        let blen = binary.len();
        let pushed = lru_push(&mut self.lru, key.clone(), binary);
        match pushed {
            None => {
                proof {
                    lemma_push_fresh(pre, key@, bseq);
                    lemma_sum_push(pre, (key@, bseq));
                    lemma_sum_nonneg(pre);
                }
            },
            Some(pair) => {
                proof {
                    let dropped = pre.drop_first();
                    lemma_drop_first(pre);
                    lemma_sum_nonneg(dropped);
                    if rec_contains(dropped, key@) {
                        assert(rec_contains(pre, key@));
                    }
                    lemma_push_fresh(dropped, key@, bseq);
                    lemma_sum_push(dropped, (key@, bseq));
                    assert(sum_len(pre) == pre[0].1.len() + sum_len(dropped));
                }
                self.size = self.size - pair.1.len();
            },
        }
        self.size = self.size + blen;
        proof {
            let post = rec_order(&self.lru);
            if pushed is None {
                if evicted > 1 {
                    lemma_sum_skip_step(old(self).rec(), evicted - 2);
                }
                assert(0 <= evicted <= old(self).rec().len() && post == old(self).rec().skip(
                    evicted,
                ).push((key@, bseq)) && (evicted > 1 ==> sum_len(old(self).rec().skip(evicted - 2))
                    + bseq.len() > old(self).spec_limit()));
            } else {
                assert(pre.drop_first() =~= old(self).rec().skip(evicted + 1));
                assert(pre.len() > 0);
                assert(0 <= evicted + 1 <= old(self).rec().len() && post == old(self).rec().skip(
                    evicted + 1,
                ).push((key@, bseq)) && (evicted + 1 > 1 ==> sum_len(old(self).rec().skip(evicted
                    - 1)) + bseq.len() > old(self).spec_limit()));
            }
            assert forall|k2: Seq<u8>| #[trigger]
                rec_contains(post, k2) && k2 != key@ implies old(self).has(k2) && rec_val(
                post,
                k2,
            ) == old(self).val(k2) by {
                match pushed {
                    None => {
                        assert(rec_contains(pre, k2) && rec_val(post, k2) == rec_val(pre, k2));
                    },
                    Some(_) => {
                        let dropped = pre.drop_first();
                        assert(rec_contains(dropped, k2) && rec_val(post, k2) == rec_val(
                            dropped,
                            k2,
                        ));
                        assert(rec_contains(pre, k2) && rec_val(dropped, k2) == rec_val(pre, k2));
                    },
                }
            }
        }
    }

    /// Looks a buffer up, making its entry the most recently used.  The cached
    /// contents do not change; only recency does.
    pub fn get(&mut self, key: &Vec<u8>) -> (r: Option<Vec<u8>>)
        requires
            old(self).wf(),
        ensures
            final(self).wf(),
            final(self).spec_limit() == old(self).spec_limit(),
            final(self).spec_size() == old(self).spec_size(),
            r is Some <==> old(self).has(key@),
            r is Some ==> r->Some_0@ == old(self).val(key@),
            forall|k2: Seq<u8>|
                #[trigger] final(self).has(k2) <==> old(self).has(k2),
            forall|k2: Seq<u8>|
                #[trigger] final(self).has(k2) ==> final(self).val(k2) == old(self).val(k2),
    {
        let ghost pre = rec_order(&self.lru);
        let r = lru_get_clone(&mut self.lru, key);
        proof {
            let post = rec_order(&self.lru);
            if r is Some {
                let v = r->Some_0;
                {
                    let i = choose|i: int|
                        0 <= i < pre.len() && #[trigger] pre[i] == (key@, v@) && post == pre.remove(
                            i,
                        ).push((key@, v@));
                    lemma_val_at(pre, i);
                    lemma_remove_at(pre, i);
                    lemma_push_fresh(pre.remove(i), key@, v@);
                    lemma_sum_remove(pre, i);
                    lemma_sum_push(pre.remove(i), (key@, v@));
                    assert forall|k2: Seq<u8>| #[trigger]
                        rec_contains(post, k2) implies rec_contains(pre, k2) && rec_val(post, k2)
                        == rec_val(pre, k2) by {
                        if k2 != key@ {
                            assert(rec_contains(pre.remove(i), k2));
                        }
                    }
                    assert forall|k2: Seq<u8>| #[trigger]
                        rec_contains(pre, k2) implies rec_contains(post, k2) by {
                        if k2 != key@ {
                            assert(rec_contains(pre.remove(i), k2));
                        }
                    }
                }
            }
        }
        r
    }

    /// Removes the entry under the key, subtracting its length from the
    /// running size; a miss changes nothing.
    pub fn remove(&mut self, node_id: &Vec<u8>)
        requires
            old(self).wf(),
        ensures
            final(self).wf(),
            final(self).spec_limit() == old(self).spec_limit(),
            final(self).spec_size() <= old(self).spec_size(),
            !final(self).has(node_id@),
            forall|k2: Seq<u8>|
                #[trigger] final(self).has(k2) <==> old(self).has(k2) && k2 != node_id@,
            forall|k2: Seq<u8>|
                #[trigger] final(self).has(k2) ==> final(self).val(k2) == old(self).val(k2),
            old(self).has(node_id@) ==> final(self).spec_size() == old(self).spec_size() - old(self).val(node_id@).len(),
            !old(self).has(node_id@) ==> final(self).rec() == old(self).rec() && final(self).spec_size() == old(self).spec_size(),
    {
        let ghost pre = rec_order(&self.lru);
        let r = lru_pop(&mut self.lru, node_id);
        match r {
            None => {},
            Some(v) => {
                proof {
                    let post = rec_order(&self.lru);
                    let i = choose|i: int|
                        0 <= i < pre.len() && #[trigger] pre[i] == (node_id@, v@) && post
                            == pre.remove(i);
                    lemma_val_at(pre, i);
                    lemma_remove_at(pre, i);
                    lemma_sum_remove(pre, i);
                    lemma_sum_nonneg(post);
                }
                self.size = self.size - v.len();
            },
        }
    }

    /// All keys currently held; every held key is in the result and every
    /// result key is held.
    pub fn keys(&self) -> (r: Vec<Vec<u8>>)
        requires
            self.wf(),
        ensures
            forall|i: int| 0 <= i < r@.len() ==> self.has((#[trigger] r@[i])@),
            forall|k: Seq<u8>|
                #[trigger] self.has(k) ==> exists|i: int| 0 <= i < r@.len() && (#[trigger] r@[i])@
                    == k,
    {
        let r = lru_keys(&self.lru);
        proof {
            let s = self.rec();
            assert forall|i: int| 0 <= i < r@.len() implies self.has((#[trigger] r@[i])@) by {
                let j = s.len() - 1 - i;
                assert(s[j].0 == r@[i]@);
            }
            assert forall|k: Seq<u8>| #[trigger] self.has(k) implies exists|i: int|
                0 <= i < r@.len() && (#[trigger] r@[i])@ == k by {
                let j = choose|j: int| 0 <= j < s.len() && (#[trigger] s[j]).0 == k;
                let i = s.len() - 1 - j;
                assert(r@[i]@ == s[s.len() - 1 - i].0);
                assert(s.len() - 1 - i == j);
            }
        }
        r
    }
}

} // verus!
