use vstd::prelude::*;

use crate::errors::CacheError;

verus! {

/// One cached record: the encoded descriptor and its validity window.
#[derive(Debug)]
pub struct CacheEntry {
    pub descriptor: Vec<u8>,
    pub created_at: i64,
    pub expires_at: i64,
}

impl CacheEntry {
    /// The validity window is never empty.
    pub open spec fn wf(self) -> bool {
        self.expires_at > self.created_at
    }

    /// Fresh exactly when the expiry lies strictly after `now`.
    pub open spec fn fresh_at(self, now: i64) -> bool {
        crate::spec_fresh(self.expires_at, now)
    }
}

/// The mapping carried by a list of keyed entries; a later pair overrides an
/// earlier one with the same key.
pub open spec fn seq_to_map(s: Seq<(String, CacheEntry)>) -> Map<Seq<char>, CacheEntry>
    decreases s.len(),
{
    if s.len() == 0 {
        Map::empty()
    } else {
        seq_to_map(s.drop_last()).insert(s.last().0@, s.last().1)
    }
}

/// No two entries share a key.
pub open spec fn keys_distinct(s: Seq<(String, CacheEntry)>) -> bool {
    forall|i: int, j: int| 0 <= i < j < s.len() ==> (#[trigger] s[i]).0@ != (#[trigger] s[j]).0@
}

/// A key held by none of the entries is not in the mapping.
proof fn lemma_map_of_absent(s: Seq<(String, CacheEntry)>, k: Seq<char>)
    requires
        forall|i: int| 0 <= i < s.len() ==> (#[trigger] s[i]).0@ != k,
    ensures
        !seq_to_map(s).dom().contains(k),
    decreases s.len(),
{
    if s.len() > 0 {
        assert(s.last() == s[s.len() - 1]);
        assert forall|i: int| 0 <= i < s.drop_last().len() implies (#[trigger] s.drop_last()[i]).0@
            != k by {
            assert(s.drop_last()[i] == s[i]);
        }
        lemma_map_of_absent(s.drop_last(), k);
    }
}

/// With distinct keys, entry `i` is in the mapping, under its own key.
proof fn lemma_map_of_present(s: Seq<(String, CacheEntry)>, i: int)
    requires
        keys_distinct(s),
        0 <= i < s.len(),
    ensures
        seq_to_map(s).dom().contains(s[i].0@),
        seq_to_map(s)[s[i].0@] == s[i].1,
    decreases s.len(),
{
    if i == s.len() - 1 {
        assert(s.last() == s[i]);
    } else {
        assert forall|a: int, b: int| 0 <= a < b < s.drop_last().len() implies (#[trigger] s.drop_last()[a]).0@
            != (#[trigger] s.drop_last()[b]).0@ by {
            assert(s.drop_last()[a] == s[a]);
            assert(s.drop_last()[b] == s[b]);
        }
        assert(s.drop_last()[i] == s[i]);
        lemma_map_of_present(s.drop_last(), i);
        assert(s.last() == s[s.len() - 1]);
        assert(s[i].0@ != s[s.len() - 1].0@);
    }
}

/// With distinct keys, removing entry `i` removes exactly its key.
proof fn lemma_map_of_remove(s: Seq<(String, CacheEntry)>, i: int)
    requires
        keys_distinct(s),
        0 <= i < s.len(),
    ensures
        seq_to_map(s.remove(i)) == seq_to_map(s).remove(s[i].0@),
    decreases s.len(),
{
    let k = s[i].0@;
    if i == s.len() - 1 {
        assert(s.remove(i) =~= s.drop_last());
        assert(s.last() == s[i]);
        assert forall|j: int| 0 <= j < s.drop_last().len() implies (#[trigger] s.drop_last()[j]).0@
            != k by {
            assert(s.drop_last()[j] == s[j]);
        }
        lemma_map_of_absent(s.drop_last(), k);
        assert(seq_to_map(s.drop_last()).insert(k, s[i].1).remove(k) =~= seq_to_map(
            s.drop_last(),
        ));
    } else {
        let front = s.drop_last();
        assert forall|a: int, b: int| 0 <= a < b < front.len() implies (#[trigger] front[a]).0@
            != (#[trigger] front[b]).0@ by {
            assert(front[a] == s[a]);
            assert(front[b] == s[b]);
        }
        assert(front[i] == s[i]);
        lemma_map_of_remove(front, i);
        assert(s.remove(i).drop_last() =~= front.remove(i));
        assert(s.remove(i).last() == s.last());
        assert(s.last() == s[s.len() - 1]);
        assert(k != s[s.len() - 1].0@);
        assert(seq_to_map(s.remove(i)) == seq_to_map(front.remove(i)).insert(
            s.last().0@,
            s.last().1,
        ));
        assert(seq_to_map(front).remove(k).insert(s.last().0@, s.last().1) =~= seq_to_map(
            front,
        ).insert(s.last().0@, s.last().1).remove(k));
    }
}

/// The persistent mapping from content key to cached descriptor: at most one
/// entry per key, atomic point lookup and whole-entry upsert.
pub struct CacheStore {
    entries: Vec<(String, CacheEntry)>,
}

impl CacheStore {
    /// Internal invariant: unique keys, well-formed validity windows.
    pub closed spec fn wf(self) -> bool {
        &&& keys_distinct(self.entries@)
        &&& forall|i: int| 0 <= i < self.entries@.len() ==> (#[trigger] self.entries@[i]).1.wf()
    }

    /// The mapping this store holds.
    pub closed spec fn contents(self) -> Map<Seq<char>, CacheEntry> {
        seq_to_map(self.entries@)
    }

    /// An empty store.
    pub fn new() -> (s: CacheStore)
        ensures
            s.wf(),
            s.contents() == Map::<Seq<char>, CacheEntry>::empty(),
    {
        CacheStore { entries: Vec::new() }
    }

    /// Every entry a well-formed store holds has a non-empty validity window.
    pub proof fn lemma_entries_wf(self, k: Seq<char>)
        requires
            self.wf(),
            self.contents().dom().contains(k),
        ensures
            self.contents()[k].wf(),
    {
        lemma_contents_values_wf(self.entries@, k);
    }

    /// Point lookup: returns the entry stored under `key`, if any.
    pub fn lookup(&self, key: &String) -> (r: Option<&CacheEntry>)
        requires
            self.wf(),
        ensures
            (match r {
                Some(e) => self.contents().dom().contains(key@) && *e == self.contents()[key@],
                None => !self.contents().dom().contains(key@),
            }),
    {
        let n = self.entries.len();
        let mut i: usize = 0;
        while i < n
            invariant
                self.wf(),
                n == self.entries@.len(),
                i <= n,
                forall|j: int| 0 <= j < i ==> (#[trigger] self.entries@[j]).0@ != key@,
            decreases n - i,
        {
            let pair = &self.entries[i];
            if pair.0 == *key {
                proof {
                    lemma_map_of_present(self.entries@, i as int);
                }
                return Some(&pair.1);
            }
            i += 1;
        }
        proof {
            lemma_map_of_absent(self.entries@, key@);
        }
        None
    }

    /// Lookup that applies the freshness rule: an entry whose expiry is not
    /// after `now` is reported as absent.
    pub fn lookup_fresh(&self, key: &String, now: i64) -> (r: Option<&CacheEntry>)
        requires
            self.wf(),
        ensures
            (match r {
                Some(e) => self.contents().dom().contains(key@) && *e == self.contents()[key@]
                    && e.fresh_at(now),
                None => !self.contents().dom().contains(key@) || !self.contents()[
                    key@].fresh_at(now),
            }),
    {
        match self.lookup(key) {
            Some(e) => {
                if crate::is_fresh(e.expires_at, now) {
                    Some(e)
                } else {
                    None
                }
            },
            None => None,
        }
    }

    /// Atomic upsert: the entry under `key` is replaced whole, never merged;
    /// an absent key is inserted. Last write wins.
    #[verifier::loop_isolation(false)]
    pub fn upsert(
        &mut self,
        key: String,
        descriptor: Vec<u8>,
        created_at: i64,
        expires_at: i64,
    ) -> (r: Result<(), CacheError>)
        requires
            old(self).wf(),
            expires_at > created_at,
        ensures
            final(self).wf(),
            r is Ok,
            final(self).contents() == old(self).contents().insert(
                key@,
                (CacheEntry { descriptor, created_at, expires_at }),
            ),
    {
        let e = CacheEntry { descriptor, created_at, expires_at };
        let n = self.entries.len();
        let mut i: usize = 0;
        while i < n
            invariant
                self == old(self),
                self.wf(),
                n == self.entries@.len(),
                i <= n,
                forall|j: int| 0 <= j < i ==> (#[trigger] self.entries@[j]).0@ != key@,
            decreases n - i,
        {
            if self.entries[i].0 == key {
                proof {
                    lemma_map_of_present(self.entries@, i as int);
                    lemma_map_of_remove(self.entries@, i as int);
                }
                let ghost before = self.entries@;
                let _ = self.entries.remove(i);
                proof {
                    assert forall|a: int| 0 <= a < self.entries@.len() implies (
                    #[trigger] self.entries@[a]).0@ != key@ by {
                        if a < i {
                            assert(self.entries@[a] == before[a]);
                        } else {
                            assert(self.entries@[a] == before[a + 1]);
                        }
                    }
                    assert forall|a: int, b: int|
                        0 <= a < b < self.entries@.len() implies (#[trigger] self.entries@[a]).0@
                        != (#[trigger] self.entries@[b]).0@ by {
                        let a0 = if a < i {
                            a
                        } else {
                            a + 1
                        };
                        let b0 = if b < i {
                            b
                        } else {
                            b + 1
                        };
                        assert(self.entries@[a] == before[a0]);
                        assert(self.entries@[b] == before[b0]);
                    }
                }
                let ghost removed = self.entries@;
                self.entries.push((key, e));
                proof {
                    assert(self.entries@.drop_last() =~= removed);
                    assert(self.entries@.last().0@ == key@);
                    assert(self.entries@.last().1 == e);
                    assert(seq_to_map(self.entries@) == seq_to_map(removed).insert(key@, e));
                    assert(seq_to_map(removed) == seq_to_map(before).remove(key@));
                    assert(seq_to_map(before).remove(key@).insert(key@, e) =~= seq_to_map(
                        before,
                    ).insert(key@, e));
                    assert forall|a: int, b: int|
                        0 <= a < b < self.entries@.len() implies (#[trigger] self.entries@[a]).0@
                        != (#[trigger] self.entries@[b]).0@ by {
                        if b < self.entries@.len() - 1 {
                            assert(self.entries@[a] == removed[a]);
                            assert(self.entries@[b] == removed[b]);
                        } else {
                            assert(self.entries@[a] == removed[a]);
                        }
                    }
                    assert forall|a: int|
                        0 <= a < self.entries@.len() implies (
                    #[trigger] self.entries@[a]).1.wf() by {
                        if a < self.entries@.len() - 1 {
                            assert(self.entries@[a] == removed[a]);
                            let a0 = if a < i {
                                a
                            } else {
                                a + 1
                            };
                            assert(removed[a] == before[a0]);
                        } else {
                            assert(self.entries@[a] == self.entries@.last());
                            assert(self.entries@[a].1 == e);
                        }
                    }
                    assert(seq_to_map(self.entries@) == seq_to_map(before).insert(key@, e));
                }
                return Ok(());
            }
            i += 1;
        }
        proof {
            lemma_map_of_absent(self.entries@, key@);
        }
        let ghost before = self.entries@;
        self.entries.push((key, e));
        proof {
            assert(self.entries@.drop_last() =~= before);
            assert(self.entries@.last().0@ == key@);
            assert(self.entries@.last().1 == e);
            assert(seq_to_map(self.entries@) == seq_to_map(before).insert(key@, e));
            assert forall|a: int, b: int|
                0 <= a < b < self.entries@.len() implies (#[trigger] self.entries@[a]).0@ != (
            #[trigger] self.entries@[b]).0@ by {
                if b < self.entries@.len() - 1 {
                    assert(self.entries@[a] == before[a]);
                    assert(self.entries@[b] == before[b]);
                } else {
                    assert(self.entries@[a] == before[a]);
                }
            }
            assert forall|a: int| 0 <= a < self.entries@.len() implies (
            #[trigger] self.entries@[a]).1.wf() by {
                if a < self.entries@.len() - 1 {
                    assert(self.entries@[a] == before[a]);
                } else {
                    assert(self.entries@[a] == self.entries@.last());
                }
            }
        }
        Ok(())
    }

    /// Upsert stamped by the wall clock: `created_at` is the time of the
    /// call, `expires_at` lies `ttl` seconds later, clamped so the window
    /// stays representable. Returns the window written.
    pub fn upsert_now(&mut self, key: String, descriptor: Vec<u8>, ttl: i64) -> (w: (i64, i64))
        requires
            old(self).wf(),
            ttl >= 1,
        ensures
            final(self).wf(),
            w.1 == w.0 + ttl,
            final(self).contents() == old(self).contents().insert(
                key@,
                (CacheEntry { descriptor, created_at: w.0, expires_at: w.1 }),
            ),
    {
        let now = crate::clock::now_unix();
        let created_at = if now > i64::MAX - ttl {
            i64::MAX - ttl
        } else {
            now
        };
        let expires_at = created_at + ttl;
        let _ = self.upsert(key, descriptor, created_at, expires_at);
        (created_at, expires_at)
    }
}

/// All values of the mapping of a well-formed entry list are well-formed.
proof fn lemma_contents_values_wf(s: Seq<(String, CacheEntry)>, k: Seq<char>)
    requires
        forall|i: int| 0 <= i < s.len() ==> (#[trigger] s[i]).1.wf(),
        seq_to_map(s).dom().contains(k),
    ensures
        seq_to_map(s)[k].wf(),
    decreases s.len(),
{
    if s.len() > 0 {
        assert(s.last() == s[s.len() - 1]);
        if k != s.last().0@ {
            assert forall|i: int| 0 <= i < s.drop_last().len() implies (
            #[trigger] s.drop_last()[i]).1.wf() by {
                assert(s.drop_last()[i] == s[i]);
            }
            lemma_contents_values_wf(s.drop_last(), k);
        }
    }
}

/// Last write wins: two upserts of the same key leave the second entry.
pub proof fn lemma_upsert_last_write_wins(
    m: Map<Seq<char>, CacheEntry>,
    k: Seq<char>,
    a: CacheEntry,
    b: CacheEntry,
)
    ensures
        m.insert(k, a).insert(k, b) == m.insert(k, b),
{
    assert(m.insert(k, a).insert(k, b) =~= m.insert(k, b));
}

} // verus!
