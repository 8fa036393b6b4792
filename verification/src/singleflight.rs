use vstd::prelude::*;

verus! {

/// What a caller is admitted as: the owner runs the fetch, a waiter awaits
/// the owner's outcome.
#[derive(Clone, Copy, PartialEq, Eq, Structural, Debug)]
pub enum Admission {
    Owner,
    Waiter,
}

/// The set of keys named by a list of strings.
pub open spec fn seq_keys(s: Seq<String>) -> Set<Seq<char>>
    decreases s.len(),
{
    if s.len() == 0 {
        Set::empty()
    } else {
        seq_keys(s.drop_last()).insert(s.last()@)
    }
}

/// No two strings in the list read the same.
pub open spec fn strings_distinct(s: Seq<String>) -> bool {
    forall|i: int, j: int| 0 <= i < j < s.len() ==> (#[trigger] s[i])@ != (#[trigger] s[j])@
}

/// A key named by none of the strings is not in the set.
proof fn lemma_keys_absent(s: Seq<String>, k: Seq<char>)
    requires
        forall|i: int| 0 <= i < s.len() ==> (#[trigger] s[i])@ != k,
    ensures
        !seq_keys(s).contains(k),
    decreases s.len(),
{
    if s.len() > 0 {
        assert(s.last() == s[s.len() - 1]);
        assert forall|i: int| 0 <= i < s.drop_last().len() implies (#[trigger] s.drop_last()[i])@
            != k by {
            assert(s.drop_last()[i] == s[i]);
        }
        lemma_keys_absent(s.drop_last(), k);
    }
}

/// Every string in the list names a key of the set.
proof fn lemma_keys_present(s: Seq<String>, i: int)
    requires
        0 <= i < s.len(),
    ensures
        seq_keys(s).contains(s[i]@),
    decreases s.len(),
{
    if i == s.len() - 1 {
        assert(s.last() == s[i]);
    } else {
        assert(s.drop_last()[i] == s[i]);
        lemma_keys_present(s.drop_last(), i);
    }
}

/// With distinct strings, removing entry `i` removes exactly its key.
proof fn lemma_keys_remove(s: Seq<String>, i: int)
    requires
        strings_distinct(s),
        0 <= i < s.len(),
    ensures
        seq_keys(s.remove(i)) == seq_keys(s).remove(s[i]@),
    decreases s.len(),
{
    let k = s[i]@;
    if i == s.len() - 1 {
        assert(s.remove(i) =~= s.drop_last());
        assert(s.last() == s[i]);
        assert forall|j: int| 0 <= j < s.drop_last().len() implies (#[trigger] s.drop_last()[j])@
            != k by {
            assert(s.drop_last()[j] == s[j]);
        }
        lemma_keys_absent(s.drop_last(), k);
        assert(seq_keys(s.drop_last()).insert(k).remove(k) =~= seq_keys(s.drop_last()));
    } else {
        let front = s.drop_last();
        assert forall|a: int, b: int| 0 <= a < b < front.len() implies (#[trigger] front[a])@ != (
        #[trigger] front[b])@ by {
            assert(front[a] == s[a]);
            assert(front[b] == s[b]);
        }
        assert(front[i] == s[i]);
        lemma_keys_remove(front, i);
        assert(s.remove(i).drop_last() =~= front.remove(i));
        assert(s.remove(i).last() == s.last());
        assert(s.last() == s[s.len() - 1]);
        assert(k != s[s.len() - 1]@);
        assert(seq_keys(s.remove(i)) == seq_keys(front.remove(i)).insert(s.last()@));
        assert(seq_keys(front).remove(k).insert(s.last()@) =~= seq_keys(front).insert(
            s.last()@,
        ).remove(k));
    }
}

/// The in-memory registry of in-progress fetch sessions, keyed by content
/// key. "Check for an existing session" and "register" are one indivisible
/// step, so two callers can never both become owner.
pub struct SessionRegistry {
    active: Vec<String>,
}

impl SessionRegistry {
    /// Internal invariant: one slot per key.
    pub closed spec fn wf(self) -> bool {
        strings_distinct(self.active@)
    }

    /// The keys with an in-progress session.
    pub closed spec fn active_set(self) -> Set<Seq<char>> {
        seq_keys(self.active@)
    }

    /// An empty registry.
    pub fn new() -> (r: SessionRegistry)
        ensures
            r.wf(),
            r.active_set() == Set::<Seq<char>>::empty(),
    {
        SessionRegistry { active: Vec::new() }
    }

    /// Admit a caller for `key`: the caller becomes owner exactly when no
    /// session for `key` is active, and the key is active afterwards either
    /// way.
    pub fn begin(&mut self, key: &String) -> (a: Admission)
        requires
            old(self).wf(),
        ensures
            final(self).wf(),
            (a == Admission::Owner <==> !old(self).active_set().contains(key@)),
            final(self).active_set() == old(self).active_set().insert(key@),
    {
        let n = self.active.len();
        let mut i: usize = 0;
        while i < n
            invariant
                self == old(self),
                self.wf(),
                n == self.active@.len(),
                i <= n,
                forall|j: int| 0 <= j < i ==> (#[trigger] self.active@[j])@ != key@,
            decreases n - i,
        {
            if self.active[i] == *key {
                proof {
                    lemma_keys_present(self.active@, i as int);
                    assert(self.active_set().insert(key@) =~= self.active_set());
                }
                return Admission::Waiter;
            }
            i += 1;
        }
        proof {
            lemma_keys_absent(self.active@, key@);
        }
        let ghost before = self.active@;
        self.active.push(key.clone());
        proof {
            assert(self.active@.drop_last() =~= before);
            assert(self.active@.last()@ == key@);
            assert forall|a: int, b: int| 0 <= a < b < self.active@.len() implies (
            #[trigger] self.active@[a])@ != (#[trigger] self.active@[b])@ by {
                if b < self.active@.len() - 1 {
                    assert(self.active@[a] == before[a]);
                    assert(self.active@[b] == before[b]);
                } else {
                    assert(self.active@[a] == before[a]);
                    assert(self.active@[b] == self.active@.last());
                }
            }
        }
        Admission::Owner
    }

    /// Retire the session for `key` on its terminal transition.
    pub fn finish(&mut self, key: &String)
        requires
            old(self).wf(),
        ensures
            final(self).wf(),
            final(self).active_set() == old(self).active_set().remove(key@),
    {
        let n = self.active.len();
        let mut i: usize = 0;
        while i < n
            invariant
                self == old(self),
                self.wf(),
                n == self.active@.len(),
                i <= n,
                forall|j: int| 0 <= j < i ==> (#[trigger] self.active@[j])@ != key@,
            decreases n - i,
        {
            if self.active[i] == *key {
                proof {
                    lemma_keys_remove(self.active@, i as int);
                }
                let ghost before = self.active@;
                let _ = self.active.remove(i);
                proof {
                    assert(self.active@ =~= before.remove(i as int));
                    assert forall|a: int, b: int|
                        0 <= a < b < self.active@.len() implies (#[trigger] self.active@[a])@ != (
                    #[trigger] self.active@[b])@ by {
                        let a0 = if a < i {
                            a
                        } else {
                            a + 1
                        };
                        let b0 = if b < i {
                            b
                        } else {
                            b + 1
                        };
                        assert(self.active@[a] == before[a0]);
                        assert(self.active@[b] == before[b0]);
                    }
                }
                return ;
            }
            i += 1;
        }
        proof {
            lemma_keys_absent(self.active@, key@);
            assert(self.active_set().remove(key@) =~= self.active_set());
        }
    }
}

/// The number of owners admitted over `n` successive admissions for key `k`
/// starting from the active set `s`, with no completion in between.
pub open spec fn owners_among(s: Set<Seq<char>>, k: Seq<char>, n: nat) -> int
    decreases n,
{
    if n == 0 {
        0
    } else {
        (if !s.contains(k) {
            1int
        } else {
            0int
        }) + owners_among(s.insert(k), k, (n - 1) as nat)
    }
}

/// Single-flight: however many concurrent callers ask for one key while no
/// session completes, exactly one of them is admitted as owner (none, if a
/// session for the key was already active), so origin download and
/// distribution submission run once.
pub proof fn lemma_single_flight(s: Set<Seq<char>>, k: Seq<char>, n: nat)
    requires
        n >= 1,
    ensures
        owners_among(s, k, n) == if s.contains(k) {
            0int
        } else {
            1int
        },
    decreases n,
{
    reveal_with_fuel(owners_among, 3);
    if n == 1 {
    } else {
        assert(s.insert(k).contains(k));
        lemma_single_flight(s.insert(k), k, (n - 1) as nat);
    }
}

} // verus!
