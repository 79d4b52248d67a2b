//! Per-participant default counters and the suspension set: pure
//! bookkeeping with no time dependency, mutated only by the penalty
//! operation.

use vstd::prelude::*;

use crate::membership::distinct;

verus! {

/// How many defaults are recorded for `p` in the counter entries `s`:
/// the value stored under the first entry keyed by `p`, zero if none is.
pub open spec fn count_in(s: Seq<(u64, u32)>, p: u64) -> u32
    decreases s.len(),
{
    if s.len() == 0 {
        0u32
    } else if s[0].0 == p {
        s[0].1
    } else {
        count_in(s.drop_first(), p)
    }
}

/// No two counter entries share a key.
pub open spec fn keys_distinct(s: Seq<(u64, u32)>) -> bool {
    forall|i: int, j: int| 0 <= i < j < s.len() ==> s[i].0 != s[j].0
}

/// Every stored counter is at least one: a participant gets an entry only
/// when a first default is recorded.
pub open spec fn entries_positive(s: Seq<(u64, u32)>) -> bool {
    forall|i: int| 0 <= i < s.len() ==> (#[trigger] s[i]).1 >= 1
}

/// Counters reaching this many defaults suspend a participant.
pub const SUSPENSION_THRESHOLD: u32 = 2;

/// Default counters and the suspension set.
#[derive(Clone, Debug)]
pub struct DefaulterTracker {
    /// One entry per participant with at least one recorded default.
    pub counts: Vec<(u64, u32)>,
    /// Participants excluded from future payouts; grows monotonically.
    pub suspended: Vec<u64>,
}

impl DefaulterTracker {
    /// Well-formedness: unique positive counters, no duplicate suspension,
    /// and suspension exactly of the participants with at least
    /// `SUSPENSION_THRESHOLD` defaults.
    pub open spec fn wf(self) -> bool {
        &&& keys_distinct(self.counts@)
        &&& entries_positive(self.counts@)
        &&& distinct(self.suspended@)
        &&& forall|p: u64|
            self.suspended@.contains(p) <==> #[trigger] count_in(self.counts@, p)
                >= SUSPENSION_THRESHOLD
    }

    /// The recorded default count of `p`.
    pub open spec fn count_of(self, p: u64) -> u32 {
        count_in(self.counts@, p)
    }

    /// A tracker with no defaults and no suspensions.
    pub fn new() -> (t: DefaulterTracker)
        ensures
            t.wf(),
            t.counts@ == Seq::<(u64, u32)>::empty(),
            t.suspended@ == Seq::<u64>::empty(),
    {
        DefaulterTracker { counts: Vec::new(), suspended: Vec::new() }
    }

    /// Records one more default of `member`: the counter rises by one, and
    /// the member is suspended — at most once — as soon as the counter
    /// reaches the threshold. Returns the new counter and whether the
    /// suspension happened just now.
    pub fn record_default(&mut self, member: u64) -> (r: (u32, bool))
        requires
            old(self).wf(),
            count_in(old(self).counts@, member) < u32::MAX,
        ensures
            final(self).wf(),
            r.0 == final(self).count_of(member),
            final(self).count_of(member) == old(self).count_of(member) + 1,
            forall|q: u64| q != member ==> final(self).count_of(q) == old(self).count_of(q),
            r.1 == (r.0 >= SUSPENSION_THRESHOLD && !old(self).suspended@.contains(member)),
            r.1 <==> r.0 == SUSPENSION_THRESHOLD,
            final(self).suspended@ == if r.1 {
                old(self).suspended@.push(member)
            } else {
                old(self).suspended@
            },
    {
        let new_count = self.bump_count(member);
        let suspended_now = new_count >= SUSPENSION_THRESHOLD && !crate::membership::id_present(
            &self.suspended,
            member,
        );
        if suspended_now {
            self.suspended.push(member);
        }
        proof {
            let counts = self.counts@;
            let susp = self.suspended@;
            let susp_old = old(self).suspended@;
            if suspended_now {
                assert(susp == susp_old.push(member));
                assert(susp.last() == member);
                assert(susp.contains(member));
                assert forall|p: u64| p != member implies susp.contains(p) == susp_old.contains(
                    p,
                ) by {
                    if susp_old.contains(p) {
                        let w = choose|w: int| 0 <= w < susp_old.len() && susp_old[w] == p;
                        assert(susp[w] == p);
                    }
                    if susp.contains(p) {
                        let w = choose|w: int| 0 <= w < susp.len() && susp[w] == p;
                        assert(susp_old[w] == p);
                    }
                }
                assert(distinct(susp)) by {
                    assert forall|i: int, j: int| 0 <= i < j < susp.len() implies susp[i]
                        != susp[j] by {
                        if j == susp.len() - 1 {
                            assert(susp[i] == susp_old[i]);
                            assert(susp[j] == member);
                        } else {
                            assert(susp[i] == susp_old[i] && susp[j] == susp_old[j]);
                        }
                    }
                }
            }
            assert forall|p: u64|
                susp.contains(p) <==> #[trigger] count_in(counts, p) >= SUSPENSION_THRESHOLD by {
                if p != member {
                    assert(count_in(counts, p) == count_in(old(self).counts@, p));
                }
            }
        }
        (new_count, suspended_now)
    }

    /// Adds one to the counter of `member`, creating the entry at one on a
    /// first default.
    fn bump_count(&mut self, member: u64) -> (new_count: u32)
        requires
            keys_distinct(old(self).counts@),
            entries_positive(old(self).counts@),
            count_in(old(self).counts@, member) < u32::MAX,
        ensures
            keys_distinct(final(self).counts@),
            entries_positive(final(self).counts@),
            new_count == count_in(final(self).counts@, member),
            new_count == count_in(old(self).counts@, member) + 1,
            forall|q: u64|
                q != member ==> count_in(final(self).counts@, q) == count_in(
                    old(self).counts@,
                    q,
                ),
            final(self).suspended@ == old(self).suspended@,
    {
        let n = self.counts.len();
        let ghost s0 = old(self).counts@;
        let mut i: usize = 0;
        proof {
            assert(s0.skip(0) =~= s0);
        }
        while i < n
            invariant
                i <= n,
                n == s0.len(),
                s0 == old(self).counts@,
                *self == *old(self),
                keys_distinct(s0),
                entries_positive(s0),
                count_in(s0, member) < u32::MAX,
                forall|k: int| 0 <= k < i ==> s0[k].0 != member,
                count_in(s0, member) == count_in(s0.skip(i as int), member),
            decreases n - i,
        {
            let (key, stored) = self.counts[i];
            if key == member {
                proof {
                    assert(s0.skip(i as int)[0] == s0[i as int]);
                    assert(count_in(s0.skip(i as int), member) == stored);
                }
                let new_count = stored + 1;
                self.counts[i] = (member, new_count);
                proof {
                    lemma_count_at_updated_key(s0, self.counts@, i as int, member, new_count);
                }
                return new_count;
            }
            proof {
                assert(s0.skip(i as int)[0] == s0[i as int]);
                assert(s0.skip(i as int).drop_first() =~= s0.skip(i + 1));
            }
            i += 1;
        }
        proof {
            assert(s0.skip(n as int) =~= Seq::<(u64, u32)>::empty());
            assert(count_in(s0, member) == 0);
        }
        self.counts.push((member, 1));
        proof {
            lemma_count_after_push(s0, member, 1);
            assert forall|q: u64| q != member implies count_in(self.counts@, q) == count_in(
                s0,
                q,
            ) by {
                lemma_count_after_push(s0, member, 1);
                lemma_count_other_after_push(s0, member, 1, q);
            }
        }
        1
    }
}

/// Appending an entry for a key that has none makes `count_in` yield the
/// stored value for it.
proof fn lemma_count_after_push(s: Seq<(u64, u32)>, key: u64, value: u32)
    requires
        count_in(s, key) == 0,
        entries_positive(s),
    ensures
        count_in(s.push((key, value)), key) == value,
    decreases s.len(),
{
    if s.len() == 0 {
        assert(s.push((key, value))[0] == (key, value));
        assert(s.push((key, value)).drop_first() =~= Seq::<(u64, u32)>::empty());
    } else {
        assert(s[0].1 >= 1);
        assert(s[0].0 != key);
        assert(s.push((key, value))[0] == s[0]);
        assert(s.push((key, value)).drop_first() =~= s.drop_first().push((key, value)));
        assert(entries_positive(s.drop_first())) by {
            assert forall|i: int| 0 <= i < s.drop_first().len() implies (#[trigger] s.drop_first()[i]).1
                >= 1 by {
                assert(s.drop_first()[i] == s[i + 1]);
            }
        }
        lemma_count_after_push(s.drop_first(), key, value);
    }
}

/// Appending an entry leaves the count of every other key unchanged.
proof fn lemma_count_other_after_push(s: Seq<(u64, u32)>, key: u64, value: u32, other: u64)
    requires
        other != key,
    ensures
        count_in(s.push((key, value)), other) == count_in(s, other),
    decreases s.len(),
{
    if s.len() == 0 {
        assert(s.push((key, value))[0] == (key, value));
        assert(s.push((key, value)).drop_first() =~= Seq::<(u64, u32)>::empty());
        assert(count_in(s.push((key, value)), other) == count_in(
            s.push((key, value)).drop_first(),
            other,
        ));
        assert(count_in(Seq::<(u64, u32)>::empty(), other) == 0);
        assert(count_in(s, other) == 0);
    } else {
        assert(s.push((key, value))[0] == s[0]);
        assert(s.push((key, value)).drop_first() =~= s.drop_first().push((key, value)));
        lemma_count_other_after_push(s.drop_first(), key, value, other);
        if s[0].0 == other {
            assert(count_in(s.push((key, value)), other) == s[0].1);
        } else {
            assert(count_in(s.push((key, value)), other) == count_in(
                s.drop_first().push((key, value)),
                other,
            ));
        }
    }
}

/// Updating the single entry of a key in place changes its count to the
/// stored value and no other key's count.
proof fn lemma_count_at_updated_key(
    s: Seq<(u64, u32)>,
    t: Seq<(u64, u32)>,
    at: int,
    key: u64,
    value: u32,
)
    requires
        keys_distinct(s),
        entries_positive(s),
        0 <= at < s.len(),
        s[at].0 == key,
        value >= 1,
        t == s.update(at, (key, value)),
    ensures
        keys_distinct(t),
        entries_positive(t),
        count_in(t, key) == value,
        forall|q: u64| q != key ==> count_in(t, q) == count_in(s, q),
    decreases s.len(),
{
    assert(t.len() == s.len());
    if at == 0 {
        assert(t[0] == (key, value));
        assert(t.drop_first() =~= s.drop_first());
        assert(count_in(t, key) == value);
        assert forall|q: u64| q != key implies count_in(t, q) == count_in(s, q) by {
            assert(count_in(t, q) == count_in(t.drop_first(), q));
            assert(count_in(s, q) == count_in(s.drop_first(), q));
        }
    } else {
        assert(t[0] == s[0]);
        assert(s[0].0 != key);
        assert(t.drop_first() =~= s.drop_first().update(at - 1, (key, value)));
        assert(keys_distinct(s.drop_first()) && entries_positive(s.drop_first())) by {
            assert forall|i: int, j: int| 0 <= i < j < s.drop_first().len() implies s.drop_first()[i].0
                != s.drop_first()[j].0 by {
                assert(s.drop_first()[i] == s[i + 1]);
                assert(s.drop_first()[j] == s[j + 1]);
            }
            assert forall|i: int| 0 <= i < s.drop_first().len() implies (#[trigger] s.drop_first()[i]).1
                >= 1 by {
                assert(s.drop_first()[i] == s[i + 1]);
            }
        }
        assert(s.drop_first()[at - 1].0 == key) by {
            assert(s.drop_first()[at - 1] == s[at]);
        }
        lemma_count_at_updated_key(s.drop_first(), t.drop_first(), at - 1, key, value);
        assert(count_in(t, key) == count_in(t.drop_first(), key));
        assert forall|q: u64| q != key implies count_in(t, q) == count_in(s, q) by {
            if s[0].0 == q {
                assert(count_in(t, q) == t[0].1);
                assert(count_in(s, q) == s[0].1);
            } else {
                assert(count_in(t, q) == count_in(t.drop_first(), q));
                assert(count_in(s, q) == count_in(s.drop_first(), q));
            }
        }
        assert(keys_distinct(t)) by {
            assert forall|i: int, j: int| 0 <= i < j < t.len() implies t[i].0 != t[j].0 by {
                if i == at || j == at {
                    assert(t[i].0 == if i == at {
                        key
                    } else {
                        s[i].0
                    });
                } else {
                    assert(t[i] == s[i] && t[j] == s[j]);
                }
            }
        }
        assert(entries_positive(t)) by {
            assert forall|i: int| 0 <= i < t.len() implies (#[trigger] t[i]).1 >= 1 by {
                if i != at {
                    assert(t[i] == s[i]);
                }
            }
        }
    }
}

} // verus!
