use vstd::prelude::*;

use crate::causal::{dominates, CausalContext};

verus! {

/// What a poll does next.
#[derive(PartialEq, Eq, Structural, Clone, Copy, Debug)]
pub enum PollDecision {
    /// The item advanced past the caller's token: answer with its new state.
    Changed,
    /// The deadline passed with no change: answer "unchanged".
    Unchanged,
    /// Keep waiting for a notification or the deadline.
    Wait,
}

/// Decides a poll step: `current` is the item's context, `since` the token
/// the caller observed, `now` and `deadline` times in milliseconds.
pub fn poll_decide(current: &CausalContext, since: &CausalContext, now: u64, deadline: u64) -> (r:
    PollDecision)
    ensures
        r == PollDecision::Changed <==> dominates(*current, *since),
        r == PollDecision::Unchanged <==> !dominates(*current, *since) && now >= deadline,
        r == PollDecision::Wait <==> !dominates(*current, *since) && now < deadline,
{
    if current.dominates(since) {
        PollDecision::Changed
    } else if now >= deadline {
        PollDecision::Unchanged
    } else {
        PollDecision::Wait
    }
}

/// The waiters registered on `key`, in order of registration.
pub open spec fn waiters_on(s: Seq<(u64, u64)>, key: u64) -> Seq<u64>
    decreases s.len(),
{
    if s.len() == 0 {
        Seq::empty()
    } else {
        let r = waiters_on(s.drop_last(), key);
        if s.last().1 == key {
            r.push(s.last().0)
        } else {
            r
        }
    }
}

/// The registrations of `s` whose field selected by `by_waiter` differs from `id`.
pub open spec fn without(s: Seq<(u64, u64)>, id: u64, by_waiter: bool) -> Seq<(u64, u64)>
    decreases s.len(),
{
    if s.len() == 0 {
        s
    } else {
        let r = without(s.drop_last(), id, by_waiter);
        if (if by_waiter { s.last().0 } else { s.last().1 }) == id {
            r
        } else {
            r.push(s.last())
        }
    }
}

/// Registrations of waiters on notification points: each entry is a pair
/// (waiter, key), where a key names an item or a partition.
#[derive(Debug)]
pub struct Waiters {
    pub entries: Vec<(u64, u64)>,
}

impl Waiters {
    /// No waiter registered.
    pub fn new() -> (r: Waiters)
        ensures
            r.entries@.len() == 0,
    {
        Waiters { entries: Vec::new() }
    }

    /// Registers `waiter` on `key`.
    pub fn register(&mut self, waiter: u64, key: u64)
        ensures
            final(self).entries@ == old(self).entries@.push((waiter, key)),
    {
        self.entries.push((waiter, key));
    }

    fn remove_matching(&mut self, id: u64, by_waiter: bool) -> (r: Vec<u64>)
        ensures
            final(self).entries@ == without(old(self).entries@, id, by_waiter),
            !by_waiter ==> r@ == waiters_on(old(self).entries@, id),
    {
        let mut kept: Vec<(u64, u64)> = Vec::new();
        let mut woken: Vec<u64> = Vec::new();
        let mut i: usize = 0;
        while i < self.entries.len()
            invariant
                i <= self.entries@.len(),
                self.entries@ == old(self).entries@,
                kept@ == without(self.entries@.subrange(0, i as int), id, by_waiter),
                !by_waiter ==> woken@ == waiters_on(self.entries@.subrange(0, i as int), id),
            decreases self.entries@.len() - i,
        {
            proof {
                assert(self.entries@.subrange(0, i + 1).drop_last() =~= self.entries@.subrange(
                    0,
                    i as int,
                ));
            }
            let e = self.entries[i];
            let field = if by_waiter { e.0 } else { e.1 };
            if field == id {
                woken.push(e.0);
            } else {
                kept.push(e);
            }
            i = i + 1;
        }
        proof {
            assert(self.entries@.subrange(0, i as int) =~= self.entries@);
        }
        self.entries = kept;
        woken
    }

    /// Wakes every waiter registered on `key`: returns them all, in order of
    /// registration, and removes their registrations.
    pub fn notify(&mut self, key: u64) -> (r: Vec<u64>)
        ensures
            r@ == waiters_on(old(self).entries@, key),
            final(self).entries@ == without(old(self).entries@, key, false),
    {
        self.remove_matching(key, false)
    }

    /// Withdraws every registration of `waiter` (a cancelled poll).
    pub fn cancel(&mut self, waiter: u64)
        ensures
            final(self).entries@ == without(old(self).entries@, waiter, true),
    {
        let _ = self.remove_matching(waiter, true);
    }
}

proof fn lemma_waiters_on_complete(s: Seq<(u64, u64)>, key: u64, i: int)
    requires
        0 <= i < s.len(),
        s[i].1 == key,
    ensures
        waiters_on(s, key).contains(s[i].0),
    decreases s.len(),
{
    if i < s.len() - 1 {
        lemma_waiters_on_complete(s.drop_last(), key, i);
        let r = waiters_on(s.drop_last(), key);
        let j = choose|j: int| 0 <= j < r.len() && r[j] == s[i].0;
        if s.last().1 == key {
            assert(r.push(s.last().0)[j] == s[i].0);
        }
    } else {
        let r = waiters_on(s.drop_last(), key);
        assert(r.push(s.last().0)[r.len() as int] == s[i].0);
    }
}

proof fn lemma_without_excludes(s: Seq<(u64, u64)>, key: u64)
    ensures
        forall|j: int| 0 <= j < without(s, key, false).len() ==> #[trigger] without(s, key, false)[j].1 != key,
    decreases s.len(),
{
    if s.len() > 0 {
        lemma_without_excludes(s.drop_last(), key);
        let r = without(s.drop_last(), key, false);
        if s.last().1 != key {
            assert forall|j: int| 0 <= j < r.push(s.last()).len() implies #[trigger] r.push(s.last())[j].1 != key by {
                if j < r.len() {
                    assert(r.push(s.last())[j] == r[j]);
                }
            }
        }
    }
}

/// One notification on a key wakes every waiter registered on it, and none
/// stays registered on it afterwards.
pub proof fn lemma_notify_wakes_all(s: Seq<(u64, u64)>, key: u64)
    ensures
        forall|i: int| 0 <= i < s.len() && s[i].1 == key ==> waiters_on(s, key).contains(#[trigger] s[i].0),
        forall|j: int| 0 <= j < without(s, key, false).len() ==> #[trigger] without(s, key, false)[j].1 != key,
{
    assert forall|i: int| 0 <= i < s.len() && s[i].1 == key implies waiters_on(s, key).contains(#[trigger] s[i].0) by {
        lemma_waiters_on_complete(s, key, i);
    }
    lemma_without_excludes(s, key);
}

} // verus!
