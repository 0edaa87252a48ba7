use vstd::prelude::*;
use crate::report::{Report, ReportPayload};

verus! {

/// The capture side's own state: the identity given to each producing thread
/// and the count of notifications that could not be handed to the writer.
///
/// A thread is known by an opaque token that the host hands in; identities
/// start at 1, grow by one for each new thread and are never reused.
pub struct ReportLayer {
    threads: Vec<(u64, u64)>,
    next_id: u64,
    dropped: u64,
}

impl ReportLayer {
    /// The identity of each thread seen so far, by token.
    pub closed spec fn identities(&self) -> Map<u64, u64> {
        Map::new(
            |t: u64| exists|k: int| 0 <= k < self.threads@.len() && self.threads@[k].0 == t,
            |t: u64|
                self.threads@[choose|k: int| 0 <= k < self.threads@.len() && self.threads@[k].0 == t].1,
        )
    }

    /// The identity that the next new thread receives.
    pub closed spec fn next_identity(&self) -> u64 {
        self.next_id
    }

    /// How many notifications were dropped because the writer was gone.
    pub closed spec fn dropped_count(&self) -> u64 {
        self.dropped
    }

    /// Tokens are unique, identities are unique, at least 1 and below the next one.
    pub closed spec fn wf(&self) -> bool {
        &&& self.next_id >= 1
        &&& forall|k: int|
            0 <= k < self.threads@.len() ==> 1 <= (#[trigger] self.threads@[k]).1 < self.next_id
        &&& forall|k: int, m: int|
            0 <= k < self.threads@.len() && 0 <= m < self.threads@.len() && k != m ==> (
            #[trigger] self.threads@[k]).0 != (#[trigger] self.threads@[m]).0
                && self.threads@[k].1 != self.threads@[m].1
    }

    pub fn new() -> (r: ReportLayer)
        ensures
            r.wf(),
            r.identities() == Map::<u64, u64>::empty(),
            r.next_identity() == 1,
            r.dropped_count() == 0,
    {
        let r = ReportLayer { threads: Vec::new(), next_id: 1, dropped: 0 };
        assert(r.identities() =~= Map::<u64, u64>::empty());
        r
    }

    /// The identity of the thread known by `token`: the one it already has, or
    /// the next one, now given to it. `None` when no identity is left to give.
    pub fn thread_identity(&mut self, token: u64) -> (r: Option<u64>)
        requires
            old(self).wf(),
        ensures
            final(self).wf(),
            final(self).dropped_count() == old(self).dropped_count(),
            old(self).identities().contains_key(token) ==> r == Some(
                old(self).identities()[token],
            ) && final(self).identities() == old(self).identities() && final(self).next_identity()
                == old(self).next_identity(),
            !old(self).identities().contains_key(token) && old(self).next_identity() < u64::MAX
                ==> r == Some(old(self).next_identity()) && final(self).identities() == old(
                self,
            ).identities().insert(token, old(self).next_identity()) && final(self).next_identity()
                == old(self).next_identity() + 1,
            !old(self).identities().contains_key(token) && old(self).next_identity() == u64::MAX
                ==> r.is_none() && final(self).identities() == old(self).identities()
                && final(self).next_identity() == old(self).next_identity(),
    {
        let mut k: usize = 0;
        while k < self.threads.len()
            invariant
                k <= self.threads@.len(),
                forall|m: int| 0 <= m < k ==> self.threads@[m].0 != token,
                *self == *old(self),
                self.wf(),
            decreases self.threads.len() - k,
        {
            if self.threads[k].0 == token {
                let id = self.threads[k].1;
                proof {
                    let c = choose|j: int|
                        0 <= j < self.threads@.len() && self.threads@[j].0 == token;
                    assert(c == k);
                }
                return Some(id);
            }
            k = k + 1;
        }
        if self.next_id == u64::MAX {
            return None;
        }
        let id = self.next_id;
        let ghost before = self.identities();
        self.threads.push((token, id));
        self.next_id = id + 1;
        proof {
            let after = self.identities();
            assert forall|t: u64| after.contains_key(t) == before.insert(token, id).contains_key(t)
                by {
                if t != token && before.contains_key(t) {
                    let j = choose|j: int|
                        0 <= j < old(self).threads@.len() && old(self).threads@[j].0 == t;
                    assert(self.threads@[j].0 == t);
                }
                if t == token {
                    assert(self.threads@[k as int].0 == t);
                }
            }
            assert forall|t: u64| #[trigger] after.contains_key(t) implies after[t] == before.insert(
                token,
                id,
            )[t] by {
                let j = choose|j: int| 0 <= j < self.threads@.len() && self.threads@[j].0 == t;
                if t == token {
                    assert(j == k);
                } else {
                    let j0 = choose|j: int|
                        0 <= j < old(self).threads@.len() && old(self).threads@[j].0 == t;
                    assert(self.threads@[j0].0 == t);
                    assert(j == j0);
                }
            }
            assert(after =~= before.insert(token, id));
        }
        Some(id)
    }

    /// Stamps a notification with its tick and its thread's identity.
    /// `None` when the thread has no identity and none is left to give.
    pub fn handle_message(&mut self, token: u64, tick: u128, payload: ReportPayload) -> (r: Option<
        Report,
    >)
        requires
            old(self).wf(),
        ensures
            final(self).wf(),
            final(self).dropped_count() == old(self).dropped_count(),
            old(self).identities().contains_key(token) ==> r == Some(
                Report { tick, thread_id: old(self).identities()[token], payload },
            ) && final(self).identities() == old(self).identities(),
            !old(self).identities().contains_key(token) && old(self).next_identity() < u64::MAX
                ==> r == Some(Report { tick, thread_id: old(self).next_identity(), payload })
                && final(self).identities() == old(self).identities().insert(
                token,
                old(self).next_identity(),
            ),
            !old(self).identities().contains_key(token) && old(self).next_identity() == u64::MAX
                ==> r.is_none(),
    {
        match self.thread_identity(token) {
            Some(thread_id) => Some(Report { tick, thread_id, payload }),
            None => None,
        }
    }

    /// Counts a notification that the writer could no longer take.
    pub fn note_dropped(&mut self)
        requires
            old(self).wf(),
        ensures
            final(self).wf(),
            final(self).identities() == old(self).identities(),
            final(self).next_identity() == old(self).next_identity(),
            final(self).dropped_count() == if old(self).dropped_count() < u64::MAX {
                (old(self).dropped_count() + 1) as u64
            } else {
                u64::MAX
            },
    {
        if self.dropped < u64::MAX {
            self.dropped = self.dropped + 1;
        }
    }

    /// How many notifications were dropped because the writer was gone.
    pub fn dropped(&self) -> (r: u64)
        ensures
            r == self.dropped_count(),
    {
        self.dropped
    }
}

/// Two different threads never share an identity.
pub proof fn lemma_identities_distinct(layer: ReportLayer, a: u64, b: u64)
    requires
        layer.wf(),
        layer.identities().contains_key(a),
        layer.identities().contains_key(b),
        a != b,
    ensures
        layer.identities()[a] != layer.identities()[b],
{
    let ia = choose|j: int| 0 <= j < layer.threads@.len() && layer.threads@[j].0 == a;
    let ib = choose|j: int| 0 <= j < layer.threads@.len() && layer.threads@[j].0 == b;
    assert(layer.threads@[ia].0 != layer.threads@[ib].0);
}

} // verus!
