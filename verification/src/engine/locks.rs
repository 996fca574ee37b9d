//! Write locks, one for each repository: writers to one repository take
//! their turns, writers to different repositories do not wait for one
//! another, and a writer that finds the lock held tries again after a
//! pause that grows with each attempt.

use vstd::prelude::*;

verus! {

/// The write locks that are held.
pub struct WriteLocks {
    held: Vec<u64>,
}

impl View for WriteLocks {
    type V = Seq<u64>;

    closed spec fn view(&self) -> Seq<u64> {
        self.held@
    }
}

/// The repositories but `repo_id`.
pub open spec fn others(repo_id: u64) -> spec_fn(u64) -> bool {
    |r: u64| r != repo_id
}

impl WriteLocks {
    /// The locks are sound where no repository's lock is held twice.
    pub open spec fn wf(&self) -> bool {
        self@.no_duplicates()
    }

    /// Whether the lock of repository `repo_id` is held.
    pub open spec fn holds(&self, repo_id: u64) -> bool {
        self@.contains(repo_id)
    }

    /// No lock is held.
    pub fn new() -> (r: WriteLocks)
        ensures
            r.wf(),
            r@ == Seq::<u64>::empty(),
    {
        WriteLocks { held: Vec::new() }
    }

    /// Whether the lock of repository `repo_id` is held.
    pub fn is_held(&self, repo_id: u64) -> (r: bool)
        ensures
            r == self.holds(repo_id),
    {
        let mut i: usize = 0;
        while i < self.held.len()
            invariant
                i <= self.held.len(),
                forall|k: int| 0 <= k < i ==> self@[k] != repo_id,
            decreases self.held.len() - i,
        {
            if self.held[i] == repo_id {
                return true;
            }
            i += 1;
        }
        false
    }

    /// Takes the lock of repository `repo_id` where it is free. Where it
    /// is held, nothing changes and the caller is to try again.
    pub fn try_lock(&mut self, repo_id: u64) -> (taken: bool)
        requires
            old(self).wf(),
        ensures
            final(self).wf(),
            taken == !old(self).holds(repo_id),
            final(self).holds(repo_id),
            final(self)@ == if taken {
                old(self)@.push(repo_id)
            } else {
                old(self)@
            },
    {
        if self.is_held(repo_id) {
            return false;
        }
        self.held.push(repo_id);
        assert(self@.last() == repo_id);
        true
    }

    /// Gives back the lock of repository `repo_id`. The other locks stay
    /// as they are.
    pub fn unlock(&mut self, repo_id: u64)
        requires
            old(self).wf(),
        ensures
            final(self).wf(),
            !final(self).holds(repo_id),
            final(self)@ == old(self)@.filter(others(repo_id)),
    {
        let ghost before = self@;
        let mut kept: Vec<u64> = Vec::new();
        let mut i: usize = 0;
        assert(before.take(0).filter(others(repo_id)) =~= Seq::<u64>::empty());
        while i < self.held.len()
            invariant
                i <= self.held.len(),
                self@ == before,
                kept@ == before.take(i as int).filter(others(repo_id)),
            decreases self.held.len() - i,
        {
            proof {
                assert(before.take(i + 1) =~= before.take(i as int).push(before[i as int]));
                before.take(i as int).lemma_filter_push(before[i as int], others(repo_id));
            }
            if self.held[i] != repo_id {
                kept.push(self.held[i]);
            }
            i += 1;
        }
        assert(before.take(before.len() as int) =~= before);
        self.held = kept;
        proof {
            crate::engine::model::lemma_filter_all(before, others(repo_id), |r: u64| true);
            crate::engine::model::lemma_filter_pairs(before, others(repo_id), |a: u64, b: u64| a != b);
            let now = before.filter(others(repo_id));
            assert forall|a: int, b: int| 0 <= a < now.len() && 0 <= b < now.len() && a != b implies now[a]
                != now[b] by {
                if a < b {
                    assert(now[a] != now[b]);
                } else {
                    assert(now[b] != now[a]);
                }
            }
            if now.contains(repo_id) {
                let k = choose|k: int| 0 <= k < now.len() && now[k] == repo_id;
                assert(others(repo_id)(now[k]));
            }
        }
    }
}

/// The pause in front of attempt `attempt`, which counts from 0: `base_ms`
/// doubled for each attempt before it, and no more than `cap_ms`.
pub open spec fn pause_before(attempt: u32, base_ms: u64, cap_ms: u64) -> u64
    decreases attempt,
{
    if attempt == 0 {
        if base_ms > cap_ms {
            cap_ms
        } else {
            base_ms
        }
    } else {
        let before = pause_before((attempt - 1) as u32, base_ms, cap_ms);
        if before > cap_ms / 2 {
            cap_ms
        } else {
            (2 * before) as u64
        }
    }
}

/// No pause is longer than the cap.
pub proof fn lemma_pause_capped(attempt: u32, base_ms: u64, cap_ms: u64)
    ensures
        pause_before(attempt, base_ms, cap_ms) <= cap_ms,
    decreases attempt,
{
    if attempt > 0 {
        lemma_pause_capped((attempt - 1) as u32, base_ms, cap_ms);
    }
}

/// Computes the pause in front of an attempt.
pub fn backoff(attempt: u32, base_ms: u64, cap_ms: u64) -> (pause: u64)
    ensures
        pause == pause_before(attempt, base_ms, cap_ms),
        pause <= cap_ms,
{
    let mut pause: u64 = if base_ms > cap_ms {
        cap_ms
    } else {
        base_ms
    };
    let mut n: u32 = 0;
    while n < attempt
        invariant
            n <= attempt,
            pause == pause_before(n, base_ms, cap_ms),
            pause <= cap_ms,
        decreases attempt - n,
    {
        pause = if pause > cap_ms / 2 {
            cap_ms
        } else {
            2 * pause
        };
        n += 1;
    }
    pause
}

/// What a writer does that found the lock held at attempt `attempt`:
/// it tries again, as the next attempt, while it has attempts left; with
/// none left the conflict is reported.
pub fn retry(attempt: u32, max_attempts: u32) -> (next: Option<u32>)
    ensures
        next == if attempt + 1 < max_attempts {
            Some((attempt + 1) as u32)
        } else {
            None::<u32>
        },
{
    if attempt < u32::MAX && attempt + 1 < max_attempts {
        Some(attempt + 1)
    } else {
        None
    }
}

} // verus!
