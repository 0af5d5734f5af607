//! The Second-Chance eviction policy.

use vstd::prelude::*;

use crate::eviction::EvictionPolicy;
use crate::model::first_clear_idx;
use crate::model::first_entry_idx;
use crate::model::lemma_first_clear_idx;
use crate::model::lemma_first_entry_idx;
use crate::model::sc_evict;
use crate::model::sc_marked;
use crate::model::PolicyModel;
use crate::vecops::entry_vec_without;

verus! {

/// Returns the index of the first entry whose reference bit is clear,
/// or the queue length when every entry is referenced.
fn find_clear(q: &Vec<(u64, bool)>) -> (r: usize)
    ensures
        ({
            let fc = first_clear_idx(q@);
            if fc == -1 {
                r == q@.len()
            } else {
                r as int == fc
            }
        }),
{
    let mut i: usize = 0;
    while i < q.len()
        invariant
            i <= q@.len(),
            forall|j: int| 0 <= j < i ==> q@[j].1,
        decreases q@.len() - i,
    {
        if !q[i].1 {
            proof {
                lemma_first_clear_idx(q@);
            }
            return i;
        }
        i += 1;
    }
    proof {
        lemma_first_clear_idx(q@);
    }
    i
}

/// Second-Chance: a FIFO queue whose entries carry a reference bit. An
/// access sets the bit; eviction passes over referenced entries once,
/// clearing their bit and re-queueing them, and discards the first
/// unreferenced entry it meets.
pub struct SecondChance {
    queue: Vec<(u64, bool)>,
}

impl SecondChance {
    /// Creates a new Second-Chance eviction policy instance with an
    /// empty queue.
    pub fn new() -> (r: Self)
        ensures
            r.wf(),
            r.abs() == (PolicyModel::SecondChance { entries: Seq::empty() }),
    {
        let r = SecondChance { queue: Vec::new() };
        proof {
            assert(r.queue@ =~= Seq::<(u64, bool)>::empty());
        }
        r
    }
}

impl EvictionPolicy for SecondChance {
    closed spec fn abs(&self) -> PolicyModel {
        PolicyModel::SecondChance { entries: self.queue@ }
    }

    closed spec fn wf(&self) -> bool {
        true
    }

    fn on_insert(&mut self, key: u64) {
        self.queue.push((key, false));
    }

    fn on_access(&mut self, key: u64) {
        let mut i: usize = 0;
        while i < self.queue.len()
            invariant
                *self == *old(self),
                i <= self.queue@.len(),
                forall|j: int| 0 <= j < i ==> self.queue@[j].0 != key,
            decreases self.queue@.len() - i,
        {
            if self.queue[i].0 == key {
                let ghost q0 = self.queue@;
                proof {
                    lemma_first_entry_idx(q0, key);
                    assert(first_entry_idx(q0, key) == i as int);
                }
                self.queue.set(i, (key, true));
                proof {
                    assert(self.queue@ =~= sc_marked(q0, key));
                }
                return ;
            }
            i += 1;
        }
        proof {
            lemma_first_entry_idx(self.queue@, key);
            assert(sc_marked(self.queue@, key) =~= self.queue@);
        }
    }

    fn on_remove(&mut self, key: u64) {
        self.queue = entry_vec_without(&self.queue, key);
    }

    fn evict(&mut self) -> (victim: Option<u64>) {
        let n = self.queue.len();
        if n == 0 {
            return None;
        }
        let c = find_clear(&self.queue);
        let ghost q0 = self.queue@;
        if c < n {
            let victim = self.queue[c].0;
            let mut nq: Vec<(u64, bool)> = Vec::new();
            let mut j: usize = c + 1;
            while j < n
                invariant
                    c + 1 <= j <= n,
                    n == self.queue@.len(),
                    self.queue@ == q0,
                    nq@.len() == j - (c + 1),
                    forall|t: int| 0 <= t < j - (c + 1) ==> nq@[t] == q0[c + 1 + t],
                decreases n - j,
            {
                let e = self.queue[j];
                nq.push(e);
                j += 1;
            }
            let mut t: usize = 0;
            while t < c
                invariant
                    t <= c,
                    c < n == self.queue@.len(),
                    self.queue@ == q0,
                    nq@.len() == (n - 1 - c) + t,
                    forall|u: int| 0 <= u < n - 1 - c ==> nq@[u] == q0[c + 1 + u],
                    forall|u: int| 0 <= u < t ==> nq@[n - 1 - c + u] == (q0[u].0, false),
                decreases c - t,
            {
                let e = self.queue[t];
                nq.push((e.0, false));
                t += 1;
            }
            self.queue = nq;
            proof {
                assert(self.queue@ =~= sc_evict(q0).0);
            }
            Some(victim)
        } else {
            let victim = self.queue[0].0;
            let mut nq: Vec<(u64, bool)> = Vec::new();
            let mut j: usize = 1;
            while j < n
                invariant
                    1 <= j <= n,
                    n == self.queue@.len(),
                    self.queue@ == q0,
                    nq@.len() == j - 1,
                    forall|u: int| 0 <= u < j - 1 ==> nq@[u] == (q0[u + 1].0, false),
                decreases n - j,
            {
                let e = self.queue[j];
                nq.push((e.0, false));
                j += 1;
            }
            self.queue = nq;
            proof {
                lemma_first_clear_idx(q0);
                assert(self.queue@ =~= sc_evict(q0).0);
            }
            Some(victim)
        }
    }
}

} // verus!
