//! The Segmented FIFO eviction policy.

use vstd::prelude::*;

use crate::eviction::EvictionPolicy;
use crate::model::drop_front;
use crate::model::first_busy;
use crate::model::lemma_first_busy;
use crate::model::segment_of;
use crate::model::sfifo_evict;
use crate::model::sfifo_on_insert;
use crate::model::sfifo_on_remove;
use crate::model::PolicyModel;
use crate::model::SfifoModel;
use crate::vecops::vec_without;
use crate::vecops::without;

verus! {

/// Segmented FIFO: a fixed array of FIFO queues; a key belongs to the
/// segment given by its value modulo the segment count. A full segment
/// drops its front on insertion; eviction serves the front of the
/// first non-empty segment.
pub struct SFIFO {
    segments: Vec<Vec<u64>>,
    segment_capacity: usize,
}

impl SFIFO {
    /// The segment queues and the per-segment capacity.
    pub closed spec fn model(&self) -> SfifoModel {
        SfifoModel {
            segments: self.segments@.map_values(|v: Vec<u64>| v@),
            segment_capacity: self.segment_capacity as nat,
        }
    }

    /// Creates a new SFIFO eviction policy instance with empty
    /// segments.
    ///
    /// # Parameters
    /// * `num_segments`: how many segments to divide the keys over;
    ///   at least one.
    /// * `segment_capacity`: the maximum number of keys per segment.
    pub fn new(num_segments: usize, segment_capacity: usize) -> (r: Self)
        requires
            num_segments >= 1,
        ensures
            r.wf(),
            r.abs() == PolicyModel::Sfifo(
                SfifoModel {
                    segments: Seq::new(num_segments as nat, |i: int| Seq::<u64>::empty()),
                    segment_capacity: segment_capacity as nat,
                },
            ),
    {
        let mut segments: Vec<Vec<u64>> = Vec::new();
        let mut i: usize = 0;
        while i < num_segments
            invariant
                i <= num_segments,
                segments@.len() == i,
                forall|j: int| 0 <= j < i ==> #[trigger] segments@[j]@.len() == 0,
            decreases num_segments - i,
        {
            segments.push(Vec::new());
            i += 1;
        }
        let r = SFIFO { segments, segment_capacity };
        proof {
            assert(r.model().segments =~~= Seq::new(
                num_segments as nat,
                |i: int| Seq::<u64>::empty(),
            ));
        }
        r
    }

    /// The segment index a key belongs to.
    fn segment_index(&self, key: u64) -> (i: usize)
        requires
            self.wf(),
        ensures
            i as int == segment_of(self.model(), key),
            i < self.segments@.len(),
    {
        (key % (self.segments.len() as u64)) as usize
    }
}

impl EvictionPolicy for SFIFO {
    closed spec fn abs(&self) -> PolicyModel {
        PolicyModel::Sfifo(self.model())
    }

    closed spec fn wf(&self) -> bool {
        self.segments@.len() >= 1
    }

    fn on_insert(&mut self, key: u64) {
        let i = self.segment_index(key);
        let ghost s0 = self.segments@;
        let mut seg = self.segments.remove(i);
        if seg.len() >= self.segment_capacity {
            if seg.len() > 0 {
                seg.remove(0);
            }
            proof {
                assert(seg@ =~= drop_front(s0[i as int]@));
            }
        }
        seg.push(key);
        self.segments.insert(i, seg);
        proof {
            assert(self.segments@ =~= s0.update(i as int, seg));
            assert(self.model().segments =~~= sfifo_on_insert(
                old(self).model(),
                key,
            ).segments);
        }
    }

    fn on_access(&mut self, key: u64) {
        // Recency plays no part in segmented FIFO.
    }

    fn on_remove(&mut self, key: u64) {
        let i = self.segment_index(key);
        let ghost s0 = self.segments@;
        let seg = self.segments.remove(i);
        let seg = vec_without(&seg, key);
        self.segments.insert(i, seg);
        proof {
            assert(self.segments@ =~= s0.update(i as int, seg));
            assert(self.model().segments =~~= sfifo_on_remove(
                old(self).model(),
                key,
            ).segments);
        }
    }

    fn evict(&mut self) -> (victim: Option<u64>) {
        let mut i: usize = 0;
        while i < self.segments.len()
            invariant
                *self == *old(self),
                i <= self.segments@.len(),
                forall|j: int| 0 <= j < i ==> #[trigger] self.segments@[j]@.len() == 0,
            decreases self.segments@.len() - i,
        {
            if self.segments[i].len() > 0 {
                let ghost m0 = self.model();
                proof {
                    assert(m0.segments[i as int] == self.segments@[i as int]@);
                    assert forall|j: int| 0 <= j < i implies #[trigger] m0.segments[j].len()
                        == 0 by {
                        assert(m0.segments[j] == self.segments@[j]@);
                    }
                    lemma_first_busy(m0.segments);
                    assert(first_busy(m0.segments) == i as int);
                }
                let ghost s0 = self.segments@;
                let mut seg = self.segments.remove(i);
                let victim = seg.remove(0);
                self.segments.insert(i, seg);
                proof {
                    assert(seg@ =~= m0.segments[i as int].drop_first());
                    assert(self.segments@ =~= s0.update(i as int, seg));
                    assert(self.model().segments =~~= sfifo_evict(m0).0.segments);
                }
                return Some(victim);
            }
            i += 1;
        }
        proof {
            let m0 = self.model();
            assert forall|j: int| 0 <= j < m0.segments.len() implies #[trigger] m0.segments[j].len()
                == 0 by {
                assert(m0.segments[j] == self.segments@[j]@);
            }
            lemma_first_busy(m0.segments);
            assert(first_busy(m0.segments) != -1 ==> false);
        }
        None
    }
}

} // verus!
