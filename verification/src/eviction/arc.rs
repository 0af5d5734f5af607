//! The Adaptive Replacement Cache eviction policy.

use vstd::prelude::*;

use crate::eviction::EvictionPolicy;
use crate::model::arc_evict;
use crate::model::arc_ok;
use crate::model::arc_on_access;
use crate::model::arc_on_insert;
use crate::model::arc_on_remove;
use crate::model::arc_replace;
use crate::model::drop_front;
use crate::model::lemma_arc_evict_ok;
use crate::model::lemma_arc_on_access_ok;
use crate::model::lemma_arc_on_insert_ok;
use crate::model::lemma_arc_on_remove_ok;
use crate::model::lemma_arc_replace_ok;
use crate::model::ArcModel;
use crate::model::PolicyModel;
use crate::vecops::vec_contains;
use crate::vecops::vec_without;

verus! {

/// Adaptive Replacement Cache: two resident lists `t1` (seen once) and
/// `t2` (seen at least twice) and two ghost lists `b1` and `b2` of
/// recently demoted keys, balanced by the adaptation parameter `p`.
/// The structural bounds [`arc_ok`] hold after every callback.
pub struct ARC {
    t1: Vec<u64>,
    t2: Vec<u64>,
    b1: Vec<u64>,
    b2: Vec<u64>,
    p: usize,
    capacity: usize,
}

impl ARC {
    /// The four lists, the adaptation parameter and the capacity.
    pub closed spec fn model(&self) -> ArcModel {
        ArcModel {
            t1: self.t1@,
            t2: self.t2@,
            b1: self.b1@,
            b2: self.b2@,
            p: self.p as nat,
            capacity: self.capacity as nat,
        }
    }

    /// Creates a new ARC eviction policy instance with empty lists.
    ///
    /// # Parameters
    /// * `capacity`: the number of resident keys the host cache holds;
    ///   positive.
    pub fn new(capacity: usize) -> (r: Self)
        requires
            capacity >= 1,
        ensures
            r.wf(),
            r.abs() == PolicyModel::Arc(
                ArcModel {
                    t1: Seq::empty(),
                    t2: Seq::empty(),
                    b1: Seq::empty(),
                    b2: Seq::empty(),
                    p: 0,
                    capacity: capacity as nat,
                },
            ),
    {
        let r = ARC {
            t1: Vec::new(),
            t2: Vec::new(),
            b1: Vec::new(),
            b2: Vec::new(),
            p: 0,
            capacity,
        };
        proof {
            assert(r.t1@ =~= Seq::<u64>::empty());
            assert(r.t2@ =~= Seq::<u64>::empty());
            assert(r.b1@ =~= Seq::<u64>::empty());
            assert(r.b2@ =~= Seq::<u64>::empty());
        }
        r
    }

    /// Demotes the front of `t1` to `b1` when `t1` is over-budget (or
    /// the key hits `b2` at budget), and otherwise the front of `t2`
    /// to `b2`; with both resident lists empty nothing moves.
    fn replace(&mut self, key: u64)
        requires
            old(self).wf(),
        ensures
            final(self).wf(),
            final(self).model() == arc_replace(old(self).model(), key),
    {
        proof {
            lemma_arc_replace_ok(self.model(), key);
        }
        if self.t1.len() > 0 && (self.t1.len() > self.p || (vec_contains(&self.b2, key)
            && self.t1.len() == self.p)) {
            let moved = self.t1.remove(0);
            self.b1.push(moved);
            proof {
                assert(self.t1@ =~= old(self).t1@.drop_first());
            }
        } else if self.t2.len() > 0 {
            let moved = self.t2.remove(0);
            self.b2.push(moved);
            proof {
                assert(self.t2@ =~= old(self).t2@.drop_first());
            }
        }
    }
}

impl EvictionPolicy for ARC {
    open spec fn abs(&self) -> PolicyModel {
        PolicyModel::Arc(self.model())
    }

    open spec fn wf(&self) -> bool {
        arc_ok(self.model())
    }

    fn on_insert(&mut self, key: u64) {
        proof {
            lemma_arc_on_insert_ok(self.model(), key);
        }
        if vec_contains(&self.t1, key) || vec_contains(&self.t2, key) {
            return ;
        }
        let t1l = self.t1.len();
        let b1l = self.b1.len();
        let total: u128 = t1l as u128 + self.t2.len() as u128 + b1l as u128
            + self.b2.len() as u128;
        if t1l + b1l == self.capacity {
            if t1l < self.capacity {
                if self.b1.len() > 0 {
                    self.b1.remove(0);
                }
                proof {
                    assert(self.b1@ =~= drop_front(old(self).b1@));
                }
                self.replace(key);
            } else {
                if self.t1.len() > 0 {
                    self.t1.remove(0);
                }
                proof {
                    assert(self.t1@ =~= drop_front(old(self).t1@));
                }
            }
        } else if total >= self.capacity as u128 {
            if total == 2 * (self.capacity as u128) {
                if self.b2.len() > 0 {
                    self.b2.remove(0);
                }
                proof {
                    assert(self.b2@ =~= drop_front(old(self).b2@));
                }
            }
            self.replace(key);
        }
        self.t1.push(key);
    }

    fn on_access(&mut self, key: u64) {
        proof {
            lemma_arc_on_access_ok(self.model(), key);
        }
        if vec_contains(&self.t1, key) {
            self.t1 = vec_without(&self.t1, key);
            self.t2.push(key);
        } else if vec_contains(&self.t2, key) {
            self.t2 = vec_without(&self.t2, key);
            self.t2.push(key);
        } else if vec_contains(&self.b1, key) {
            let b1l = self.b1.len();
            proof {
                assert(self.b1@.len() >= 1) by {
                    let i = choose|i: int| 0 <= i < self.b1@.len() && self.b1@[i] == key;
                }
            }
            let q = self.b2.len() / b1l;
            let step = if q >= 1 {
                q
            } else {
                1
            };
            let pn: usize = if self.p as u128 + step as u128 >= self.capacity as u128 {
                self.capacity
            } else {
                self.p + step
            };
            self.p = pn;
            self.replace(key);
            self.b1 = vec_without(&self.b1, key);
            self.t2.push(key);
        } else if vec_contains(&self.b2, key) {
            let b2l = self.b2.len();
            proof {
                assert(self.b2@.len() >= 1) by {
                    let i = choose|i: int| 0 <= i < self.b2@.len() && self.b2@[i] == key;
                }
            }
            let q = self.b1.len() / b2l;
            let step = if q >= 1 {
                q
            } else {
                1
            };
            let pn: usize = if self.p >= step {
                self.p - step
            } else {
                0
            };
            self.p = pn;
            self.replace(key);
            self.b2 = vec_without(&self.b2, key);
            self.t2.push(key);
        }
    }

    fn on_remove(&mut self, key: u64) {
        proof {
            lemma_arc_on_remove_ok(self.model(), key);
        }
        self.t1 = vec_without(&self.t1, key);
        self.t2 = vec_without(&self.t2, key);
        self.b1 = vec_without(&self.b1, key);
        self.b2 = vec_without(&self.b2, key);
    }

    fn evict(&mut self) -> (victim: Option<u64>) {
        proof {
            lemma_arc_evict_ok(self.model());
        }
        if self.t1.len() == 0 && self.t2.len() == 0 {
            None
        } else if self.t1.len() > self.p {
            let v = self.t1.remove(0);
            proof {
                assert(self.t1@ =~= old(self).t1@.drop_first());
            }
            Some(v)
        } else if self.t2.len() > 0 {
            let v = self.t2.remove(0);
            proof {
                assert(self.t2@ =~= old(self).t2@.drop_first());
            }
            Some(v)
        } else {
            None
        }
    }
}

} // verus!
