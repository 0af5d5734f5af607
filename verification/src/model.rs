//! The mathematical model of the cache.
//!
//! Each eviction policy has an abstract state here, together with spec
//! functions giving the exact transition each callback performs. The
//! executable policies in [`crate::eviction`] promise, in their
//! contracts, to follow these transitions; the cache operations promise
//! to compose them with the store as [`write_step`], [`read_step`] and
//! [`erase_step`] describe.

use vstd::prelude::*;

use crate::vecops::bump;
use crate::vecops::bumped;
use crate::vecops::has_entry;
use crate::vecops::has_key;
use crate::vecops::max_stamp_idx;
use crate::vecops::min_stamp_idx;
use crate::vecops::stamped;
use crate::vecops::without;
use crate::vecops::without_entry;
use crate::vecops::without_key;

verus! {

// ------------------------------------------------------------------
// Small shared helpers
// ------------------------------------------------------------------

/// The sequence without its front element; the empty sequence is kept.
pub open spec fn drop_front(s: Seq<u64>) -> Seq<u64> {
    if s.len() > 0 {
        s.drop_first()
    } else {
        s
    }
}

// ------------------------------------------------------------------
// Recency bookkeeping shared by LRU, MRU and the SLRU segments
// ------------------------------------------------------------------

/// Bookkeeping of a recency policy: one stamp per tracked key, plus the
/// monotonic (saturating) counter the stamps are drawn from.
pub struct LruModel {
    pub entries: Seq<(u64, u64)>,
    pub stamp: u64,
}

pub open spec fn lru_empty() -> LruModel {
    LruModel { entries: Seq::empty(), stamp: 0 }
}

/// A fresh insertion stamps the key with the advanced counter, whether
/// or not it was already tracked.
pub open spec fn lru_on_insert(m: LruModel, key: u64) -> LruModel {
    let t = bump(m.stamp);
    LruModel {
        entries: if has_key(m.entries, key) {
            stamped(m.entries, key, t)
        } else {
            m.entries.push((key, t))
        },
        stamp: t,
    }
}

/// An access advances the counter and re-stamps the key only if it is
/// tracked; an access to an unknown key changes no entry.
pub open spec fn lru_on_access(m: LruModel, key: u64) -> LruModel {
    let t = bump(m.stamp);
    LruModel { entries: stamped(m.entries, key, t), stamp: t }
}

pub open spec fn lru_on_remove(m: LruModel, key: u64) -> LruModel {
    LruModel { entries: without_key(m.entries, key), stamp: m.stamp }
}

/// The victim is the key with the minimum stamp (the first such entry
/// on a tie); it is purged from the bookkeeping.
pub open spec fn lru_evict(m: LruModel) -> (LruModel, Option<u64>) {
    if m.entries.len() == 0 {
        (m, None)
    } else {
        let victim = m.entries[min_stamp_idx(m.entries)].0;
        (LruModel { entries: without_key(m.entries, victim), stamp: m.stamp }, Some(victim))
    }
}

/// The MRU victim is the key with the maximum stamp instead.
pub open spec fn mru_evict(m: LruModel) -> (LruModel, Option<u64>) {
    if m.entries.len() == 0 {
        (m, None)
    } else {
        let victim = m.entries[max_stamp_idx(m.entries)].0;
        (LruModel { entries: without_key(m.entries, victim), stamp: m.stamp }, Some(victim))
    }
}

// ------------------------------------------------------------------
// LFU
// ------------------------------------------------------------------

/// An insertion sets the key's count to 1, overwriting any previous
/// count; an access bumps the count of a tracked key.
pub open spec fn lfu_on_insert(counts: Seq<(u64, u64)>, key: u64) -> Seq<(u64, u64)> {
    if has_key(counts, key) {
        stamped(counts, key, 1)
    } else {
        counts.push((key, 1))
    }
}

/// The LFU victim is the key with the minimum count (the first such
/// entry on a tie).
pub open spec fn lfu_evict(counts: Seq<(u64, u64)>) -> (Seq<(u64, u64)>, Option<u64>) {
    if counts.len() == 0 {
        (counts, None)
    } else {
        let victim = counts[min_stamp_idx(counts)].0;
        (without_key(counts, victim), Some(victim))
    }
}

// ------------------------------------------------------------------
// FIFO
// ------------------------------------------------------------------

pub open spec fn fifo_evict(queue: Seq<u64>) -> (Seq<u64>, Option<u64>) {
    if queue.len() == 0 {
        (queue, None)
    } else {
        (queue.drop_first(), Some(queue[0]))
    }
}

// ------------------------------------------------------------------
// SLRU: probationary and protected segments
// ------------------------------------------------------------------

pub struct SlruModel {
    pub probationary: LruModel,
    pub protected: LruModel,
    pub probationary_capacity: nat,
    pub protected_capacity: nat,
}

/// A new key enters the probationary segment; if that segment is at
/// capacity, its own LRU victim is dropped from the bookkeeping first
/// (the store is not informed).
pub open spec fn slru_on_insert(m: SlruModel, key: u64) -> SlruModel {
    let prob = if m.probationary.entries.len() >= m.probationary_capacity {
        lru_evict(m.probationary).0
    } else {
        m.probationary
    };
    SlruModel { probationary: lru_on_insert(prob, key), ..m }
}

/// Promotion of a probationary key: the protected segment makes room by
/// dropping its own LRU victim if full, then the key moves across.
pub open spec fn slru_promote(m: SlruModel, key: u64) -> SlruModel {
    if has_key(m.probationary.entries, key) {
        let prot = if m.protected.entries.len() >= m.protected_capacity {
            lru_evict(m.protected).0
        } else {
            m.protected
        };
        SlruModel {
            probationary: lru_on_remove(m.probationary, key),
            protected: lru_on_insert(prot, key),
            ..m
        }
    } else {
        m
    }
}

/// An access promotes a probationary key, and otherwise touches the key
/// in the protected segment (a no-op if it is not tracked there).
pub open spec fn slru_on_access(m: SlruModel, key: u64) -> SlruModel {
    if has_key(m.probationary.entries, key) {
        slru_promote(m, key)
    } else {
        SlruModel { protected: lru_on_access(m.protected, key), ..m }
    }
}

pub open spec fn slru_on_remove(m: SlruModel, key: u64) -> SlruModel {
    if has_key(m.probationary.entries, key) {
        SlruModel { probationary: lru_on_remove(m.probationary, key), ..m }
    } else {
        SlruModel { protected: lru_on_remove(m.protected, key), ..m }
    }
}

/// Eviction is probationary-first: the protected segment is consulted
/// only when the probationary segment is empty.
pub open spec fn slru_evict(m: SlruModel) -> (SlruModel, Option<u64>) {
    if m.probationary.entries.len() > 0 {
        let (prob, victim) = lru_evict(m.probationary);
        (SlruModel { probationary: prob, ..m }, victim)
    } else {
        let (prot, victim) = lru_evict(m.protected);
        (SlruModel { protected: prot, ..m }, victim)
    }
}

// ------------------------------------------------------------------
// SFIFO: segmented FIFO
// ------------------------------------------------------------------

pub struct SfifoModel {
    pub segments: Seq<Seq<u64>>,
    pub segment_capacity: nat,
}

/// The segment a key belongs to: its value modulo the segment count.
pub open spec fn segment_of(m: SfifoModel, key: u64) -> int {
    key as int % m.segments.len() as int
}

/// A new key is pushed onto the back of its segment; a full segment
/// drops its front first (the store is not informed).
pub open spec fn sfifo_on_insert(m: SfifoModel, key: u64) -> SfifoModel {
    if m.segments.len() == 0 {
        m
    } else {
        let i = segment_of(m, key);
        let seg = m.segments[i];
        let seg = if seg.len() >= m.segment_capacity {
            drop_front(seg)
        } else {
            seg
        };
        SfifoModel { segments: m.segments.update(i, seg.push(key)), ..m }
    }
}

pub open spec fn sfifo_on_remove(m: SfifoModel, key: u64) -> SfifoModel {
    if m.segments.len() == 0 {
        m
    } else {
        let i = segment_of(m, key);
        SfifoModel { segments: m.segments.update(i, without(m.segments[i], key)), ..m }
    }
}

/// The index of the first non-empty segment, or -1 when all are empty.
pub open spec fn first_busy(segs: Seq<Seq<u64>>) -> int
    decreases segs.len(),
{
    if segs.len() == 0 {
        -1
    } else if segs[0].len() > 0 {
        0
    } else {
        let r = first_busy(segs.drop_first());
        if r == -1 {
            -1
        } else {
            1 + r
        }
    }
}

pub proof fn lemma_first_busy(segs: Seq<Seq<u64>>)
    ensures
        first_busy(segs) == -1 ==> forall|j: int| 0 <= j < segs.len() ==> segs[j].len() == 0,
        first_busy(segs) != -1 ==> {
            &&& 0 <= first_busy(segs) < segs.len()
            &&& segs[first_busy(segs)].len() > 0
            &&& forall|j: int| 0 <= j < first_busy(segs) ==> segs[j].len() == 0
        },
    decreases segs.len(),
{
    if segs.len() > 0 && segs[0].len() == 0 {
        let d = segs.drop_first();
        lemma_first_busy(d);
        let r = first_busy(d);
        if r == -1 {
            assert forall|j: int| 0 <= j < segs.len() implies segs[j].len() == 0 by {
                if j > 0 {
                    assert(d[j - 1] == segs[j]);
                }
            }
        } else {
            assert(segs[1 + r] == d[r]);
            assert forall|j: int| 0 <= j < 1 + r implies segs[j].len() == 0 by {
                if j > 0 {
                    assert(d[j - 1] == segs[j]);
                }
            }
        }
    }
}

/// The victim is the front of the first non-empty segment.
pub open spec fn sfifo_evict(m: SfifoModel) -> (SfifoModel, Option<u64>) {
    let i = first_busy(m.segments);
    if i == -1 {
        (m, None)
    } else {
        (
            SfifoModel { segments: m.segments.update(i, m.segments[i].drop_first()), ..m },
            Some(m.segments[i][0]),
        )
    }
}

// ------------------------------------------------------------------
// KLRU: evicts the (k+1)-th most recently touched key
// ------------------------------------------------------------------

pub struct KlruModel {
    pub order: Seq<u64>,
    pub k: nat,
}

/// With more than `k` tracked keys, the victim sits `k` places before
/// the back of the recency order; otherwise there is no candidate.
pub open spec fn klru_evict(m: KlruModel) -> (KlruModel, Option<u64>) {
    if m.order.len() > m.k {
        let victim = m.order[m.order.len() - 1 - m.k];
        (KlruModel { order: without(m.order, victim), ..m }, Some(victim))
    } else {
        (m, None)
    }
}

// ------------------------------------------------------------------
// Second-Chance
// ------------------------------------------------------------------

/// The index of the first entry keyed `k`, or -1 when none is.
pub open spec fn first_entry_idx(s: Seq<(u64, bool)>, k: u64) -> int
    decreases s.len(),
{
    if s.len() == 0 {
        -1
    } else if s[0].0 == k {
        0
    } else {
        let r = first_entry_idx(s.drop_first(), k);
        if r == -1 {
            -1
        } else {
            1 + r
        }
    }
}

pub proof fn lemma_first_entry_idx(s: Seq<(u64, bool)>, k: u64)
    ensures
        first_entry_idx(s, k) == -1 ==> forall|j: int| 0 <= j < s.len() ==> s[j].0 != k,
        first_entry_idx(s, k) != -1 ==> {
            &&& 0 <= first_entry_idx(s, k) < s.len()
            &&& s[first_entry_idx(s, k)].0 == k
            &&& forall|j: int| 0 <= j < first_entry_idx(s, k) ==> s[j].0 != k
        },
    decreases s.len(),
{
    if s.len() > 0 && s[0].0 != k {
        let d = s.drop_first();
        lemma_first_entry_idx(d, k);
        let r = first_entry_idx(d, k);
        if r == -1 {
            assert forall|j: int| 0 <= j < s.len() implies s[j].0 != k by {
                if j > 0 {
                    assert(d[j - 1] == s[j]);
                }
            }
        } else {
            assert(s[1 + r] == d[r]);
            assert forall|j: int| 0 <= j < 1 + r implies s[j].0 != k by {
                if j > 0 {
                    assert(d[j - 1] == s[j]);
                }
            }
        }
    }
}

/// An access grants the first matching entry its reference bit.
pub open spec fn sc_marked(s: Seq<(u64, bool)>, key: u64) -> Seq<(u64, bool)> {
    let i = first_entry_idx(s, key);
    if i == -1 {
        s
    } else {
        s.update(i, (key, true))
    }
}

/// The index of the first entry whose reference bit is clear, or -1.
pub open spec fn first_clear_idx(s: Seq<(u64, bool)>) -> int
    decreases s.len(),
{
    if s.len() == 0 {
        -1
    } else if !s[0].1 {
        0
    } else {
        let r = first_clear_idx(s.drop_first());
        if r == -1 {
            -1
        } else {
            1 + r
        }
    }
}

pub proof fn lemma_first_clear_idx(s: Seq<(u64, bool)>)
    ensures
        first_clear_idx(s) == -1 ==> forall|j: int| 0 <= j < s.len() ==> s[j].1,
        first_clear_idx(s) != -1 ==> {
            &&& 0 <= first_clear_idx(s) < s.len()
            &&& !s[first_clear_idx(s)].1
            &&& forall|j: int| 0 <= j < first_clear_idx(s) ==> s[j].1
        },
    decreases s.len(),
{
    if s.len() > 0 && s[0].1 {
        let d = s.drop_first();
        lemma_first_clear_idx(d);
        let r = first_clear_idx(d);
        if r == -1 {
            assert forall|j: int| 0 <= j < s.len() implies s[j].1 by {
                if j > 0 {
                    assert(d[j - 1] == s[j]);
                }
            }
        } else {
            assert(s[1 + r] == d[r]);
            assert forall|j: int| 0 <= j < 1 + r implies s[j].1 by {
                if j > 0 {
                    assert(d[j - 1] == s[j]);
                }
            }
        }
    }
}

/// Entries are inspected front to back: each referenced entry loses its
/// bit and moves to the back; the first unreferenced entry is evicted.
/// When every entry is referenced, all bits clear and the front entry
/// is evicted after its second chance.
pub open spec fn sc_evict(queue: Seq<(u64, bool)>) -> (Seq<(u64, bool)>, Option<u64>) {
    if queue.len() == 0 {
        (queue, None)
    } else {
        let i = first_clear_idx(queue);
        if i == -1 {
            (
                Seq::new((queue.len() - 1) as nat, |j: int| (queue[j + 1].0, false)),
                Some(queue[0].0),
            )
        } else {
            (
                queue.subrange(i + 1, queue.len() as int) + Seq::new(
                    i as nat,
                    |j: int| (queue[j].0, false),
                ),
                Some(queue[i].0),
            )
        }
    }
}

// ------------------------------------------------------------------
// ARC: adaptive replacement
// ------------------------------------------------------------------

/// The four ARC lists (LRU order, most recent at the back), the
/// adaptation parameter `p` and the configured capacity. `t1` and `t2`
/// track resident keys; `b1` and `b2` are ghost lists of keys only.
pub struct ArcModel {
    pub t1: Seq<u64>,
    pub t2: Seq<u64>,
    pub b1: Seq<u64>,
    pub b2: Seq<u64>,
    pub p: nat,
    pub capacity: nat,
}

/// Makes room by demoting the front of `t1` to `b1` when `t1` is
/// over-budget (or the key is a `b2` hit at budget), and otherwise the
/// front of `t2` to `b2`. With both lists empty nothing moves.
pub open spec fn arc_replace(m: ArcModel, key: u64) -> ArcModel {
    if m.t1.len() > 0 && (m.t1.len() > m.p || (m.b2.contains(key) && m.t1.len() == m.p)) {
        ArcModel { t1: m.t1.drop_first(), b1: m.b1.push(m.t1[0]), ..m }
    } else if m.t2.len() > 0 {
        ArcModel { t2: m.t2.drop_first(), b2: m.b2.push(m.t2[0]), ..m }
    } else {
        m
    }
}

pub open spec fn arc_on_insert(m: ArcModel, key: u64) -> ArcModel {
    if m.t1.contains(key) || m.t2.contains(key) {
        m
    } else {
        let total = m.t1.len() + m.t2.len() + m.b1.len() + m.b2.len();
        let m1 = if m.t1.len() + m.b1.len() == m.capacity {
            if m.t1.len() < m.capacity {
                arc_replace(ArcModel { b1: drop_front(m.b1), ..m }, key)
            } else {
                ArcModel { t1: drop_front(m.t1), ..m }
            }
        } else if total >= m.capacity {
            let m0 = if total == 2 * m.capacity {
                ArcModel { b2: drop_front(m.b2), ..m }
            } else {
                m
            };
            arc_replace(m0, key)
        } else {
            m
        };
        ArcModel { t1: m1.t1.push(key), ..m1 }
    }
}

pub open spec fn arc_on_access(m: ArcModel, key: u64) -> ArcModel {
    if m.t1.contains(key) {
        ArcModel { t1: without(m.t1, key), t2: m.t2.push(key), ..m }
    } else if m.t2.contains(key) {
        ArcModel { t2: without(m.t2, key).push(key), ..m }
    } else if m.b1.contains(key) {
        let step = if m.b2.len() / m.b1.len() >= 1 {
            m.b2.len() / m.b1.len()
        } else {
            1
        };
        let p = if m.p + step >= m.capacity {
            m.capacity
        } else {
            m.p + step
        };
        let m1 = arc_replace(ArcModel { p, ..m }, key);
        ArcModel { b1: without(m1.b1, key), t2: m1.t2.push(key), ..m1 }
    } else if m.b2.contains(key) {
        let step = if m.b1.len() / m.b2.len() >= 1 {
            m.b1.len() / m.b2.len()
        } else {
            1
        };
        let p = if m.p >= step {
            (m.p - step) as nat
        } else {
            0
        };
        let m1 = arc_replace(ArcModel { p, ..m }, key);
        ArcModel { b2: without(m1.b2, key), t2: m1.t2.push(key), ..m1 }
    } else {
        m
    }
}

pub open spec fn arc_on_remove(m: ArcModel, key: u64) -> ArcModel {
    ArcModel {
        t1: without(m.t1, key),
        t2: without(m.t2, key),
        b1: without(m.b1, key),
        b2: without(m.b2, key),
        ..m
    }
}

/// Eviction serves the front of `t1` while `t1` is over-budget, and
/// otherwise the front of `t2`; the victim enters no ghost list here.
pub open spec fn arc_evict(m: ArcModel) -> (ArcModel, Option<u64>) {
    if m.t1.len() == 0 && m.t2.len() == 0 {
        (m, None)
    } else if m.t1.len() > m.p {
        (ArcModel { t1: m.t1.drop_first(), ..m }, Some(m.t1[0]))
    } else if m.t2.len() > 0 {
        (ArcModel { t2: m.t2.drop_first(), ..m }, Some(m.t2[0]))
    } else {
        (m, None)
    }
}

/// The structural bounds ARC maintains across every callback: the
/// adaptation parameter stays within `[0, capacity]`, the recency side
/// obeys `|T1| + |B1| <= capacity`, the resident lists together hold at
/// most `capacity` keys, and all four lists together at most
/// `2 * capacity`.
pub open spec fn arc_ok(m: ArcModel) -> bool {
    &&& m.capacity >= 1
    &&& m.p <= m.capacity
    &&& m.t1.len() + m.b1.len() <= m.capacity
    &&& m.t1.len() + m.t2.len() <= m.capacity
    &&& m.t1.len() + m.t2.len() + m.b1.len() + m.b2.len() <= 2 * m.capacity
}

pub proof fn lemma_arc_replace_ok(m: ArcModel, key: u64)
    requires
        arc_ok(m),
    ensures
        arc_ok(arc_replace(m, key)),
        arc_replace(m, key).p == m.p,
        arc_replace(m, key).capacity == m.capacity,
        arc_replace(m, key).t1.len() + arc_replace(m, key).b1.len() == m.t1.len() + m.b1.len(),
        arc_replace(m, key).t1.len() + arc_replace(m, key).t2.len() <= m.t1.len() + m.t2.len(),
        m.t2.len() > 0 || (m.t1.len() > 0 && (m.t1.len() > m.p || (m.b2.contains(key)
            && m.t1.len() == m.p))) ==> arc_replace(m, key).t1.len() + arc_replace(
            m,
            key,
        ).t2.len() < m.t1.len() + m.t2.len(),
        arc_replace(m, key).t1.len() + arc_replace(m, key).t2.len() + arc_replace(m, key).b1.len()
            + arc_replace(m, key).b2.len() == m.t1.len() + m.t2.len() + m.b1.len() + m.b2.len(),
{
}

pub proof fn lemma_arc_on_insert_ok(m: ArcModel, key: u64)
    requires
        arc_ok(m),
    ensures
        arc_ok(arc_on_insert(m, key)),
{
    if !(m.t1.contains(key) || m.t2.contains(key)) {
        if m.t1.len() + m.b1.len() == m.capacity {
            if m.t1.len() < m.capacity {
                lemma_arc_replace_ok(ArcModel { b1: drop_front(m.b1), ..m }, key);
            }
        } else if m.t1.len() + m.t2.len() + m.b1.len() + m.b2.len() >= m.capacity {
            if m.t1.len() + m.t2.len() + m.b1.len() + m.b2.len() == 2 * m.capacity {
                lemma_arc_replace_ok(ArcModel { b2: drop_front(m.b2), ..m }, key);
            } else {
                lemma_arc_replace_ok(m, key);
            }
        }
    }
}

pub proof fn lemma_arc_on_access_ok(m: ArcModel, key: u64)
    requires
        arc_ok(m),
    ensures
        arc_ok(arc_on_access(m, key)),
{
    if m.t1.contains(key) {
        crate::vecops::lemma_without(m.t1, key);
    } else if m.t2.contains(key) {
        crate::vecops::lemma_without(m.t2, key);
    } else if m.b1.contains(key) {
        let step = if m.b2.len() / m.b1.len() >= 1 {
            m.b2.len() / m.b1.len()
        } else {
            1
        };
        let p = if m.p + step >= m.capacity {
            m.capacity
        } else {
            m.p + step
        };
        let ma = ArcModel { p, ..m };
        let m1 = arc_replace(ma, key);
        lemma_arc_replace_ok(ma, key);
        assert(m.b1.len() >= 1) by {
            let i = choose|i: int| 0 <= i < m.b1.len() && m.b1[i] == key;
        }
        assert(m1.b1.contains(key)) by {
            let i = choose|i: int| 0 <= i < m.b1.len() && m.b1[i] == key;
            assert(m1.b1[i] == key);
        }
        crate::vecops::lemma_without(m1.b1, key);
        if m1.t1.len() + m1.t2.len() == ma.t1.len() + ma.t2.len() {
            // replace moved nothing, so t2 is empty and t1 stays below
            // capacity because b1 holds at least the hit key
            assert(m1.t1.len() + m1.t2.len() + 1 <= m.capacity);
        }
    } else if m.b2.contains(key) {
        let step = if m.b1.len() / m.b2.len() >= 1 {
            m.b1.len() / m.b2.len()
        } else {
            1
        };
        let p = if m.p >= step {
            (m.p - step) as nat
        } else {
            0
        };
        let ma = ArcModel { p, ..m };
        let m1 = arc_replace(ma, key);
        lemma_arc_replace_ok(ma, key);
        assert(m.b2.len() >= 1) by {
            let i = choose|i: int| 0 <= i < m.b2.len() && m.b2[i] == key;
        }
        assert(m1.b2.contains(key)) by {
            let i = choose|i: int| 0 <= i < m.b2.len() && m.b2[i] == key;
            assert(m1.b2[i] == key);
        }
        crate::vecops::lemma_without(m1.b2, key);
        if m1.t1.len() + m1.t2.len() == ma.t1.len() + ma.t2.len() {
            // replace moved nothing: either t1 is empty, or t1 < p' and
            // p' stays within capacity
            assert(m1.t1.len() + m1.t2.len() + 1 <= m.capacity);
        }
    }
}

pub proof fn lemma_arc_on_remove_ok(m: ArcModel, key: u64)
    requires
        arc_ok(m),
    ensures
        arc_ok(arc_on_remove(m, key)),
{
    crate::vecops::lemma_without(m.t1, key);
    crate::vecops::lemma_without(m.t2, key);
    crate::vecops::lemma_without(m.b1, key);
    crate::vecops::lemma_without(m.b2, key);
}

pub proof fn lemma_arc_evict_ok(m: ArcModel)
    requires
        arc_ok(m),
    ensures
        arc_ok(arc_evict(m).0),
{
}

// ------------------------------------------------------------------
// The policy family
// ------------------------------------------------------------------

/// The abstract bookkeeping state of each eviction policy.
pub enum PolicyModel {
    Lru(LruModel),
    Fifo { queue: Seq<u64> },
    Lfu { counts: Seq<(u64, u64)> },
    Mru(LruModel),
    Rand { keys: Seq<u64> },
    Slru(SlruModel),
    Sfifo(SfifoModel),
    Klru(KlruModel),
    SecondChance { entries: Seq<(u64, bool)> },
    Arc(ArcModel),
}

/// The transition performed by `on_insert`.
pub open spec fn policy_on_insert(p: PolicyModel, key: u64) -> PolicyModel {
    match p {
        PolicyModel::Lru(m) => PolicyModel::Lru(lru_on_insert(m, key)),
        PolicyModel::Fifo { queue } => PolicyModel::Fifo { queue: queue.push(key) },
        PolicyModel::Lfu { counts } => PolicyModel::Lfu { counts: lfu_on_insert(counts, key) },
        PolicyModel::Mru(m) => PolicyModel::Mru(lru_on_insert(m, key)),
        PolicyModel::Rand { keys } => PolicyModel::Rand {
            keys: if keys.contains(key) {
                keys
            } else {
                keys.push(key)
            },
        },
        PolicyModel::Slru(m) => PolicyModel::Slru(slru_on_insert(m, key)),
        PolicyModel::Sfifo(m) => PolicyModel::Sfifo(sfifo_on_insert(m, key)),
        PolicyModel::Klru(m) => PolicyModel::Klru(KlruModel { order: m.order.push(key), ..m }),
        PolicyModel::SecondChance { entries } => PolicyModel::SecondChance {
            entries: entries.push((key, false)),
        },
        PolicyModel::Arc(m) => PolicyModel::Arc(arc_on_insert(m, key)),
    }
}

/// The transition performed by `on_access`.
pub open spec fn policy_on_access(p: PolicyModel, key: u64) -> PolicyModel {
    match p {
        PolicyModel::Lru(m) => PolicyModel::Lru(lru_on_access(m, key)),
        PolicyModel::Fifo { queue } => PolicyModel::Fifo { queue },
        PolicyModel::Lfu { counts } => PolicyModel::Lfu { counts: bumped(counts, key) },
        PolicyModel::Mru(m) => PolicyModel::Mru(lru_on_access(m, key)),
        PolicyModel::Rand { keys } => PolicyModel::Rand { keys },
        PolicyModel::Slru(m) => PolicyModel::Slru(slru_on_access(m, key)),
        PolicyModel::Sfifo(m) => PolicyModel::Sfifo(m),
        PolicyModel::Klru(m) => PolicyModel::Klru(
            KlruModel { order: without(m.order, key).push(key), ..m },
        ),
        PolicyModel::SecondChance { entries } => PolicyModel::SecondChance {
            entries: sc_marked(entries, key),
        },
        PolicyModel::Arc(m) => PolicyModel::Arc(arc_on_access(m, key)),
    }
}

/// The transition performed by `on_remove`.
pub open spec fn policy_on_remove(p: PolicyModel, key: u64) -> PolicyModel {
    match p {
        PolicyModel::Lru(m) => PolicyModel::Lru(lru_on_remove(m, key)),
        PolicyModel::Fifo { queue } => PolicyModel::Fifo { queue: without(queue, key) },
        PolicyModel::Lfu { counts } => PolicyModel::Lfu { counts: without_key(counts, key) },
        PolicyModel::Mru(m) => PolicyModel::Mru(lru_on_remove(m, key)),
        PolicyModel::Rand { keys } => PolicyModel::Rand { keys: without(keys, key) },
        PolicyModel::Slru(m) => PolicyModel::Slru(slru_on_remove(m, key)),
        PolicyModel::Sfifo(m) => PolicyModel::Sfifo(sfifo_on_remove(m, key)),
        PolicyModel::Klru(m) => PolicyModel::Klru(KlruModel { order: without(m.order, key), ..m }),
        PolicyModel::SecondChance { entries } => PolicyModel::SecondChance {
            entries: without_entry(entries, key),
        },
        PolicyModel::Arc(m) => PolicyModel::Arc(arc_on_remove(m, key)),
    }
}

/// What `evict` may do: for every policy but Random the outcome is a
/// function of the state; Random returns any tracked key, purged.
pub open spec fn evict_rel(p0: PolicyModel, p1: PolicyModel, victim: Option<u64>) -> bool {
    match p0 {
        PolicyModel::Lru(m) => {
            let (m1, v) = lru_evict(m);
            p1 == PolicyModel::Lru(m1) && victim == v
        },
        PolicyModel::Fifo { queue } => {
            let (q1, v) = fifo_evict(queue);
            p1 == (PolicyModel::Fifo { queue: q1 }) && victim == v
        },
        PolicyModel::Lfu { counts } => {
            let (c1, v) = lfu_evict(counts);
            p1 == (PolicyModel::Lfu { counts: c1 }) && victim == v
        },
        PolicyModel::Mru(m) => {
            let (m1, v) = mru_evict(m);
            p1 == PolicyModel::Mru(m1) && victim == v
        },
        PolicyModel::Rand { keys } => match victim {
            None => keys.len() == 0 && p1 == p0,
            Some(k) => keys.contains(k) && p1 == (PolicyModel::Rand { keys: without(keys, k) }),
        },
        PolicyModel::Slru(m) => {
            let (m1, v) = slru_evict(m);
            p1 == PolicyModel::Slru(m1) && victim == v
        },
        PolicyModel::Sfifo(m) => {
            let (m1, v) = sfifo_evict(m);
            p1 == PolicyModel::Sfifo(m1) && victim == v
        },
        PolicyModel::Klru(m) => {
            let (m1, v) = klru_evict(m);
            p1 == PolicyModel::Klru(m1) && victim == v
        },
        PolicyModel::SecondChance { entries } => {
            let (q1, v) = sc_evict(entries);
            p1 == (PolicyModel::SecondChance { entries: q1 }) && victim == v
        },
        PolicyModel::Arc(m) => {
            let (m1, v) = arc_evict(m);
            p1 == PolicyModel::Arc(m1) && victim == v
        },
    }
}

// ------------------------------------------------------------------
// The cache model
// ------------------------------------------------------------------

/// The abstract state of a whole cache: the resident mapping, the
/// policy bookkeeping, and the fixed capacity.
pub struct CacheModel<V> {
    pub store: Map<u64, V>,
    pub policy: PolicyModel,
    pub capacity: nat,
}

/// A `set` consults the policy for a victim exactly when the store is
/// full and the key is not already resident.
pub open spec fn needs_evict<V>(m: CacheModel<V>, key: u64) -> bool {
    m.store.len() >= m.capacity && !m.store.contains_key(key)
}

pub open spec fn store_after_evict<V>(store: Map<u64, V>, evicted: Option<u64>) -> Map<u64, V> {
    match evicted {
        Some(e) => store.remove(e),
        None => store,
    }
}

/// How `set(key, value)` relates the cache model before and after,
/// given the victim the policy reported (`None` when no eviction was
/// asked for or the policy had no candidate).
pub open spec fn write_step<V>(
    m0: CacheModel<V>,
    key: u64,
    value: V,
    evicted: Option<u64>,
    m1: CacheModel<V>,
) -> bool {
    &&& m1.capacity == m0.capacity
    &&& if needs_evict(m0, key) {
        &&& exists|mid: PolicyModel|
            #[trigger] evict_rel(m0.policy, mid, evicted) && m1.policy == policy_on_insert(
                mid,
                key,
            )
        &&& m1.store == store_after_evict(m0.store, evicted).insert(key, value)
    } else {
        &&& evicted is None
        &&& m1.policy == policy_on_insert(m0.policy, key)
        &&& m1.store == m0.store.insert(key, value)
    }
}

/// The (deterministic) effect of `get(key)` on the model: a resident
/// key is reported to the policy as an access; the store never changes.
pub open spec fn read_step<V>(m0: CacheModel<V>, key: u64) -> CacheModel<V> {
    if m0.store.contains_key(key) {
        CacheModel { policy: policy_on_access(m0.policy, key), ..m0 }
    } else {
        m0
    }
}

/// The (deterministic) effect of `remove(key)` on the model: the policy
/// hears of the removal unconditionally, and the key leaves the store.
pub open spec fn erase_step<V>(m0: CacheModel<V>, key: u64) -> CacheModel<V> {
    CacheModel { store: m0.store.remove(key), policy: policy_on_remove(m0.policy, key), ..m0 }
}

} // verus!
