//! The laws of the cache: what holds of every policy and every
//! operation sequence, proved over the models in [`crate::model`].
//!
//! A cache run is a sequence of [`CacheEvent`]s related by the same
//! step relations the `Cache` operations promise in their contracts,
//! so everything proved here holds of every real call sequence.

use vstd::prelude::*;

use crate::model::arc_on_access;
use crate::model::arc_ok;
use crate::model::erase_step;
use crate::model::evict_rel;
use crate::model::fifo_evict;
use crate::model::first_clear_idx;
use crate::model::klru_evict;
use crate::model::lemma_first_clear_idx;
use crate::model::lfu_evict;
use crate::model::lfu_on_insert;
use crate::model::lru_evict;
use crate::model::mru_evict;
use crate::model::needs_evict;
use crate::model::policy_on_access;
use crate::model::policy_on_insert;
use crate::model::read_step;
use crate::model::sc_evict;
use crate::model::store_after_evict;
use crate::model::write_step;
use crate::model::ArcModel;
use crate::model::CacheModel;
use crate::model::KlruModel;
use crate::model::LruModel;
use crate::model::PolicyModel;
use crate::vecops::entry_keys_unique;
use crate::vecops::has_entry;
use crate::vecops::has_key;
use crate::vecops::keys_unique;
use crate::model::lemma_first_entry_idx;
use crate::model::sc_marked;
use crate::model::slru_on_access;
use crate::model::SlruModel;
use crate::vecops::bump;
use crate::vecops::bumped;
use crate::vecops::lemma_bumped;
use crate::vecops::lemma_drop_first_no_dup;
use crate::vecops::lemma_push_entry;
use crate::vecops::lemma_max_stamp_idx;
use crate::vecops::lemma_push_key;
use crate::vecops::lemma_push_val;
use crate::vecops::lemma_stamped;
use crate::vecops::lemma_without;
use crate::vecops::lemma_without_entry;
use crate::vecops::lemma_without_key;
use crate::vecops::stamped;
use crate::vecops::without;
use crate::vecops::without_entry;
use crate::vecops::without_key;
use crate::vecops::lemma_min_stamp_idx;
use crate::vecops::max_stamp_idx;
use crate::vecops::min_stamp_idx;

verus! {

// ------------------------------------------------------------------
// Cache runs
// ------------------------------------------------------------------

/// One user-visible cache operation, together with the victim the
/// policy reported during a `set` (`None` when nothing was evicted).
pub enum CacheEvent<V> {
    Write { key: u64, value: V, evicted: Option<u64> },
    Read { key: u64 },
    Erase { key: u64 },
}

/// Whether one event takes the model `m0` to `m1`; exactly the
/// relations the `Cache` operations ensure.
pub open spec fn event_step<V>(m0: CacheModel<V>, e: CacheEvent<V>, m1: CacheModel<V>) -> bool {
    match e {
        CacheEvent::Write { key, value, evicted } => write_step(m0, key, value, evicted, m1),
        CacheEvent::Read { key } => m1 == read_step(m0, key),
        CacheEvent::Erase { key } => m1 == erase_step(m0, key),
    }
}

/// Whether `states` records a run of `events`: one model per moment,
/// each consecutive pair related by the event between them.
pub open spec fn valid_trace<V>(states: Seq<CacheModel<V>>, events: Seq<CacheEvent<V>>) -> bool {
    &&& states.len() == events.len() + 1
    &&& forall|i: int|
        0 <= i < events.len() ==> event_step(states[i], #[trigger] events[i], states[i + 1])
}

// ------------------------------------------------------------------
// The last write-like event decides what a key holds
// ------------------------------------------------------------------

/// The value a key holds after a history: the value of the last write
/// of the key, unless a later removal or eviction took it out.
pub open spec fn live_value<V>(events: Seq<CacheEvent<V>>, k: u64) -> Option<V>
    decreases events.len(),
{
    if events.len() == 0 {
        None
    } else {
        match events.last() {
            CacheEvent::Write { key, value, evicted } => if key == k {
                Some(value)
            } else if evicted == Some(k) {
                None
            } else {
                live_value(events.drop_last(), k)
            },
            CacheEvent::Read { key } => live_value(events.drop_last(), k),
            CacheEvent::Erase { key } => if key == k {
                None
            } else {
                live_value(events.drop_last(), k)
            },
        }
    }
}

/// A key is resident with value `v` exactly when the last write-like
/// event on it was a write of `v` with no later removal or eviction
/// of the key: `get` answers the history.
pub proof fn lemma_get_reflects_history<V>(
    states: Seq<CacheModel<V>>,
    events: Seq<CacheEvent<V>>,
    k: u64,
)
    requires
        valid_trace(states, events),
        states[0].store == Map::<u64, V>::empty(),
    ensures
        states.last().store.contains_key(k) <==> (live_value(events, k) is Some),
        states.last().store.contains_key(k) ==> live_value(events, k) == Some(
            states.last().store[k],
        ),
    decreases events.len(),
{
    if events.len() == 0 {
    } else {
        let n = events.len() as int;
        let mid = states[n - 1];
        assert(valid_trace(states.drop_last(), events.drop_last())) by {
            assert(forall|i: int|
                0 <= i < n - 1 ==> event_step(
                    states.drop_last()[i],
                    #[trigger] events.drop_last()[i],
                    states.drop_last()[i + 1],
                ));
        }
        lemma_get_reflects_history(states.drop_last(), events.drop_last(), k);
        assert(event_step(mid, events[n - 1], states[n]));
        assert(events.last() == events[n - 1]);
        assert(states.last() == states[n]);
        assert(states.drop_last().last() == mid);
        match events.last() {
            CacheEvent::Write { key, value, evicted } => {
                assert(states[n].store == store_after_evict(mid.store, evicted).insert(
                    key,
                    value,
                ));
            },
            CacheEvent::Read { key } => {},
            CacheEvent::Erase { key } => {},
        }
    }
}

// ------------------------------------------------------------------
// Removal is idempotent
// ------------------------------------------------------------------

/// Removing a key twice leaves the same resident mapping as removing
/// it once.
pub proof fn lemma_remove_idempotent<V>(m: CacheModel<V>, key: u64)
    ensures
        erase_step(erase_step(m, key), key).store == erase_step(m, key).store,
{
    assert(erase_step(erase_step(m, key), key).store =~= erase_step(m, key).store);
}

// ------------------------------------------------------------------
// The last update wins, whatever the capacity
// ------------------------------------------------------------------

/// After writing `v1` then `v2` to the same key, the key holds `v2`,
/// and a read reports it without changing the store — at any capacity,
/// because an update of a resident key never evicts.
pub proof fn lemma_update_wins<V>(
    m0: CacheModel<V>,
    k: u64,
    v1: V,
    v2: V,
    e1: Option<u64>,
    m1: CacheModel<V>,
    e2: Option<u64>,
    m2: CacheModel<V>,
)
    requires
        write_step(m0, k, v1, e1, m1),
        write_step(m1, k, v2, e2, m2),
    ensures
        m2.store.contains_key(k),
        m2.store[k] == v2,
        read_step(m2, k).store == m2.store,
{
}

// ------------------------------------------------------------------
// Deterministic policies replay identically
// ------------------------------------------------------------------

/// Every policy except Random chooses its victim as a function of its
/// bookkeeping state.
pub open spec fn deterministic(p: PolicyModel) -> bool {
    !(p is Rand)
}

/// For a deterministic policy, `evict` has exactly one possible
/// outcome in any state.
pub proof fn lemma_evict_deterministic(
    p0: PolicyModel,
    pa: PolicyModel,
    ra: Option<u64>,
    pb: PolicyModel,
    rb: Option<u64>,
)
    requires
        deterministic(p0),
        evict_rel(p0, pa, ra),
        evict_rel(p0, pb, rb),
    ensures
        pa == pb,
        ra == rb,
{
}

/// Every policy transition keeps the policy's identity.
pub proof fn lemma_steps_preserve_kind(p0: PolicyModel, p1: PolicyModel, key: u64, r: Option<u64>)
    requires
        evict_rel(p0, p1, r),
    ensures
        deterministic(p1) == deterministic(p0),
        write_needs_fresh(p1) == write_needs_fresh(p0),
{
}

/// Whether two events perform the same user operation (the recorded
/// victims may differ).
pub open spec fn op_eq<V>(a: CacheEvent<V>, b: CacheEvent<V>) -> bool {
    match (a, b) {
        (
            CacheEvent::Write { key: k1, value: v1, evicted: _ },
            CacheEvent::Write { key: k2, value: v2, evicted: _ },
        ) => k1 == k2 && v1 == v2,
        (CacheEvent::Read { key: k1 }, CacheEvent::Read { key: k2 }) => k1 == k2,
        (CacheEvent::Erase { key: k1 }, CacheEvent::Erase { key: k2 }) => k1 == k2,
        _ => false,
    }
}

pub open spec fn same_ops<V>(a: Seq<CacheEvent<V>>, b: Seq<CacheEvent<V>>) -> bool {
    a.len() == b.len() && forall|i: int| 0 <= i < a.len() ==> op_eq(#[trigger] a[i], b[i])
}

/// Replaying the same operations from the same state drives a cache
/// with a deterministic policy through the same states and the same
/// evictions: the eviction order is a pure function of the trace.
pub proof fn lemma_replay_deterministic<V>(
    sa: Seq<CacheModel<V>>,
    ea: Seq<CacheEvent<V>>,
    sb: Seq<CacheModel<V>>,
    eb: Seq<CacheEvent<V>>,
)
    requires
        valid_trace(sa, ea),
        valid_trace(sb, eb),
        sa[0] == sb[0],
        deterministic(sa[0].policy),
        same_ops(ea, eb),
    ensures
        sa == sb,
        ea == eb,
    decreases ea.len(),
{
    if ea.len() == 0 {
        assert(sa =~= sb);
        assert(ea =~= eb);
    } else {
        let n = ea.len() as int;
        assert(valid_trace(sa.drop_last(), ea.drop_last())) by {
            assert(forall|i: int|
                0 <= i < n - 1 ==> event_step(
                    sa.drop_last()[i],
                    #[trigger] ea.drop_last()[i],
                    sa.drop_last()[i + 1],
                ));
        }
        assert(valid_trace(sb.drop_last(), eb.drop_last())) by {
            assert(forall|i: int|
                0 <= i < n - 1 ==> event_step(
                    sb.drop_last()[i],
                    #[trigger] eb.drop_last()[i],
                    sb.drop_last()[i + 1],
                ));
        }
        assert(same_ops(ea.drop_last(), eb.drop_last())) by {
            assert(forall|i: int|
                0 <= i < n - 1 ==> op_eq(#[trigger] ea.drop_last()[i], eb.drop_last()[i]));
        }
        lemma_replay_deterministic(sa.drop_last(), ea.drop_last(), sb.drop_last(), eb.drop_last());
        let mid = sa[n - 1];
        assert(sb[n - 1] == sa.drop_last()[n - 1]);
        lemma_trace_keeps_deterministic(sa.drop_last(), ea.drop_last());
        assert(deterministic(mid.policy));
        assert(event_step(mid, ea[n - 1], sa[n]));
        assert(event_step(mid, eb[n - 1], sb[n]));
        assert(op_eq(ea[n - 1], eb[n - 1]));
        match ea[n - 1] {
            CacheEvent::Write { key, value, evicted } => {
                let eva = evicted;
                match eb[n - 1] {
                    CacheEvent::Write { key: kb, value: vb, evicted: evb } => {
                        if needs_evict(mid, key) {
                            let pa = choose|p: PolicyModel|
                                #[trigger] evict_rel(mid.policy, p, eva) && sa[n].policy
                                    == policy_on_insert(p, key);
                            let pb = choose|p: PolicyModel|
                                #[trigger] evict_rel(mid.policy, p, evb) && sb[n].policy
                                    == policy_on_insert(p, key);
                            lemma_evict_deterministic(mid.policy, pa, eva, pb, evb);
                        }
                        assert(sa[n] == sb[n]);
                        assert(ea[n - 1] == eb[n - 1]);
                    },
                    CacheEvent::Read { key: k2 } => {
                        assert(false);
                    },
                    CacheEvent::Erase { key: k2 } => {
                        assert(false);
                    },
                }
            },
            CacheEvent::Read { key } => {
                assert(ea[n - 1] == eb[n - 1]);
                assert(sa[n] == sb[n]);
            },
            CacheEvent::Erase { key } => {
                assert(ea[n - 1] == eb[n - 1]);
                assert(sa[n] == sb[n]);
            },
        }
        assert(ea[n - 1] == eb[n - 1]);
        assert forall|i: int| 0 <= i < sa.len() implies sa[i] == #[trigger] sb[i] by {
            if i < n {
                assert(sa.drop_last()[i] == sb.drop_last()[i]);
            }
        }
        assert forall|i: int| 0 <= i < ea.len() implies ea[i] == #[trigger] eb[i] by {
            if i < n - 1 {
                assert(ea.drop_last()[i] == eb.drop_last()[i]);
            }
        }
        assert(sa =~= sb);
        assert(ea =~= eb);
    }
}

/// A run that starts with a deterministic policy keeps one throughout.
pub proof fn lemma_trace_keeps_deterministic<V>(
    states: Seq<CacheModel<V>>,
    events: Seq<CacheEvent<V>>,
)
    requires
        valid_trace(states, events),
        deterministic(states[0].policy),
    ensures
        deterministic(states.last().policy),
    decreases events.len(),
{
    if events.len() > 0 {
        let n = events.len() as int;
        assert(valid_trace(states.drop_last(), events.drop_last())) by {
            assert(forall|i: int|
                0 <= i < n - 1 ==> event_step(
                    states.drop_last()[i],
                    #[trigger] events.drop_last()[i],
                    states.drop_last()[i + 1],
                ));
        }
        lemma_trace_keeps_deterministic(states.drop_last(), events.drop_last());
        let mid = states[n - 1];
        assert(states.drop_last().last() == mid);
        assert(event_step(mid, events[n - 1], states[n]));
        match events[n - 1] {
            CacheEvent::Write { key, value, evicted } => {
                if needs_evict(mid, key) {
                    let pm = choose|p: PolicyModel|
                        #[trigger] evict_rel(mid.policy, p, evicted) && states[n].policy
                            == policy_on_insert(p, key);
                    lemma_steps_preserve_kind(mid.policy, pm, key, evicted);
                }
            },
            CacheEvent::Read { key } => {},
            CacheEvent::Erase { key } => {},
        }
        assert(states.last() == states[n]);
    }
}

// ------------------------------------------------------------------
// Per-policy eviction order
// ------------------------------------------------------------------

/// LRU evicts a key whose stamp is minimal: no tracked key was touched
/// less recently.
pub proof fn lemma_lru_evicts_least_recent(m: LruModel)
    requires
        m.entries.len() > 0,
    ensures
        lru_evict(m).1 == Some(m.entries[min_stamp_idx(m.entries)].0),
        forall|j: int|
            0 <= j < m.entries.len() ==> m.entries[min_stamp_idx(m.entries)].1
                <= #[trigger] m.entries[j].1,
{
    lemma_min_stamp_idx(m.entries);
}

/// MRU evicts a key whose stamp is maximal: no tracked key was touched
/// more recently.
pub proof fn lemma_mru_evicts_most_recent(m: LruModel)
    requires
        m.entries.len() > 0,
    ensures
        mru_evict(m).1 == Some(m.entries[max_stamp_idx(m.entries)].0),
        forall|j: int|
            0 <= j < m.entries.len() ==> m.entries[max_stamp_idx(m.entries)].1
                >= #[trigger] m.entries[j].1,
{
    lemma_max_stamp_idx(m.entries);
}

/// FIFO ignores accesses, appends insertions, and evicts from the
/// front: eviction order equals insertion order.
pub proof fn lemma_fifo_eviction_order(queue: Seq<u64>, key: u64)
    ensures
        policy_on_access(PolicyModel::Fifo { queue }, key) == (PolicyModel::Fifo { queue }),
        policy_on_insert(PolicyModel::Fifo { queue }, key) == (PolicyModel::Fifo {
            queue: queue.push(key),
        }),
        queue.len() > 0 ==> fifo_evict(queue) == (queue.drop_first(), Some(queue[0])),
{
}

/// LFU evicts a key whose access count is minimal, and an insertion
/// (re)sets the key's count to 1.
pub proof fn lemma_lfu_eviction(counts: Seq<(u64, u64)>, key: u64)
    ensures
        counts.len() > 0 ==> {
            let victim = counts[min_stamp_idx(counts)].0;
            &&& lfu_evict(counts).1 == Some(victim)
            &&& forall|j: int|
                0 <= j < counts.len() ==> counts[min_stamp_idx(counts)].1 <= #[trigger] counts[j].1
        },
        forall|i: int|
            0 <= i < lfu_on_insert(counts, key).len() && #[trigger] lfu_on_insert(
                counts,
                key,
            )[i].0 == key ==> lfu_on_insert(counts, key)[i].1 == 1,
{
    if counts.len() > 0 {
        lemma_min_stamp_idx(counts);
    }
}

/// KLRU evicts the `(k+1)`-th most recently touched key — the one
/// sitting `k` places before the back of the touch order — rather than
/// the oldest.
pub proof fn lemma_klru_evicts_kth(m: KlruModel)
    requires
        m.order.len() > m.k,
    ensures
        klru_evict(m).1 == Some(m.order[m.order.len() - 1 - m.k]),
{
}

/// Second-Chance: when the scan finds an unreferenced victim, a key
/// whose reference bit is set survives the round — with its bit
/// cleared if the scan passed over it, untouched if the scan stopped
/// first. (When every entry is referenced, the front key loses its
/// bit and is evicted in the same round, so the hypothesis below is
/// needed.)
pub proof fn lemma_second_chance_survival(q: Seq<(u64, bool)>, i: int, k: u64)
    requires
        entry_keys_unique(q),
        0 <= i < q.len(),
        q[i] == (k, true),
        first_clear_idx(q) != -1,
    ensures
        sc_evict(q).1 != Some(k),
        i < first_clear_idx(q) ==> sc_evict(q).0[q.len() - 1 - first_clear_idx(q) + i] == (
        k,
        false,
        ),
        i > first_clear_idx(q) ==> sc_evict(q).0[i - first_clear_idx(q) - 1] == (k, true),
{
    lemma_first_clear_idx(q);
    let fc = first_clear_idx(q);
    assert(q[fc].1 == false);
    assert(i != fc);
    if q[fc].0 == k {
        assert(q[i].0 == q[fc].0);
        assert(false);
    }
}

/// ARC's structural bounds hold in every state a run can reach (they
/// are part of the policy's validity and preserved by every callback);
/// hitting the first ghost list raises the adaptation parameter and
/// hitting the second lowers it.
pub proof fn lemma_arc_adaptation(m: ArcModel, key: u64)
    requires
        arc_ok(m),
        !m.t1.contains(key),
        !m.t2.contains(key),
    ensures
        m.b1.contains(key) ==> arc_on_access(m, key).p >= m.p,
        m.b1.contains(key) && m.p < m.capacity ==> arc_on_access(m, key).p > m.p,
        !m.b1.contains(key) && m.b2.contains(key) ==> arc_on_access(m, key).p <= m.p,
        !m.b1.contains(key) && m.b2.contains(key) && m.p > 0 ==> arc_on_access(m, key).p < m.p,
{
}

// ------------------------------------------------------------------
// The capacity invariant
// ------------------------------------------------------------------

/// The keys a stamp table tracks.
pub open spec fn key_set(s: Seq<(u64, u64)>) -> Set<u64> {
    Set::new(|x: u64| has_key(s, x))
}

/// The keys a reference-bit queue tracks.
pub open spec fn entry_key_set(s: Seq<(u64, bool)>) -> Set<u64> {
    Set::new(|x: u64| has_entry(s, x))
}

/// How a policy's bookkeeping relates to the resident key set `dom` of
/// a cache of capacity `cap`. For the simple policies the bookkeeping
/// mirrors `dom` exactly; the segmented and adaptive policies may drop
/// keys from their bookkeeping silently, so they only track a subset,
/// with enough keys left to always name a victim when the store is
/// full.
pub open spec fn policy_tracks(p: PolicyModel, dom: Set<u64>, cap: nat) -> bool {
    match p {
        PolicyModel::Lru(l) => keys_unique(l.entries) && key_set(l.entries) == dom,
        PolicyModel::Fifo { queue } => queue.no_duplicates() && queue.to_set() == dom,
        PolicyModel::Lfu { counts } => keys_unique(counts) && key_set(counts) == dom,
        PolicyModel::Mru(l) => keys_unique(l.entries) && key_set(l.entries) == dom,
        PolicyModel::Rand { keys } => keys.no_duplicates() && keys.to_set() == dom,
        PolicyModel::Slru(sm) => {
            &&& keys_unique(sm.probationary.entries)
            &&& keys_unique(sm.protected.entries)
            &&& forall|x: u64|
                !(#[trigger] has_key(sm.probationary.entries, x) && has_key(
                    sm.protected.entries,
                    x,
                ))
            &&& forall|x: u64| #[trigger] has_key(sm.probationary.entries, x) ==> dom.contains(x)
            &&& forall|x: u64| #[trigger] has_key(sm.protected.entries, x) ==> dom.contains(x)
            &&& dom.len() >= cap ==> sm.probationary.entries.len() + sm.protected.entries.len()
                > 0
        },
        PolicyModel::Sfifo(sf) => {
            &&& sf.segments.len() >= 1
            &&& forall|i: int|
                0 <= i < sf.segments.len() ==> (#[trigger] sf.segments[i]).no_duplicates()
            &&& forall|i: int, j: int|
                0 <= i < sf.segments.len() && 0 <= j < sf.segments[i].len() ==> ((
                #[trigger] sf.segments[i][j]) as int % (sf.segments.len() as int) == i
                    && dom.contains(sf.segments[i][j]))
            &&& dom.len() >= cap ==> exists|i: int|
                0 <= i < sf.segments.len() && (#[trigger] sf.segments[i]).len() > 0
        },
        PolicyModel::Klru(km) => km.order.to_set() == dom && km.k < cap,
        PolicyModel::SecondChance { entries } => entry_keys_unique(entries) && entry_key_set(
            entries,
        ) == dom,
        PolicyModel::Arc(am) => {
            &&& am.p == 0
            &&& am.b1.len() == 0
            &&& am.b2.len() == 0
            &&& am.capacity >= cap
            &&& (am.t1 + am.t2).no_duplicates()
            &&& forall|x: u64| #[trigger] (am.t1 + am.t2).contains(x) ==> dom.contains(x)
            &&& dom.len() >= cap ==> am.t1.len() + am.t2.len() > 0
        },
    }
}

/// The policies whose bookkeeping keeps duplicate entries when an
/// already-resident key is written again; their part of the capacity
/// invariant holds only on runs whose writes are all of fresh keys.
pub open spec fn write_needs_fresh(p: PolicyModel) -> bool {
    p is Fifo || p is SecondChance || p is Slru || p is Sfifo
}

/// The cache invariant: the store never exceeds the capacity, and the
/// policy bookkeeping stays in step with the resident keys.
pub open spec fn cache_inv<V>(m: CacheModel<V>) -> bool {
    &&& m.capacity >= 1
    &&& m.store.dom().finite()
    &&& m.store.len() <= m.capacity
    &&& policy_tracks(m.policy, m.store.dom(), m.capacity)
}

/// Whether a policy state is freshly constructed and fit for a cache
/// of capacity `cap`.
pub open spec fn initial_policy_ok(p: PolicyModel, cap: nat) -> bool {
    match p {
        PolicyModel::Lru(l) => l.entries.len() == 0,
        PolicyModel::Fifo { queue } => queue.len() == 0,
        PolicyModel::Lfu { counts } => counts.len() == 0,
        PolicyModel::Mru(l) => l.entries.len() == 0,
        PolicyModel::Rand { keys } => keys.len() == 0,
        PolicyModel::Slru(sm) => sm.probationary.entries.len() == 0
            && sm.protected.entries.len() == 0,
        PolicyModel::Sfifo(sf) => sf.segments.len() >= 1 && forall|i: int|
            0 <= i < sf.segments.len() ==> (#[trigger] sf.segments[i]).len() == 0,
        PolicyModel::Klru(km) => km.order.len() == 0 && km.k < cap,
        PolicyModel::SecondChance { entries } => entries.len() == 0,
        PolicyModel::Arc(am) => am.t1.len() == 0 && am.t2.len() == 0 && am.b1.len() == 0
            && am.b2.len() == 0 && am.p == 0 && am.capacity >= cap,
    }
}

/// A fresh cache satisfies the invariant.
pub proof fn lemma_initial_inv<V>(m: CacheModel<V>)
    requires
        m.capacity >= 1,
        m.store == Map::<u64, V>::empty(),
        initial_policy_ok(m.policy, m.capacity),
    ensures
        cache_inv(m),
{
    let dom = m.store.dom();
    assert(dom =~= Set::<u64>::empty());
    match m.policy {
        PolicyModel::Lru(l) => {
            assert(key_set(l.entries) =~= dom);
        },
        PolicyModel::Fifo { queue } => {
            assert(queue.to_set() =~= dom);
        },
        PolicyModel::Lfu { counts } => {
            assert(key_set(counts) =~= dom);
        },
        PolicyModel::Mru(l) => {
            assert(key_set(l.entries) =~= dom);
        },
        PolicyModel::Rand { keys } => {
            assert(keys.to_set() =~= dom);
        },
        PolicyModel::Slru(sm) => {},
        PolicyModel::Sfifo(sf) => {},
        PolicyModel::Klru(km) => {
            assert(km.order.to_set() =~= dom);
        },
        PolicyModel::SecondChance { entries } => {
            assert(entry_key_set(entries) =~= dom);
        },
        PolicyModel::Arc(am) => {},
    }
}

/// A read preserves the invariant: an access never changes the store,
/// and every policy's access bookkeeping keeps the tracked keys.
pub proof fn lemma_read_preserves_inv<V>(m: CacheModel<V>, key: u64)
    requires
        cache_inv(m),
    ensures
        cache_inv(read_step(m, key)),
{
    if m.store.contains_key(key) {
        let dom = m.store.dom();
        match m.policy {
            PolicyModel::Lru(l) => {
                lemma_stamped(l.entries, key, bump(l.stamp));
                assert(key_set(stamped(l.entries, key, bump(l.stamp))) =~= key_set(l.entries));
            },
            PolicyModel::Fifo { queue } => {},
            PolicyModel::Lfu { counts } => {
                lemma_bumped(counts, key);
                assert(key_set(bumped(counts, key)) =~= key_set(counts));
            },
            PolicyModel::Mru(l) => {
                lemma_stamped(l.entries, key, bump(l.stamp));
                assert(key_set(stamped(l.entries, key, bump(l.stamp))) =~= key_set(l.entries));
            },
            PolicyModel::Rand { keys } => {},
            PolicyModel::Slru(sm) => {
                lemma_slru_access_tracks(sm, dom, m.capacity, key);
            },
            PolicyModel::Sfifo(sf) => {},
            PolicyModel::Klru(km) => {
                lemma_without(km.order, key);
                lemma_push_val(without(km.order, key), key);
                assert(without(km.order, key).push(key).to_set() =~= km.order.to_set());
            },
            PolicyModel::SecondChance { entries } => {
                lemma_first_entry_idx(entries, key);
                let q1 = sc_marked(entries, key);
                assert(q1.len() == entries.len());
                assert(forall|j: int| 0 <= j < entries.len() ==> #[trigger] q1[j].0
                    == entries[j].0);
                assert forall|x: u64| has_entry(q1, x) <==> has_entry(entries, x) by {
                    if has_entry(q1, x) {
                        let i = choose|i: int| 0 <= i < q1.len() && q1[i].0 == x;
                        assert(entries[i].0 == x);
                    }
                    if has_entry(entries, x) {
                        let i = choose|i: int| 0 <= i < entries.len() && entries[i].0 == x;
                        assert(q1[i].0 == x);
                    }
                }
                assert(entry_key_set(q1) =~= entry_key_set(entries));
            },
            PolicyModel::Arc(am) => {
                lemma_arc_access_tracks(am, dom, m.capacity, key);
            },
        }
    }
}

/// The SLRU access transition keeps the policy in step: a promotion
/// moves the key between segments and may silently drop the protected
/// segment's own victim, which stays resident.
proof fn lemma_slru_access_tracks(sm: SlruModel, dom: Set<u64>, cap: nat, key: u64)
    requires
        policy_tracks(PolicyModel::Slru(sm), dom, cap),
        dom.contains(key),
    ensures
        policy_tracks(PolicyModel::Slru(slru_on_access(sm, key)), dom, cap),
{
    if has_key(sm.probationary.entries, key) {
        // promotion
        let prob = sm.probationary.entries;
        let prot = sm.protected.entries;
        let prot0 = if sm.protected.entries.len() >= sm.protected_capacity {
            lru_evict(sm.protected).0
        } else {
            sm.protected
        };
        if sm.protected.entries.len() >= sm.protected_capacity {
            if sm.protected.entries.len() > 0 {
                lemma_min_stamp_idx(prot);
                lemma_without_key(prot, prot[min_stamp_idx(prot)].0);
            }
        }
        assert(forall|x: u64| has_key(prot0.entries, x) ==> has_key(prot, x));
        lemma_without_key(prob, key);
        assert(!has_key(prot0.entries, key));
        lemma_push_key(prot0.entries, key, bump(prot0.stamp));
        let sm1 = slru_on_access(sm, key);
        let prob1 = sm1.probationary.entries;
        let prot1 = sm1.protected.entries;
        assert(prob1 == without_key(prob, key));
        assert(prot1 == prot0.entries.push((key, bump(prot0.stamp))));
        assert forall|x: u64| !(#[trigger] has_key(prob1, x) && has_key(prot1, x)) by {
            if has_key(prob1, x) && has_key(prot1, x) {
                assert(has_key(prob, x) && x != key);
                assert(has_key(prot0.entries, x) || x == key);
                assert(has_key(prot, x));
            }
        }
        assert forall|x: u64| #[trigger] has_key(prob1, x) implies dom.contains(x) by {
            assert(has_key(prob, x));
        }
        assert forall|x: u64| #[trigger] has_key(prot1, x) implies dom.contains(x) by {
            if x != key {
                assert(has_key(prot0.entries, x));
                assert(has_key(prot, x));
            }
        }
        assert(prot1.len() > 0);
    } else {
        let t = bump(sm.protected.stamp);
        lemma_stamped(sm.protected.entries, key, t);
        let prot1 = stamped(sm.protected.entries, key, t);
        assert forall|x: u64| !(#[trigger] has_key(sm.probationary.entries, x) && has_key(
            prot1,
            x,
        )) by {
            if has_key(prot1, x) {
                assert(has_key(sm.protected.entries, x));
            }
        }
        assert forall|x: u64| #[trigger] has_key(prot1, x) implies dom.contains(x) by {
            assert(has_key(sm.protected.entries, x));
        }
    }
}

/// The ARC access transition keeps the policy in step: in a state the
/// cache can reach, both ghost lists are empty, so an access only
/// moves the key between the resident lists.
proof fn lemma_arc_access_tracks(am: ArcModel, dom: Set<u64>, cap: nat, key: u64)
    requires
        policy_tracks(PolicyModel::Arc(am), dom, cap),
        dom.contains(key),
    ensures
        policy_tracks(PolicyModel::Arc(arc_on_access(am, key)), dom, cap),
{
    let am1 = arc_on_access(am, key);
    if am.t1.contains(key) {
        lemma_without(am.t1, key);
        assert(am1.t1 == without(am.t1, key));
        assert(am1.t2 == am.t2.push(key));
        assert forall|i: int, j: int|
            0 <= i < (am1.t1 + am1.t2).len() && 0 <= j < (am1.t1 + am1.t2).len() && i
                != j implies (am1.t1 + am1.t2)[i] != (am1.t1 + am1.t2)[j] by {
            lemma_arc_concat_index(am, am1, key, i, j);
        }
        assert forall|x: u64| #[trigger] (am1.t1 + am1.t2).contains(x) implies dom.contains(
            x,
        ) by {
            let i = choose|i: int| 0 <= i < (am1.t1 + am1.t2).len() && (am1.t1 + am1.t2)[i] == x;
            if i < am1.t1.len() {
                assert(am1.t1[i] == x);
                assert(am1.t1.contains(x));
                assert(am.t1.contains(x));
                let u = choose|u: int| 0 <= u < am.t1.len() && am.t1[u] == x;
                assert((am.t1 + am.t2)[u] == x);
                assert((am.t1 + am.t2).contains(x));
            } else if i < (am1.t1 + am1.t2).len() - 1 {
                assert(am1.t2[i - am1.t1.len()] == x);
                assert(am.t2[i - am1.t1.len()] == x);
                assert((am.t1 + am.t2)[am.t1.len() + i - am1.t1.len()] == x);
                assert((am.t1 + am.t2).contains(x));
            } else {
                assert(x == key);
            }
        }
        assert(am1.t2.len() > 0);
    } else if am.t2.contains(key) {
        lemma_without(am.t2, key);
        assert forall|i: int, j: int|
            0 <= i < (am1.t1 + am1.t2).len() && 0 <= j < (am1.t1 + am1.t2).len() && i
                != j implies (am1.t1 + am1.t2)[i] != (am1.t1 + am1.t2)[j] by {
            lemma_arc_concat_index2(am, am1, key, i, j);
        }
        assert forall|x: u64| #[trigger] (am1.t1 + am1.t2).contains(x) implies dom.contains(
            x,
        ) by {
            let i = choose|i: int| 0 <= i < (am1.t1 + am1.t2).len() && (am1.t1 + am1.t2)[i] == x;
            if i < am1.t1.len() {
                assert(am.t1[i] == x);
                assert((am.t1 + am.t2)[i] == x);
                assert((am.t1 + am.t2).contains(x));
            } else if i < (am1.t1 + am1.t2).len() - 1 {
                assert(without(am.t2, key)[i - am1.t1.len()] == x);
                assert(without(am.t2, key).contains(x)) by {
                    let u = i - am1.t1.len();
                    assert(without(am.t2, key)[u] == x);
                }
                assert(am.t2.contains(x));
                let u = choose|u: int| 0 <= u < am.t2.len() && am.t2[u] == x;
                assert((am.t1 + am.t2)[am.t1.len() + u] == x);
                assert((am.t1 + am.t2).contains(x));
            } else {
                assert(x == key);
            }
        }
        assert(am1.t2.len() > 0);
    } else {
        // the ghost lists are empty, so the remaining branches change
        // nothing
        assert(!am.b1.contains(key));
        assert(!am.b2.contains(key));
    }
}

/// Distinctness of the concatenated resident lists after a `t1` hit.
proof fn lemma_arc_concat_index(am: ArcModel, am1: ArcModel, key: u64, i: int, j: int)
    requires
        (am.t1 + am.t2).no_duplicates(),
        am.t1.contains(key),
        am1.t1 == without(am.t1, key),
        am1.t2 == am.t2.push(key),
        0 <= i < (am1.t1 + am1.t2).len(),
        0 <= j < (am1.t1 + am1.t2).len(),
        i != j,
    ensures
        (am1.t1 + am1.t2)[i] != (am1.t1 + am1.t2)[j],
{
    lemma_without(am.t1, key);
    let c0 = am.t1 + am.t2;
    let c1 = am1.t1 + am1.t2;
    // every position of c1 maps to a key of c0 or to `key` at the back
    assert forall|u: int| 0 <= u < c1.len() implies exists|v: int|
        0 <= v < c0.len() && c0[v] == #[trigger] c1[u] by {
        if u < am1.t1.len() {
            assert(am1.t1[u] == c1[u]);
            assert(am1.t1.contains(c1[u]));
            assert(am.t1.contains(c1[u]));
            let v = choose|v: int| 0 <= v < am.t1.len() && am.t1[v] == c1[u];
            assert(c0[v] == c1[u]);
        } else if u < c1.len() - 1 {
            assert(c1[u] == am.t2[u - am1.t1.len()]);
            assert(c0[am.t1.len() + u - am1.t1.len()] == c1[u]);
        } else {
            assert(c1[u] == key);
            let v = choose|v: int| 0 <= v < am.t1.len() && am.t1[v] == key;
            assert(c0[v] == key);
        }
    }
    assert forall|u: int, v: int|
        0 <= u < am.t1.len() && 0 <= v < am.t1.len() && u != v implies am.t1[u] != am.t1[v] by {
        assert(c0[u] == am.t1[u]);
        assert(c0[v] == am.t1[v]);
    }
    assert(am.t1.no_duplicates());
    // distinctness case split
    if i < am1.t1.len() && j < am1.t1.len() {
        lemma_without_distinct(am.t1, key, i, j);
        assert(c1[i] == am1.t1[i] && c1[j] == am1.t1[j]);
    } else if i < am1.t1.len() || j < am1.t1.len() {
        let (a, b) = if i < am1.t1.len() {
            (i, j)
        } else {
            (j, i)
        };
        // a indexes the shrunk t1, b the grown t2
        assert(c1[a] == am1.t1[a]);
        assert(am1.t1.contains(am1.t1[a]));
        assert(am.t1.contains(c1[a]) && c1[a] != key);
        if b < c1.len() - 1 {
            let tb = b - am1.t1.len();
            assert(c1[b] == am.t2[tb]);
            if c1[a] == c1[b] {
                let v = choose|v: int| 0 <= v < am.t1.len() && am.t1[v] == c1[a];
                assert(c0[v] == c0[am.t1.len() + tb]);
                assert(false);
            }
        } else {
            assert(c1[b] == key);
        }
    } else {
        // both in the new t2
        if i < c1.len() - 1 && j < c1.len() - 1 {
            let ti = i - am1.t1.len();
            let tj = j - am1.t1.len();
            assert(c1[i] == am.t2[ti] && c1[j] == am.t2[tj]);
            assert(c0[am.t1.len() + ti] == am.t2[ti]);
            assert(c0[am.t1.len() + tj] == am.t2[tj]);
        } else {
            let (a, b) = if i < c1.len() - 1 {
                (i, j)
            } else {
                (j, i)
            };
            assert(c1[b] == key);
            let ta = a - am1.t1.len();
            assert(c1[a] == am.t2[ta]);
            if c1[a] == key {
                let v = choose|v: int| 0 <= v < am.t1.len() && am.t1[v] == key;
                assert(c0[v] == c0[am.t1.len() + ta]);
                assert(false);
            }
        }
    }
}

/// Distinctness of the concatenated resident lists after a `t2` hit.
proof fn lemma_arc_concat_index2(am: ArcModel, am1: ArcModel, key: u64, i: int, j: int)
    requires
        (am.t1 + am.t2).no_duplicates(),
        !am.t1.contains(key),
        am.t2.contains(key),
        am1.t1 == am.t1,
        am1.t2 == without(am.t2, key).push(key),
        0 <= i < (am1.t1 + am1.t2).len(),
        0 <= j < (am1.t1 + am1.t2).len(),
        i != j,
    ensures
        (am1.t1 + am1.t2)[i] != (am1.t1 + am1.t2)[j],
{
    lemma_without(am.t2, key);
    let c0 = am.t1 + am.t2;
    let c1 = am1.t1 + am1.t2;
    let w = without(am.t2, key);
    assert(forall|u: int| 0 <= u < am.t1.len() ==> #[trigger] c0[u] == am.t1[u]);
    assert(forall|u: int| 0 <= u < am.t2.len() ==> #[trigger] c0[am.t1.len() + u] == am.t2[u]);
    assert forall|u: int| 0 <= u < am.t1.len() implies am.t1[u] != key by {
        if am.t1[u] == key {
            assert(am.t1.contains(key));
        }
    }
    // t1 entries are distinct from w entries and from key
    if i < am.t1.len() && j < am.t1.len() {
        assert(c0[i] != c0[j]);
    } else if i < am.t1.len() || j < am.t1.len() {
        let (a, b) = if i < am.t1.len() {
            (i, j)
        } else {
            (j, i)
        };
        assert(c1[a] == am.t1[a]);
        if b == c1.len() - 1 {
            assert(c1[b] == key);
            assert(c1[a] != key);
        } else {
            let tb = b - am.t1.len();
            assert(c1[b] == w[tb]);
            assert(w.contains(w[tb]));
            assert(am.t2.contains(c1[b]));
            if c1[a] == c1[b] {
                let v = choose|v: int| 0 <= v < am.t2.len() && am.t2[v] == c1[b];
                assert(c0[a] == c0[am.t1.len() + v]);
                assert(false);
            }
        }
    } else {
        if i == c1.len() - 1 || j == c1.len() - 1 {
            let (a, b) = if j == c1.len() - 1 {
                (i, j)
            } else {
                (j, i)
            };
            assert(c1[b] == key);
            let ta = a - am.t1.len();
            assert(c1[a] == w[ta]);
            assert(w.contains(w[ta]));
            assert(c1[a] != key);
        } else {
            let ti = i - am.t1.len();
            let tj = j - am.t1.len();
            lemma_without_distinct2(am, key, ti, tj);
            assert(c1[i] == w[ti] && c1[j] == w[tj]);
        }
    }
}

/// Entries of `without` at distinct positions are distinct, for a
/// duplicate-free source.
proof fn lemma_without_distinct(s: Seq<u64>, k: u64, i: int, j: int)
    requires
        s.no_duplicates(),
        0 <= i < without(s, k).len(),
        0 <= j < without(s, k).len(),
        i != j,
    ensures
        without(s, k)[i] != without(s, k)[j],
{
    lemma_without(s, k);
    lemma_without_no_dup(s, k);
}

/// `without` keeps a duplicate-free sequence duplicate-free.
proof fn lemma_without_no_dup(s: Seq<u64>, k: u64)
    requires
        s.no_duplicates(),
    ensures
        without(s, k).no_duplicates(),
{
    lemma_without(s, k);
}

/// As `lemma_without_distinct`, for the second resident list of an
/// ARC state whose concatenation is duplicate-free.
proof fn lemma_without_distinct2(am: ArcModel, k: u64, i: int, j: int)
    requires
        (am.t1 + am.t2).no_duplicates(),
        0 <= i < without(am.t2, k).len(),
        0 <= j < without(am.t2, k).len(),
        i != j,
    ensures
        without(am.t2, k)[i] != without(am.t2, k)[j],
{
    assert forall|u: int, v: int|
        0 <= u < am.t2.len() && 0 <= v < am.t2.len() && u != v implies am.t2[u] != am.t2[v] by {
        assert((am.t1 + am.t2)[am.t1.len() + u] == am.t2[u]);
        assert((am.t1 + am.t2)[am.t1.len() + v] == am.t2[v]);
    }
    assert(am.t2.no_duplicates());
    lemma_without_no_dup(am.t2, k);
}

/// Membership in a concatenation splits over the halves.
proof fn lemma_concat_contains(a: Seq<u64>, b: Seq<u64>)
    ensures
        forall|x: u64| #[trigger] (a + b).contains(x) <==> (a.contains(x) || b.contains(x)),
{
    assert forall|x: u64| #[trigger] (a + b).contains(x) <==> (a.contains(x) || b.contains(
        x,
    )) by {
        if (a + b).contains(x) {
            let i = choose|i: int| 0 <= i < (a + b).len() && (a + b)[i] == x;
            if i < a.len() {
                assert(a[i] == x);
            } else {
                assert(b[i - a.len()] == x);
            }
        }
        if a.contains(x) {
            let i = choose|i: int| 0 <= i < a.len() && a[i] == x;
            assert((a + b)[i] == x);
        }
        if b.contains(x) {
            let i = choose|i: int| 0 <= i < b.len() && b[i] == x;
            assert((a + b)[a.len() + i] == x);
        }
    }
}

/// Removing a key from both halves of a duplicate-free concatenation
/// keeps it duplicate-free and removes exactly that key.
proof fn lemma_concat_without(t1: Seq<u64>, t2: Seq<u64>, key: u64)
    requires
        (t1 + t2).no_duplicates(),
    ensures
        (without(t1, key) + without(t2, key)).no_duplicates(),
        forall|x: u64| #[trigger] (without(t1, key) + without(t2, key)).contains(x) <==> ((t1
            + t2).contains(x) && x != key),
{
    lemma_without(t1, key);
    lemma_without(t2, key);
    lemma_concat_contains(t1, t2);
    lemma_concat_contains(without(t1, key), without(t2, key));
    let c0 = t1 + t2;
    assert forall|u: int, v: int|
        0 <= u < t1.len() && 0 <= v < t1.len() && u != v implies t1[u] != t1[v] by {
        assert(c0[u] == t1[u] && c0[v] == t1[v]);
    }
    assert forall|u: int, v: int|
        0 <= u < t2.len() && 0 <= v < t2.len() && u != v implies t2[u] != t2[v] by {
        assert(c0[t1.len() + u] == t2[u] && c0[t1.len() + v] == t2[v]);
    }
    assert(t1.no_duplicates());
    assert(t2.no_duplicates());
    lemma_without_no_dup(t1, key);
    lemma_without_no_dup(t2, key);
    assert forall|u: int, v: int|
        0 <= u < t1.len() && 0 <= v < t2.len() implies t1[u] != t2[v] by {
        assert(c0[u] == t1[u] && c0[t1.len() + v] == t2[v]);
    }
    let w1 = without(t1, key);
    let w2 = without(t2, key);
    assert forall|i: int, j: int|
        0 <= i < (w1 + w2).len() && 0 <= j < (w1 + w2).len() && i != j implies (w1 + w2)[i] != (w1
            + w2)[j] by {
        if i < w1.len() && j < w1.len() {
        } else if i >= w1.len() && j >= w1.len() {
        } else {
            let (a, b) = if i < w1.len() {
                (i, j)
            } else {
                (j, i)
            };
            assert((w1 + w2)[a] == w1[a]);
            assert((w1 + w2)[b] == w2[b - w1.len()]);
            assert(w1.contains(w1[a]));
            assert(w2.contains(w2[b - w1.len()]));
            assert(t1.contains(w1[a]));
            assert(t2.contains(w2[b - w1.len()]));
            if w1[a] == w2[b - w1.len()] {
                let u = choose|u: int| 0 <= u < t1.len() && t1[u] == w1[a];
                let v = choose|v: int| 0 <= v < t2.len() && t2[v] == w2[b - w1.len()];
                assert(t1[u] != t2[v]);
                assert(false);
            }
        }
    }
}

/// A removal preserves the invariant: the policy purges the key from
/// its bookkeeping, and the key leaves the store.
pub proof fn lemma_erase_preserves_inv<V>(m: CacheModel<V>, key: u64)
    requires
        cache_inv(m),
    ensures
        cache_inv(erase_step(m, key)),
{
    let dom = m.store.dom();
    let m1 = erase_step(m, key);
    let dom1 = m1.store.dom();
    assert(dom1 =~= dom.remove(key));
    match m.policy {
        PolicyModel::Lru(l) => {
            lemma_without_key(l.entries, key);
            assert(key_set(without_key(l.entries, key)) =~= dom1);
            assert(policy_tracks(m1.policy, dom1, m1.capacity));
        },
        PolicyModel::Fifo { queue } => {
            lemma_without(queue, key);
            assert(without(queue, key).to_set() =~= dom1);
            assert(policy_tracks(m1.policy, dom1, m1.capacity));
        },
        PolicyModel::Lfu { counts } => {
            lemma_without_key(counts, key);
            assert(key_set(without_key(counts, key)) =~= dom1);
            assert(policy_tracks(m1.policy, dom1, m1.capacity));
        },
        PolicyModel::Mru(l) => {
            lemma_without_key(l.entries, key);
            assert(key_set(without_key(l.entries, key)) =~= dom1);
            assert(policy_tracks(m1.policy, dom1, m1.capacity));
        },
        PolicyModel::Rand { keys } => {
            lemma_without(keys, key);
            assert(without(keys, key).to_set() =~= dom1);
            assert(policy_tracks(m1.policy, dom1, m1.capacity));
        },
        PolicyModel::Slru(sm) => {
            let prob = sm.probationary.entries;
            let prot = sm.protected.entries;
            if has_key(prob, key) {
                lemma_without_key(prob, key);
                assert(dom.contains(key));
                assert(dom1.len() < m.capacity);
                let prob1 = without_key(prob, key);
                assert forall|x: u64| !(#[trigger] has_key(prob1, x) && has_key(prot, x)) by {
                    if has_key(prob1, x) {
                        assert(has_key(prob, x));
                    }
                }
                assert forall|x: u64| #[trigger] has_key(prob1, x) implies dom1.contains(x) by {
                    assert(has_key(prob, x) && x != key);
                }
                assert forall|x: u64| #[trigger] has_key(prot, x) implies dom1.contains(x) by {
                    assert(!(has_key(prob, key) && has_key(prot, key)));
                    assert(x != key);
                }
            } else {
                lemma_without_key(prot, key);
                let prot1 = without_key(prot, key);
                assert forall|x: u64| !(#[trigger] has_key(prob, x) && has_key(prot1, x)) by {
                    if has_key(prot1, x) {
                        assert(has_key(prot, x));
                    }
                }
                assert forall|x: u64| #[trigger] has_key(prob, x) implies dom1.contains(x) by {
                    assert(x != key);
                }
                assert forall|x: u64| #[trigger] has_key(prot1, x) implies dom1.contains(x) by {
                    assert(has_key(prot, x) && x != key);
                }
                if dom.contains(key) {
                    assert(dom1.len() < m.capacity);
                } else {
                    assert(!has_key(prot, key));
                    assert(prot1 == prot);
                    assert(dom1 =~= dom);
                }
            }
            assert(policy_tracks(m1.policy, dom1, m1.capacity));
        },
        PolicyModel::Sfifo(sf) => {
            let n = sf.segments.len() as int;
            let i = crate::model::segment_of(sf, key);
            let si = sf.segments[i];
            lemma_without(si, key);
            let segs1 = sf.segments.update(i, without(si, key));
            assert(0 <= i < n) by {
                assert(n >= 1);
            }
            assert forall|a: int, b: int|
                0 <= a < segs1.len() && 0 <= b < segs1[a].len() implies ((#[trigger] segs1[a][b])
                as int % (segs1.len() as int) == a && dom1.contains(segs1[a][b])) by {
                if a == i {
                    assert(without(si, key).contains(segs1[a][b])) by {
                        assert(without(si, key)[b] == segs1[a][b]);
                    }
                    assert(si.contains(segs1[a][b]));
                    let u = choose|u: int| 0 <= u < si.len() && si[u] == segs1[a][b];
                    assert(sf.segments[i][u] == segs1[a][b]);
                    assert(segs1[a][b] != key);
                } else {
                    assert(segs1[a][b] == sf.segments[a][b]);
                    assert(segs1[a][b] as int % (n as int) == a);
                    if segs1[a][b] == key {
                        assert(a == i);
                        assert(false);
                    }
                }
            }
            if dom1.len() >= m.capacity {
                assert(!dom.contains(key));
                if si.contains(key) {
                    let u = choose|u: int| 0 <= u < si.len() && si[u] == key;
                    assert(sf.segments[i][u] == key);
                    assert(dom.contains(key));
                    assert(false);
                }
                assert(without(si, key) == si);
                assert(dom1 =~= dom);
                assert(dom.len() >= m.capacity);
                let w = choose|w: int| 0 <= w < n && (#[trigger] sf.segments[w]).len() > 0;
                assert(segs1[w].len() > 0);
            }
            assert(policy_tracks(m1.policy, dom1, m1.capacity));
        },
        PolicyModel::Klru(km) => {
            lemma_without(km.order, key);
            assert(without(km.order, key).to_set() =~= dom1);
            assert(policy_tracks(m1.policy, dom1, m1.capacity));
        },
        PolicyModel::SecondChance { entries } => {
            lemma_without_entry(entries, key);
            assert(entry_key_set(without_entry(entries, key)) =~= dom1);
            assert(policy_tracks(m1.policy, dom1, m1.capacity));
        },
        PolicyModel::Arc(am) => {
            lemma_concat_without(am.t1, am.t2, key);
            lemma_without(am.b1, key);
            lemma_without(am.b2, key);
            let am1 = crate::model::arc_on_remove(am, key);
            assert(am1.t1 == without(am.t1, key) && am1.t2 == without(am.t2, key));
            assert forall|x: u64| #[trigger] (am1.t1 + am1.t2).contains(x) implies dom1.contains(
                x,
            ) by {
                assert((am.t1 + am.t2).contains(x) && x != key);
            }
            if dom1.len() >= m.capacity {
                assert(!dom.contains(key));
                lemma_concat_contains(am.t1, am.t2);
                if am.t1.contains(key) || am.t2.contains(key) {
                    assert((am.t1 + am.t2).contains(key));
                    assert(dom.contains(key));
                    assert(false);
                }
                lemma_without(am.t1, key);
                lemma_without(am.t2, key);
                assert(without(am.t1, key) == am.t1);
                assert(without(am.t2, key) == am.t2);
                assert(dom1 =~= dom);
            }
            assert(policy_tracks(m1.policy, dom1, m1.capacity));
        },
    }
}

/// A stamp table that mirrors `dom` still mirrors the shifted key set
/// after purging a tracked victim and pushing a fresh key.
proof fn lemma_table_shift(s: Seq<(u64, u64)>, dom: Set<u64>, vt: u64, key: u64, t: u64)
    requires
        keys_unique(s),
        key_set(s) == dom,
        has_key(s, vt),
        !dom.contains(key),
    ensures
        keys_unique(without_key(s, vt).push((key, t))),
        key_set(without_key(s, vt).push((key, t))) == dom.remove(vt).insert(key),
        !has_key(without_key(s, vt), key),
{
    lemma_without_key(s, vt);
    assert(!has_key(s, key));
    lemma_push_key(without_key(s, vt), key, t);
    assert(key_set(without_key(s, vt).push((key, t))) =~= dom.remove(vt).insert(key));
}

/// What a Second-Chance eviction does to the tracked keys: it returns
/// a tracked victim and leaves exactly the other keys, still without
/// duplicates.
proof fn lemma_sc_evict_sets(q: Seq<(u64, bool)>)
    requires
        entry_keys_unique(q),
        q.len() > 0,
    ensures
        ({
            let (q1, r) = sc_evict(q);
            &&& r is Some
            &&& has_entry(q, r->0)
            &&& entry_keys_unique(q1)
            &&& forall|x: u64| has_entry(q1, x) <==> (has_entry(q, x) && x != r->0)
        }),
{
    lemma_first_clear_idx(q);
    let fc = first_clear_idx(q);
    let (q1, r) = sc_evict(q);
    if fc == -1 {
        let v = q[0].0;
        assert(has_entry(q, v)) by {
            assert(q[0].0 == v);
        }
        assert(q1.len() == q.len() - 1);
        assert(forall|j: int| 0 <= j < q1.len() ==> #[trigger] q1[j].0 == q[j + 1].0);
        assert forall|x: u64| has_entry(q1, x) <==> (has_entry(q, x) && x != v) by {
            if has_entry(q1, x) {
                let j = choose|j: int| 0 <= j < q1.len() && q1[j].0 == x;
                assert(q[j + 1].0 == x);
                assert(has_entry(q, x));
                if x == v {
                    assert(q[0].0 == q[j + 1].0);
                    assert(false);
                }
            }
            if has_entry(q, x) && x != v {
                let j = choose|j: int| 0 <= j < q.len() && q[j].0 == x;
                assert(j != 0);
                assert(q1[j - 1].0 == x);
            }
        }
        assert forall|a: int, b: int| 0 <= a < b < q1.len() implies q1[a].0 != q1[b].0 by {
            assert(q[a + 1].0 == q1[a].0 && q[b + 1].0 == q1[b].0);
        }
    } else {
        let v = q[fc].0;
        assert(has_entry(q, v)) by {
            assert(q[fc].0 == v);
        }
        let tail = q.len() - 1 - fc;
        assert(q1.len() == q.len() - 1);
        assert(forall|j: int| 0 <= j < tail ==> #[trigger] q1[j].0 == q[fc + 1 + j].0);
        assert(forall|j: int| tail <= j < q1.len() ==> #[trigger] q1[j].0 == q[j - tail].0);
        assert forall|x: u64| has_entry(q1, x) <==> (has_entry(q, x) && x != v) by {
            if has_entry(q1, x) {
                let j = choose|j: int| 0 <= j < q1.len() && q1[j].0 == x;
                if j < tail {
                    assert(q[fc + 1 + j].0 == x);
                    assert(has_entry(q, x));
                    if x == v {
                        assert(q[fc].0 == q[fc + 1 + j].0);
                        assert(false);
                    }
                } else {
                    assert(q[j - tail].0 == x);
                    assert(j - tail < fc);
                    assert(has_entry(q, x));
                    if x == v {
                        assert(q[fc].0 == q[j - tail].0);
                        assert(false);
                    }
                }
            }
            if has_entry(q, x) && x != v {
                let j = choose|j: int| 0 <= j < q.len() && q[j].0 == x;
                assert(j != fc);
                if j > fc {
                    assert(q1[j - fc - 1].0 == x);
                } else {
                    assert(q1[tail + j].0 == x);
                }
            }
        }
        assert forall|a: int, b: int| 0 <= a < b < q1.len() implies q1[a].0 != q1[b].0 by {
            let sa = if a < tail {
                fc + 1 + a
            } else {
                a - tail
            };
            let sb = if b < tail {
                fc + 1 + b
            } else {
                b - tail
            };
            assert(q1[a].0 == q[sa].0 && q1[b].0 == q[sb].0);
            assert(sa != sb);
        }
    }
}

/// The resident lists of an ARC state that tracks a subset of `dom`
/// hold at most `dom.len()` keys.
proof fn lemma_arc_tracked_card(t1: Seq<u64>, t2: Seq<u64>, dom: Set<u64>)
    requires
        (t1 + t2).no_duplicates(),
        forall|x: u64| #[trigger] (t1 + t2).contains(x) ==> dom.contains(x),
        dom.finite(),
    ensures
        t1.len() + t2.len() <= dom.len(),
{
    let c = t1 + t2;
    c.unique_seq_to_set();
    assert(c.to_set().subset_of(dom)) by {
        assert forall|x: u64| c.to_set().contains(x) implies dom.contains(x) by {
            assert(c.contains(x));
        }
    }
    vstd::set_lib::lemma_len_subset(c.to_set(), dom);
}

/// The write transition of the SLRU policy, under a fresh key.
proof fn lemma_slru_write(sm: SlruModel, dom: Set<u64>, cap: nat, key: u64, dom1: Set<u64>)
    requires
        policy_tracks(PolicyModel::Slru(sm), dom, cap),
        !dom.contains(key),
        dom1.contains(key),
        forall|x: u64| dom.contains(x) ==> #[trigger] dom1.contains(x),
    ensures
        policy_tracks(PolicyModel::Slru(crate::model::slru_on_insert(sm, key)), dom1, cap),
{
    let prob = sm.probationary.entries;
    let prot = sm.protected.entries;
    let prob0 = if prob.len() >= sm.probationary_capacity {
        lru_evict(sm.probationary).0
    } else {
        sm.probationary
    };
    if prob.len() >= sm.probationary_capacity && prob.len() > 0 {
        lemma_min_stamp_idx(prob);
        lemma_without_key(prob, prob[min_stamp_idx(prob)].0);
    }
    assert(forall|x: u64| has_key(prob0.entries, x) ==> has_key(prob, x));
    assert(keys_unique(prob0.entries));
    assert(!has_key(prob, key)) by {
        if has_key(prob, key) {
            assert(dom.contains(key));
        }
    }
    assert(!has_key(prob0.entries, key));
    lemma_push_key(prob0.entries, key, bump(prob0.stamp));
    let sm1 = crate::model::slru_on_insert(sm, key);
    let prob1 = sm1.probationary.entries;
    assert(prob1 == prob0.entries.push((key, bump(prob0.stamp))));
    assert forall|x: u64| !(#[trigger] has_key(prob1, x) && has_key(prot, x)) by {
        if has_key(prob1, x) && has_key(prot, x) {
            if x == key {
                assert(dom.contains(key));
            } else {
                assert(has_key(prob0.entries, x));
                assert(has_key(prob, x));
            }
        }
    }
    assert forall|x: u64| #[trigger] has_key(prob1, x) implies dom1.contains(x) by {
        if x != key {
            assert(has_key(prob0.entries, x));
            assert(has_key(prob, x));
            assert(dom.contains(x));
        }
    }
    assert forall|x: u64| #[trigger] has_key(prot, x) implies dom1.contains(x) by {
        assert(dom.contains(x));
    }
    assert(has_key(prob1, key)) by {
        assert(prob1[prob0.entries.len() as int].0 == key);
    }
    assert(prob1.len() > 0);
}

/// The eviction transition of the SLRU policy when the store is full:
/// the victim is a resident key and the segments keep tracking the
/// remaining residents.
proof fn lemma_slru_evict(sm: SlruModel, dom: Set<u64>, cap: nat)
    requires
        policy_tracks(PolicyModel::Slru(sm), dom, cap),
        dom.finite(),
        cap <= dom.len() <= cap,
    ensures
        ({
            let (sm1, r) = crate::model::slru_evict(sm);
            &&& r is Some
            &&& dom.contains(r->0)
            &&& policy_tracks(PolicyModel::Slru(sm1), dom.remove(r->0), cap)
        }),
{
    let prob = sm.probationary.entries;
    let prot = sm.protected.entries;
    let (sm1, r) = crate::model::slru_evict(sm);
    if prob.len() > 0 {
        lemma_min_stamp_idx(prob);
        let v = prob[min_stamp_idx(prob)].0;
        assert(has_key(prob, v)) by {
            assert(prob[min_stamp_idx(prob)].0 == v);
        }
        lemma_without_key(prob, v);
        assert(r == Some(v));
        assert(dom.contains(v));
        let prob1 = without_key(prob, v);
        assert forall|x: u64| !(#[trigger] has_key(prob1, x) && has_key(prot, x)) by {
            if has_key(prob1, x) {
                assert(has_key(prob, x));
            }
        }
        assert forall|x: u64| #[trigger] has_key(prob1, x) implies dom.remove(v).contains(x) by {
            assert(has_key(prob, x) && x != v);
        }
        assert forall|x: u64| #[trigger] has_key(prot, x) implies dom.remove(v).contains(x) by {
            assert(!(has_key(prob, v) && has_key(prot, v)));
            assert(x != v);
        }
        assert(dom.remove(v).len() < cap);
    } else {
        assert(prot.len() > 0);
        lemma_min_stamp_idx(prot);
        let v = prot[min_stamp_idx(prot)].0;
        assert(has_key(prot, v)) by {
            assert(prot[min_stamp_idx(prot)].0 == v);
        }
        lemma_without_key(prot, v);
        assert(r == Some(v));
        assert(dom.contains(v));
        let prot1 = without_key(prot, v);
        assert forall|x: u64| !(#[trigger] has_key(prob, x) && has_key(prot1, x)) by {
            if has_key(prob, x) {
                assert(false);
            }
        }
        assert forall|x: u64| #[trigger] has_key(prot1, x) implies dom.remove(v).contains(x) by {
            assert(has_key(prot, x) && x != v);
        }
        assert forall|x: u64| #[trigger] has_key(prob, x) implies dom.remove(v).contains(x) by {
            assert(false);
        }
    }
}

/// The write transition of the SFIFO policy, under a fresh key.
proof fn lemma_sfifo_write(
    sf: crate::model::SfifoModel,
    dom: Set<u64>,
    cap: nat,
    key: u64,
    dom1: Set<u64>,
)
    requires
        policy_tracks(PolicyModel::Sfifo(sf), dom, cap),
        !dom.contains(key),
        dom1.contains(key),
        forall|x: u64| dom.contains(x) ==> #[trigger] dom1.contains(x),
    ensures
        policy_tracks(PolicyModel::Sfifo(crate::model::sfifo_on_insert(sf, key)), dom1, cap),
{
    let n = sf.segments.len() as int;
    let j = crate::model::segment_of(sf, key);
    assert(0 <= j < n);
    let seg = sf.segments[j];
    let seg0 = if seg.len() >= sf.segment_capacity {
        crate::model::drop_front(seg)
    } else {
        seg
    };
    assert forall|b: int| 0 <= b < seg0.len() implies exists|u: int|
        0 <= u < seg.len() && seg[u] == #[trigger] seg0[b] by {
        if seg.len() >= sf.segment_capacity && seg.len() > 0 {
            assert(seg[b + 1] == seg0[b]);
        } else {
            assert(seg[b] == seg0[b]);
        }
    }
    assert(!seg0.contains(key)) by {
        if seg0.contains(key) {
            let b = choose|b: int| 0 <= b < seg0.len() && seg0[b] == key;
            let u = choose|u: int| 0 <= u < seg.len() && seg[u] == seg0[b];
            assert(sf.segments[j][u] == key);
            assert(dom.contains(key));
        }
    }
    assert forall|a: int, b: int|
        0 <= a < seg0.len() && 0 <= b < seg0.len() && a != b implies seg0[a] != seg0[b] by {
        if seg.len() >= sf.segment_capacity && seg.len() > 0 {
            assert(seg[a + 1] == seg0[a] && seg[b + 1] == seg0[b]);
        }
    }
    let seg1 = seg0.push(key);
    let sf1 = crate::model::sfifo_on_insert(sf, key);
    assert(sf1.segments == sf.segments.update(j, seg1));
    assert forall|a: int, b: int|
        0 <= a < sf1.segments.len() && 0 <= b < sf1.segments[a].len() implies ((
    #[trigger] sf1.segments[a][b]) as int % (sf1.segments.len() as int) == a && dom1.contains(
        sf1.segments[a][b],
    )) by {
        if a == j {
            if b < seg0.len() {
                assert(sf1.segments[a][b] == seg0[b]);
                let u = choose|u: int| 0 <= u < seg.len() && seg[u] == seg0[b];
                assert(sf.segments[j][u] == seg0[b]);
            } else {
                assert(sf1.segments[a][b] == key);
            }
        } else {
            assert(sf1.segments[a][b] == sf.segments[a][b]);
        }
    }
    assert forall|a: int|
        0 <= a < sf1.segments.len() implies (#[trigger] sf1.segments[a]).no_duplicates() by {
        if a == j {
            assert forall|u: int, v: int|
                0 <= u < seg1.len() && 0 <= v < seg1.len() && u != v implies seg1[u] != seg1[v] by {
                if u < seg0.len() && v < seg0.len() {
                } else if u < seg0.len() {
                    assert(seg1[v] == key);
                    if seg0[u] == key {
                        assert(seg0.contains(key));
                    }
                } else if v < seg0.len() {
                    assert(seg1[u] == key);
                    if seg0[v] == key {
                        assert(seg0.contains(key));
                    }
                }
            }
        } else {
            assert(sf1.segments[a] == sf.segments[a]);
        }
    }
    if dom1.len() >= cap {
        assert(sf1.segments[j].len() > 0);
    }
}

/// The eviction transition of the SFIFO policy when the store is full.
proof fn lemma_sfifo_evict(sf: crate::model::SfifoModel, dom: Set<u64>, cap: nat)
    requires
        policy_tracks(PolicyModel::Sfifo(sf), dom, cap),
        dom.finite(),
        cap <= dom.len() <= cap,
    ensures
        ({
            let (sf1, r) = crate::model::sfifo_evict(sf);
            &&& r is Some
            &&& dom.contains(r->0)
            &&& policy_tracks(PolicyModel::Sfifo(sf1), dom.remove(r->0), cap)
        }),
{
    let n = sf.segments.len() as int;
    crate::model::lemma_first_busy(sf.segments);
    let i = crate::model::first_busy(sf.segments);
    assert(i != -1) by {
        if i == -1 {
            let w = choose|w: int| 0 <= w < n && (#[trigger] sf.segments[w]).len() > 0;
        }
    }
    let si = sf.segments[i];
    let v = si[0];
    assert(sf.segments[i][0] == v);
    assert(dom.contains(v));
    assert(v as int % (n as int) == i);
    let (sf1, r) = crate::model::sfifo_evict(sf);
    assert(r == Some(v));
    assert(sf1.segments == sf.segments.update(i, si.drop_first()));
    assert forall|a: int, b: int|
        0 <= a < sf1.segments.len() && 0 <= b < sf1.segments[a].len() implies ((
    #[trigger] sf1.segments[a][b]) as int % (sf1.segments.len() as int) == a && dom.remove(
        v,
    ).contains(sf1.segments[a][b])) by {
        if a == i {
            assert(sf1.segments[a][b] == si[b + 1]);
            assert(sf.segments[i][b + 1] == si[b + 1]);
            if si[b + 1] == v {
                assert(sf.segments[i].no_duplicates());
                assert(si[0] == si[b + 1]);
                assert(false);
            }
        } else {
            assert(sf1.segments[a][b] == sf.segments[a][b]);
            if sf.segments[a][b] == v {
                assert(sf.segments[a][b] as int % (n as int) == a);
                assert(false);
            }
        }
    }
    assert forall|a: int|
        0 <= a < sf1.segments.len() implies (#[trigger] sf1.segments[a]).no_duplicates() by {
        if a == i {
            assert forall|u: int, w: int|
                0 <= u < si.drop_first().len() && 0 <= w < si.drop_first().len() && u
                    != w implies si.drop_first()[u] != si.drop_first()[w] by {
                assert(si[u + 1] == si.drop_first()[u]);
                assert(si[w + 1] == si.drop_first()[w]);
                assert(sf.segments[i].no_duplicates());
            }
        } else {
            assert(sf1.segments[a] == sf.segments[a]);
        }
    }
    assert(dom.remove(v).len() < cap);
}

/// The write transition of the ARC policy: in a cache-reachable state
/// the ghost lists are empty and an insertion only appends the key.
proof fn lemma_arc_write(am: ArcModel, dom: Set<u64>, cap: nat, key: u64, dom1: Set<u64>)
    requires
        policy_tracks(PolicyModel::Arc(am), dom, cap),
        dom.finite(),
        dom.len() <= cap,
        dom.len() < cap || dom.contains(key),
        dom1.contains(key),
        forall|x: u64| dom.contains(x) ==> #[trigger] dom1.contains(x),
        !dom.contains(key) || dom1 == dom.insert(key),
    ensures
        policy_tracks(PolicyModel::Arc(crate::model::arc_on_insert(am, key)), dom1, cap),
{
    let am1 = crate::model::arc_on_insert(am, key);
    lemma_concat_contains(am.t1, am.t2);
    if am.t1.contains(key) || am.t2.contains(key) {
        assert(am1 == am);
        assert forall|x: u64| #[trigger] (am.t1 + am.t2).contains(x) implies dom1.contains(x) by {
            assert(dom.contains(x));
        }
        assert((am.t1 + am.t2).contains(key));
        assert(am.t1.len() + am.t2.len() > 0);
    } else {
        // the tracked keys sit inside dom minus the key, so both
        // rebalancing branches are skipped
        let held = if dom.contains(key) {
            dom.remove(key)
        } else {
            dom
        };
        assert forall|x: u64| #[trigger] (am.t1 + am.t2).contains(x) implies held.contains(x) by {
            assert(dom.contains(x));
            assert(x != key);
        }
        lemma_arc_tracked_card(am.t1, am.t2, held);
        assert(held.len() < cap);
        assert(am.t1.len() + am.t2.len() < cap);
        assert(am.t1.len() + am.b1.len() != am.capacity);
        assert(am.t1.len() + am.t2.len() + am.b1.len() + am.b2.len() < am.capacity);
        assert(am1.t1 == am.t1.push(key) && am1.t2 == am.t2);
        lemma_concat_contains(am1.t1, am1.t2);
        assert forall|i: int, j: int|
            0 <= i < (am1.t1 + am1.t2).len() && 0 <= j < (am1.t1 + am1.t2).len() && i
                != j implies (am1.t1 + am1.t2)[i] != (am1.t1 + am1.t2)[j] by {
            let c0 = am.t1 + am.t2;
            let c1 = am1.t1 + am1.t2;
            let p = am.t1.len() as int;
            assert(forall|u: int| 0 <= u < p ==> #[trigger] c1[u] == c0[u]);
            assert(c1[p] == key);
            assert(forall|u: int| p < u < c1.len() ==> #[trigger] c1[u] == c0[u - 1]);
            if i == p || j == p {
                let b = if i == p {
                    j
                } else {
                    i
                };
                let ob = if b < p {
                    b
                } else {
                    b - 1
                };
                assert(c1[b] == c0[ob]);
                if c1[b] == key {
                    assert(c0.contains(key)) by {
                        assert(c0[ob] == key);
                    }
                }
            } else {
                let oi = if i < p {
                    i
                } else {
                    i - 1
                };
                let oj = if j < p {
                    j
                } else {
                    j - 1
                };
                assert(c1[i] == c0[oi] && c1[j] == c0[oj]);
                assert(oi != oj);
            }
        }
        assert forall|x: u64| #[trigger] (am1.t1 + am1.t2).contains(x) implies dom1.contains(
            x,
        ) by {
            if x != key {
                assert(am1.t1.contains(x) || am1.t2.contains(x));
                if am1.t1.contains(x) {
                    let u = choose|u: int| 0 <= u < am1.t1.len() && am1.t1[u] == x;
                    assert(u < am.t1.len());
                    assert(am.t1[u] == x);
                    assert((am.t1 + am.t2).contains(x)) by {
                        assert((am.t1 + am.t2)[u] == x);
                    }
                } else {
                    let u = choose|u: int| 0 <= u < am.t2.len() && am.t2[u] == x;
                    assert((am.t1 + am.t2).contains(x)) by {
                        assert((am.t1 + am.t2)[am.t1.len() + u] == x);
                    }
                }
                assert(dom.contains(x));
            }
        }
        assert(am1.t1.len() + am1.t2.len() > 0);
    }
}

/// The eviction transition of the ARC policy when the store is full.
proof fn lemma_arc_evict(am: ArcModel, dom: Set<u64>, cap: nat)
    requires
        policy_tracks(PolicyModel::Arc(am), dom, cap),
        dom.finite(),
        cap <= dom.len() <= cap,
    ensures
        ({
            let (am1, r) = crate::model::arc_evict(am);
            &&& r is Some
            &&& dom.contains(r->0)
            &&& policy_tracks(PolicyModel::Arc(am1), dom.remove(r->0), cap)
        }),
{
    let (am1, r) = crate::model::arc_evict(am);
    lemma_concat_contains(am.t1, am.t2);
    let c0 = am.t1 + am.t2;
    if am.t1.len() > 0 {
        let v = am.t1[0];
        assert(r == Some(v));
        assert(c0.contains(v)) by {
            assert(c0[0] == v);
        }
        assert(dom.contains(v));
        assert(am1.t1 == am.t1.drop_first() && am1.t2 == am.t2);
        let c1 = am1.t1 + am1.t2;
        assert(forall|u: int| 0 <= u < c1.len() ==> #[trigger] c1[u] == c0[u + 1]);
        assert forall|i: int, j: int|
            0 <= i < c1.len() && 0 <= j < c1.len() && i != j implies c1[i] != c1[j] by {
            assert(c1[i] == c0[i + 1] && c1[j] == c0[j + 1]);
        }
        assert forall|x: u64| #[trigger] c1.contains(x) implies dom.remove(v).contains(x) by {
            let u = choose|u: int| 0 <= u < c1.len() && c1[u] == x;
            assert(c0[u + 1] == x);
            assert(c0.contains(x));
            assert(dom.contains(x));
            if x == v {
                assert(c0[0] == c0[u + 1]);
                assert(false);
            }
        }
        assert(dom.remove(v).len() < cap);
    } else {
        assert(am.t2.len() > 0);
        let v = am.t2[0];
        assert(r == Some(v));
        assert(c0.contains(v)) by {
            assert(c0[am.t1.len() as int] == v);
        }
        assert(dom.contains(v));
        assert(am1.t2 == am.t2.drop_first() && am1.t1 == am.t1);
        let c1 = am1.t1 + am1.t2;
        assert(forall|u: int| 0 <= u < c1.len() ==> #[trigger] c1[u] == c0[u + 1]);
        assert forall|i: int, j: int|
            0 <= i < c1.len() && 0 <= j < c1.len() && i != j implies c1[i] != c1[j] by {
            assert(c1[i] == c0[i + 1] && c1[j] == c0[j + 1]);
        }
        assert forall|x: u64| #[trigger] c1.contains(x) implies dom.remove(v).contains(x) by {
            let u = choose|u: int| 0 <= u < c1.len() && c1[u] == x;
            assert(c0[u + 1] == x);
            assert(c0.contains(x));
            assert(dom.contains(x));
            if x == v {
                assert(c0[0] == c0[u + 1]);
                assert(false);
            }
        }
        assert(dom.remove(v).len() < cap);
    }
}

/// How the resident keys shift when a write evicts `vt` and inserts a
/// fresh `key`.
proof fn lemma_dom_shift<V>(m0: CacheModel<V>, key: u64, value: V, vt: u64, m1: CacheModel<V>)
    requires
        m0.store.dom().finite(),
        m1.store == m0.store.remove(vt).insert(key, value),
        m0.store.dom().contains(vt),
        !m0.store.dom().contains(key),
    ensures
        m1.store.dom() == m0.store.dom().remove(vt).insert(key),
        m1.store.dom().finite(),
        m1.store.len() == m0.store.len(),
{
    assert(m1.store.dom() =~= m0.store.dom().remove(vt).insert(key));
}

/// A write preserves the invariant: when the store is full and the key
/// fresh, the policy names a resident victim, which makes room; an
/// update never grows the store. The FIFO, Second-Chance, SLRU and
/// SFIFO policies additionally need the written key to be fresh,
/// because a repeated insertion duplicates their bookkeeping entries.
pub proof fn lemma_write_preserves_inv<V>(
    m0: CacheModel<V>,
    key: u64,
    value: V,
    evicted: Option<u64>,
    m1: CacheModel<V>,
)
    requires
        cache_inv(m0),
        write_step(m0, key, value, evicted, m1),
        write_needs_fresh(m0.policy) ==> !m0.store.contains_key(key),
    ensures
        cache_inv(m1),
{
    let dom = m0.store.dom();
    let cap = m0.capacity;
    if needs_evict(m0, key) {
        assert(!dom.contains(key));
        assert(dom.len() == cap);
        assert(dom.len() != 0);
        let w = dom.choose();
        assert(dom.contains(w));
        let pm = choose|p: PolicyModel|
            #[trigger] evict_rel(m0.policy, p, evicted) && m1.policy == policy_on_insert(p, key);
        match m0.policy {
            PolicyModel::Lru(l) => {
                assert(has_key(l.entries, w));
                assert(l.entries.len() > 0) by {
                    let i = choose|i: int| 0 <= i < l.entries.len() && l.entries[i].0 == w;
                }
                lemma_min_stamp_idx(l.entries);
                let vt = l.entries[min_stamp_idx(l.entries)].0;
                assert(has_key(l.entries, vt)) by {
                    assert(l.entries[min_stamp_idx(l.entries)].0 == vt);
                }
                assert(dom.contains(vt));
                assert(evicted == Some(vt));
                lemma_table_shift(l.entries, dom, vt, key, bump(l.stamp));
                lemma_dom_shift(m0, key, value, vt, m1);
            },
            PolicyModel::Fifo { queue } => {
                assert(queue.contains(w));
                assert(queue.len() > 0);
                let vt = queue[0];
                assert(evicted == Some(vt));
                assert(queue.contains(vt));
                assert(dom.contains(vt));
                lemma_drop_first_no_dup(queue);
                lemma_push_val(queue.drop_first(), key);
                assert(!queue.drop_first().contains(key)) by {
                    if queue.drop_first().contains(key) {
                        assert(queue.contains(key));
                        assert(dom.contains(key));
                    }
                }
                lemma_dom_shift(m0, key, value, vt, m1);
                assert(queue.drop_first().push(key).to_set() =~= dom.remove(vt).insert(key));
            },
            PolicyModel::Lfu { counts } => {
                assert(has_key(counts, w));
                assert(counts.len() > 0) by {
                    let i = choose|i: int| 0 <= i < counts.len() && counts[i].0 == w;
                }
                lemma_min_stamp_idx(counts);
                let vt = counts[min_stamp_idx(counts)].0;
                assert(has_key(counts, vt)) by {
                    assert(counts[min_stamp_idx(counts)].0 == vt);
                }
                assert(dom.contains(vt));
                assert(evicted == Some(vt));
                lemma_table_shift(counts, dom, vt, key, 1);
                lemma_dom_shift(m0, key, value, vt, m1);
            },
            PolicyModel::Mru(l) => {
                assert(has_key(l.entries, w));
                assert(l.entries.len() > 0) by {
                    let i = choose|i: int| 0 <= i < l.entries.len() && l.entries[i].0 == w;
                }
                lemma_max_stamp_idx(l.entries);
                let vt = l.entries[max_stamp_idx(l.entries)].0;
                assert(has_key(l.entries, vt)) by {
                    assert(l.entries[max_stamp_idx(l.entries)].0 == vt);
                }
                assert(dom.contains(vt));
                assert(evicted == Some(vt));
                lemma_table_shift(l.entries, dom, vt, key, bump(l.stamp));
                lemma_dom_shift(m0, key, value, vt, m1);
            },
            PolicyModel::Rand { keys } => {
                assert(keys.contains(w));
                assert(keys.len() > 0);
                assert(evicted is Some);
                let vt = evicted->0;
                assert(keys.contains(vt));
                assert(dom.contains(vt));
                lemma_without(keys, vt);
                lemma_push_val(without(keys, vt), key);
                assert(!without(keys, vt).contains(key)) by {
                    if without(keys, vt).contains(key) {
                        assert(keys.contains(key));
                        assert(dom.contains(key));
                    }
                }
                lemma_dom_shift(m0, key, value, vt, m1);
                assert(without(keys, vt).push(key).to_set() =~= dom.remove(vt).insert(key));
            },
            PolicyModel::Slru(sm) => {
                lemma_slru_evict(sm, dom, cap);
                let vt = evicted->0;
                assert(evicted is Some && dom.contains(vt));
                lemma_dom_shift(m0, key, value, vt, m1);
                lemma_slru_write(
                    crate::model::slru_evict(sm).0,
                    dom.remove(vt),
                    cap,
                    key,
                    dom.remove(vt).insert(key),
                );
            },
            PolicyModel::Sfifo(sf) => {
                lemma_sfifo_evict(sf, dom, cap);
                let vt = evicted->0;
                assert(evicted is Some && dom.contains(vt));
                lemma_dom_shift(m0, key, value, vt, m1);
                lemma_sfifo_write(
                    crate::model::sfifo_evict(sf).0,
                    dom.remove(vt),
                    cap,
                    key,
                    dom.remove(vt).insert(key),
                );
            },
            PolicyModel::Klru(km) => {
                assert(km.order.to_set().len() == dom.len());
                km.order.lemma_cardinality_of_set();
                assert(km.order.len() > km.k);
                let vt = km.order[km.order.len() - 1 - km.k];
                assert(evicted == Some(vt));
                assert(km.order.contains(vt));
                assert(dom.contains(vt));
                lemma_without(km.order, vt);
                lemma_push_val(without(km.order, vt), key);
                lemma_dom_shift(m0, key, value, vt, m1);
                assert(without(km.order, vt).push(key).to_set() =~= dom.remove(vt).insert(key));
            },
            PolicyModel::SecondChance { entries } => {
                assert(has_entry(entries, w));
                assert(entries.len() > 0) by {
                    let i = choose|i: int| 0 <= i < entries.len() && entries[i].0 == w;
                }
                lemma_sc_evict_sets(entries);
                let (q1, r) = sc_evict(entries);
                let vt = r->0;
                assert(evicted == r);
                assert(dom.contains(vt));
                lemma_push_entry(q1, key, false);
                assert(!has_entry(q1, key)) by {
                    if has_entry(q1, key) {
                        assert(has_entry(entries, key));
                        assert(dom.contains(key));
                    }
                }
                lemma_dom_shift(m0, key, value, vt, m1);
                assert(entry_key_set(q1.push((key, false))) =~= dom.remove(vt).insert(key));
            },
            PolicyModel::Arc(am) => {
                lemma_arc_evict(am, dom, cap);
                let vt = evicted->0;
                assert(evicted is Some && dom.contains(vt));
                lemma_dom_shift(m0, key, value, vt, m1);
                lemma_arc_write(
                    crate::model::arc_evict(am).0,
                    dom.remove(vt),
                    cap,
                    key,
                    dom.remove(vt).insert(key),
                );
            },
        }
    } else {
        assert(evicted is None);
        assert(m1.store == m0.store.insert(key, value));
        let dom1 = m1.store.dom();
        assert(dom1 =~= dom.insert(key));
        if dom.contains(key) {
            assert(dom1 =~= dom);
        } else {
            assert(dom.len() < cap);
        }
        match m0.policy {
            PolicyModel::Lru(l) => {
                let t = bump(l.stamp);
                if has_key(l.entries, key) {
                    lemma_stamped(l.entries, key, t);
                    assert(dom.contains(key));
                    assert(key_set(stamped(l.entries, key, t)) =~= dom1);
                } else {
                    lemma_push_key(l.entries, key, t);
                    assert(key_set(l.entries.push((key, t))) =~= dom1);
                }
            },
            PolicyModel::Fifo { queue } => {
                assert(!queue.contains(key)) by {
                    if queue.contains(key) {
                        assert(dom.contains(key));
                    }
                }
                lemma_push_val(queue, key);
                assert(queue.push(key).to_set() =~= dom1);
            },
            PolicyModel::Lfu { counts } => {
                if has_key(counts, key) {
                    lemma_stamped(counts, key, 1);
                    assert(dom.contains(key));
                    assert(key_set(stamped(counts, key, 1)) =~= dom1);
                } else {
                    lemma_push_key(counts, key, 1);
                    assert(key_set(counts.push((key, 1))) =~= dom1);
                }
            },
            PolicyModel::Mru(l) => {
                let t = bump(l.stamp);
                if has_key(l.entries, key) {
                    lemma_stamped(l.entries, key, t);
                    assert(dom.contains(key));
                    assert(key_set(stamped(l.entries, key, t)) =~= dom1);
                } else {
                    lemma_push_key(l.entries, key, t);
                    assert(key_set(l.entries.push((key, t))) =~= dom1);
                }
            },
            PolicyModel::Rand { keys } => {
                if keys.contains(key) {
                    assert(dom.contains(key));
                    assert(keys.to_set() =~= dom1);
                } else {
                    lemma_push_val(keys, key);
                    assert(keys.push(key).to_set() =~= dom1);
                }
            },
            PolicyModel::Slru(sm) => {
                lemma_slru_write(sm, dom, cap, key, dom1);
            },
            PolicyModel::Sfifo(sf) => {
                lemma_sfifo_write(sf, dom, cap, key, dom1);
            },
            PolicyModel::Klru(km) => {
                lemma_push_val(km.order, key);
                assert(km.order.push(key).to_set() =~= dom1);
            },
            PolicyModel::SecondChance { entries } => {
                assert(!has_entry(entries, key)) by {
                    if has_entry(entries, key) {
                        assert(dom.contains(key));
                    }
                }
                lemma_push_entry(entries, key, false);
                assert(entry_key_set(entries.push((key, false))) =~= dom1);
            },
            PolicyModel::Arc(am) => {
                lemma_arc_write(am, dom, cap, key, dom1);
            },
        }
    }
}

/// A prefix of a valid trace is a valid trace.
proof fn lemma_trace_prefix<V>(states: Seq<CacheModel<V>>, events: Seq<CacheEvent<V>>, i: int)
    requires
        valid_trace(states, events),
        0 <= i <= events.len(),
    ensures
        valid_trace(states.take(i + 1), events.take(i)),
{
    assert(forall|j: int|
        0 <= j < i ==> event_step(
            states.take(i + 1)[j],
            #[trigger] events.take(i)[j],
            states.take(i + 1)[j + 1],
        ));
}

/// Whether every write of a run is of a key that was not resident at
/// that moment.
pub open spec fn writes_fresh<V>(states: Seq<CacheModel<V>>, events: Seq<CacheEvent<V>>) -> bool {
    forall|i: int|
        0 <= i < events.len() ==> match #[trigger] events[i] {
            CacheEvent::Write { key, value, evicted } => !states[i].store.contains_key(key),
            CacheEvent::Read { key } => true,
            CacheEvent::Erase { key } => true,
        }
}

/// The last state of an invariant-preserving run, for policies whose
/// bookkeeping mirrors the resident set exactly.
proof fn lemma_capacity_last<V>(states: Seq<CacheModel<V>>, events: Seq<CacheEvent<V>>)
    requires
        valid_trace(states, events),
        cache_inv(states[0]),
        !write_needs_fresh(states[0].policy) || writes_fresh(states, events),
    ensures
        cache_inv(states.last()),
        write_needs_fresh(states.last().policy) == write_needs_fresh(states[0].policy),
    decreases events.len(),
{
    if events.len() == 0 {
        assert(states.last() == states[0]);
    } else {
        let n = events.len() as int;
        assert(valid_trace(states.drop_last(), events.drop_last())) by {
            assert(forall|i: int|
                0 <= i < n - 1 ==> event_step(
                    states.drop_last()[i],
                    #[trigger] events.drop_last()[i],
                    states.drop_last()[i + 1],
                ));
        }
        if write_needs_fresh(states[0].policy) {
            assert(writes_fresh(states.drop_last(), events.drop_last())) by {
                assert forall|i: int|
                    0 <= i < n - 1 implies match #[trigger] events.drop_last()[i] {
                    CacheEvent::Write { key, value, evicted } => !states.drop_last()[i].store.contains_key(
                        key,
                    ),
                    CacheEvent::Read { key } => true,
                    CacheEvent::Erase { key } => true,
                } by {
                    assert(events.drop_last()[i] == events[i]);
                    assert(states.drop_last()[i] == states[i]);
                }
            }
        }
        lemma_capacity_last(states.drop_last(), events.drop_last());
        let mid = states[n - 1];
        assert(states.drop_last().last() == mid);
        assert(cache_inv(mid));
        assert(event_step(mid, events[n - 1], states[n]));
        match events[n - 1] {
            CacheEvent::Write { key, value, evicted } => {
                if write_needs_fresh(states[0].policy) {
                    assert(!mid.store.contains_key(key));
                }
                lemma_write_preserves_inv(mid, key, value, evicted, states[n]);
                if needs_evict(mid, key) {
                    let pm = choose|p: PolicyModel|
                        #[trigger] evict_rel(mid.policy, p, evicted) && states[n].policy
                            == policy_on_insert(p, key);
                    lemma_steps_preserve_kind(mid.policy, pm, key, evicted);
                }
            },
            CacheEvent::Read { key } => {
                lemma_read_preserves_inv(mid, key);
            },
            CacheEvent::Erase { key } => {
                lemma_erase_preserves_inv(mid, key);
            },
        }
        assert(states.last() == states[n]);
    }
}

/// The store never holds more keys than the capacity, for the
/// policies whose bookkeeping mirrors the resident set exactly (LRU,
/// MRU, LFU, Random, KLRU with its offset below the capacity, and
/// ARC): every state of every run from a valid initial cache keeps
/// the invariant.
pub proof fn lemma_capacity_invariant<V>(
    states: Seq<CacheModel<V>>,
    events: Seq<CacheEvent<V>>,
    i: int,
)
    requires
        valid_trace(states, events),
        cache_inv(states[0]),
        !write_needs_fresh(states[0].policy),
        0 <= i < states.len(),
    ensures
        cache_inv(states[i]),
        states[i].store.len() <= states[i].capacity,
    decreases events.len(),
{
    lemma_trace_prefix(states, events, i);
    lemma_capacity_last(states.take(i + 1), events.take(i));
    assert(states.take(i + 1).last() == states[i]);
}

/// The same capacity bound for every policy, including FIFO,
/// Second-Chance, SLRU and SFIFO, on runs that only ever write fresh
/// keys.
pub proof fn lemma_capacity_invariant_fresh<V>(
    states: Seq<CacheModel<V>>,
    events: Seq<CacheEvent<V>>,
    i: int,
)
    requires
        valid_trace(states, events),
        cache_inv(states[0]),
        writes_fresh(states, events),
        0 <= i < states.len(),
    ensures
        cache_inv(states[i]),
        states[i].store.len() <= states[i].capacity,
{
    lemma_trace_prefix(states, events, i);
    assert(writes_fresh(states.take(i + 1), events.take(i))) by {
        assert forall|j: int|
            0 <= j < i implies match #[trigger] events.take(i)[j] {
            CacheEvent::Write { key, value, evicted } => !states.take(
                i + 1,
            )[j].store.contains_key(key),
            CacheEvent::Read { key } => true,
            CacheEvent::Erase { key } => true,
        } by {
            assert(events.take(i)[j] == events[j]);
            assert(states.take(i + 1)[j] == states[j]);
        }
    }
    lemma_capacity_last(states.take(i + 1), events.take(i));
    assert(states.take(i + 1).last() == states[i]);
}

// ------------------------------------------------------------------
// Eviction choice at the cache level
// ------------------------------------------------------------------

/// A full LRU cache written with a fresh key evicts a resident key
/// whose last-touch stamp is minimal among all tracked keys.
pub proof fn lemma_lru_eviction_choice<V>(
    m0: CacheModel<V>,
    l: LruModel,
    key: u64,
    value: V,
    evicted: Option<u64>,
    m1: CacheModel<V>,
)
    requires
        cache_inv(m0),
        m0.policy == PolicyModel::Lru(l),
        needs_evict(m0, key),
        write_step(m0, key, value, evicted, m1),
    ensures
        evicted == Some(l.entries[min_stamp_idx(l.entries)].0),
        m0.store.contains_key(evicted->0),
        !m1.store.contains_key(evicted->0),
        forall|j: int|
            0 <= j < l.entries.len() ==> l.entries[min_stamp_idx(l.entries)].1
                <= #[trigger] l.entries[j].1,
{
    let dom = m0.store.dom();
    assert(dom.len() >= 1);
    let w = dom.choose();
    assert(dom.contains(w));
    assert(has_key(l.entries, w));
    assert(l.entries.len() > 0) by {
        let i = choose|i: int| 0 <= i < l.entries.len() && l.entries[i].0 == w;
    }
    lemma_min_stamp_idx(l.entries);
    let vt = l.entries[min_stamp_idx(l.entries)].0;
    assert(has_key(l.entries, vt)) by {
        assert(l.entries[min_stamp_idx(l.entries)].0 == vt);
    }
    assert(dom.contains(vt));
    let pm = choose|p: PolicyModel|
        #[trigger] evict_rel(m0.policy, p, evicted) && m1.policy == policy_on_insert(p, key);
    assert(evicted == Some(vt));
    assert(m1.store == m0.store.remove(vt).insert(key, value));
    assert(key != vt);
}

/// A full MRU cache written with a fresh key evicts a resident key
/// whose last-touch stamp is maximal among all tracked keys.
pub proof fn lemma_mru_eviction_choice<V>(
    m0: CacheModel<V>,
    l: LruModel,
    key: u64,
    value: V,
    evicted: Option<u64>,
    m1: CacheModel<V>,
)
    requires
        cache_inv(m0),
        m0.policy == PolicyModel::Mru(l),
        needs_evict(m0, key),
        write_step(m0, key, value, evicted, m1),
    ensures
        evicted == Some(l.entries[max_stamp_idx(l.entries)].0),
        m0.store.contains_key(evicted->0),
        !m1.store.contains_key(evicted->0),
        forall|j: int|
            0 <= j < l.entries.len() ==> l.entries[max_stamp_idx(l.entries)].1
                >= #[trigger] l.entries[j].1,
{
    let dom = m0.store.dom();
    assert(dom.len() >= 1);
    let w = dom.choose();
    assert(dom.contains(w));
    assert(has_key(l.entries, w));
    assert(l.entries.len() > 0) by {
        let i = choose|i: int| 0 <= i < l.entries.len() && l.entries[i].0 == w;
    }
    lemma_max_stamp_idx(l.entries);
    let vt = l.entries[max_stamp_idx(l.entries)].0;
    assert(has_key(l.entries, vt)) by {
        assert(l.entries[max_stamp_idx(l.entries)].0 == vt);
    }
    assert(dom.contains(vt));
    let pm = choose|p: PolicyModel|
        #[trigger] evict_rel(m0.policy, p, evicted) && m1.policy == policy_on_insert(p, key);
    assert(evicted == Some(vt));
    assert(m1.store == m0.store.remove(vt).insert(key, value));
    assert(key != vt);
}

/// A full LFU cache written with a fresh key evicts a resident key
/// whose access count is minimal among all tracked keys.
pub proof fn lemma_lfu_eviction_choice<V>(
    m0: CacheModel<V>,
    counts: Seq<(u64, u64)>,
    key: u64,
    value: V,
    evicted: Option<u64>,
    m1: CacheModel<V>,
)
    requires
        cache_inv(m0),
        m0.policy == (PolicyModel::Lfu { counts }),
        needs_evict(m0, key),
        write_step(m0, key, value, evicted, m1),
    ensures
        evicted == Some(counts[min_stamp_idx(counts)].0),
        m0.store.contains_key(evicted->0),
        !m1.store.contains_key(evicted->0),
        forall|j: int|
            0 <= j < counts.len() ==> counts[min_stamp_idx(counts)].1 <= #[trigger] counts[j].1,
{
    let dom = m0.store.dom();
    assert(dom.len() >= 1);
    let w = dom.choose();
    assert(dom.contains(w));
    assert(has_key(counts, w));
    assert(counts.len() > 0) by {
        let i = choose|i: int| 0 <= i < counts.len() && counts[i].0 == w;
    }
    lemma_min_stamp_idx(counts);
    let vt = counts[min_stamp_idx(counts)].0;
    assert(has_key(counts, vt)) by {
        assert(counts[min_stamp_idx(counts)].0 == vt);
    }
    assert(dom.contains(vt));
    let pm = choose|p: PolicyModel|
        #[trigger] evict_rel(m0.policy, p, evicted) && m1.policy == policy_on_insert(p, key);
    assert(evicted == Some(vt));
    assert(m1.store == m0.store.remove(vt).insert(key, value));
    assert(key != vt);
}

/// A full KLRU cache written with a fresh key evicts the `(k+1)`-th
/// most recently touched key, not the oldest one.
pub proof fn lemma_klru_eviction_choice<V>(
    m0: CacheModel<V>,
    km: KlruModel,
    key: u64,
    value: V,
    evicted: Option<u64>,
    m1: CacheModel<V>,
)
    requires
        cache_inv(m0),
        m0.policy == PolicyModel::Klru(km),
        needs_evict(m0, key),
        write_step(m0, key, value, evicted, m1),
    ensures
        km.order.len() > km.k,
        evicted == Some(km.order[km.order.len() - 1 - km.k]),
        m0.store.contains_key(evicted->0),
        !m1.store.contains_key(evicted->0),
{
    let dom = m0.store.dom();
    assert(km.order.to_set().len() == dom.len());
    km.order.lemma_cardinality_of_set();
    assert(km.order.len() > km.k);
    let vt = km.order[km.order.len() - 1 - km.k];
    assert(km.order.contains(vt));
    assert(dom.contains(vt));
    let pm = choose|p: PolicyModel|
        #[trigger] evict_rel(m0.policy, p, evicted) && m1.policy == policy_on_insert(p, key);
    assert(evicted == Some(vt));
    assert(m1.store == m0.store.remove(vt).insert(key, value));
    assert(key != vt);
}

} // verus!
