//! Shared helpers over key vectors and key-stamp vectors: spec functions
//! describing removal, re-stamping and minimum/maximum search, the lemmas
//! that characterize them, and verified executable counterparts.

use vstd::prelude::*;

verus! {

// ------------------------------------------------------------------
// Membership helpers shared by every element type
// ------------------------------------------------------------------

/// Membership in a sequence splits into membership in `drop_last` or
/// equality with the last element.
pub proof fn lemma_contains_drop_last<A>(s: Seq<A>, x: A)
    requires
        s.len() > 0,
    ensures
        s.contains(x) <==> (s.drop_last().contains(x) || s.last() == x),
{
    if s.drop_last().contains(x) {
        let i = choose|i: int| 0 <= i < s.drop_last().len() && s.drop_last()[i] == x;
        assert(s[i] == x);
    }
    if s.contains(x) {
        let i = choose|i: int| 0 <= i < s.len() && s[i] == x;
        if i < s.len() - 1 {
            assert(s.drop_last()[i] == x);
        }
    }
}

/// Saturating increment, used for monotonic stamps and counters.
pub open spec fn bump(t: u64) -> u64 {
    if t == u64::MAX {
        t
    } else {
        (t + 1) as u64
    }
}

/// Executable saturating increment.
pub fn bump_exec(t: u64) -> (r: u64)
    ensures
        r == bump(t),
{
    if t == u64::MAX {
        t
    } else {
        t + 1
    }
}

// ------------------------------------------------------------------
// Sequences of keys: Seq<u64>
// ------------------------------------------------------------------

/// The sequence `s` with every occurrence of `k` removed, order kept.
pub open spec fn without(s: Seq<u64>, k: u64) -> Seq<u64>
    decreases s.len(),
{
    if s.len() == 0 {
        Seq::empty()
    } else if s.last() == k {
        without(s.drop_last(), k)
    } else {
        without(s.drop_last(), k).push(s.last())
    }
}

pub proof fn lemma_without(s: Seq<u64>, k: u64)
    ensures
        without(s, k).len() <= s.len(),
        s.contains(k) ==> without(s, k).len() < s.len(),
        forall|x: u64| #[trigger] without(s, k).contains(x) <==> (s.contains(x) && x != k),
        s.no_duplicates() ==> without(s, k).no_duplicates(),
        !s.contains(k) ==> without(s, k) == s,
    decreases s.len(),
{
    if s.len() == 0 {
        assert(without(s, k) =~= s);
        assert forall|x: u64| #[trigger] without(s, k).contains(x) implies (s.contains(x) && x
            != k) by {
            assert(false);
        }
    } else {
        let d = s.drop_last();
        let w = without(d, k);
        lemma_without(d, k);
        lemma_contains_drop_last(s, k);
        assert forall|x: u64| #[trigger] without(s, k).contains(x) <==> (s.contains(x) && x
            != k) by {
            lemma_contains_drop_last(s, x);
            if s.last() != k {
                assert(w.push(s.last()).drop_last() =~= w);
                lemma_contains_drop_last(w.push(s.last()), x);
            }
        }
        if s.no_duplicates() {
            assert(d.no_duplicates());
            if s.last() != k {
                if w.contains(s.last()) {
                    assert(d.contains(s.last()));
                    let i = choose|i: int| 0 <= i < d.len() && d[i] == s.last();
                    assert(s[i] == s[s.len() - 1]);
                    assert(false);
                }
                assert(without(s, k) == w.push(s.last()));
                assert forall|i: int, j: int|
                    0 <= i < without(s, k).len() && 0 <= j < without(s, k).len() && i
                        != j implies without(s, k)[i] != without(s, k)[j] by {
                    if i < w.len() && j < w.len() {
                        assert(w[i] != w[j]);
                    } else if i < w.len() {
                        assert(w.contains(w[i]) == false ==> false);
                        assert(without(s, k)[j] == s.last());
                        if w[i] == s.last() {
                            assert(w.contains(s.last()));
                        }
                    } else {
                        assert(without(s, k)[i] == s.last());
                        if w[j] == s.last() {
                            assert(w.contains(s.last()));
                        }
                    }
                }
            }
        }
        if !s.contains(k) {
            assert(s.last() != k) by {
                assert(s[s.len() - 1] == s.last());
                if s.last() == k {
                    assert(s.contains(k));
                }
            }
            assert(!d.contains(k)) by {
                lemma_contains_drop_last(s, k);
            }
            assert(without(s, k) == d.push(s.last()));
            assert(without(s, k) =~= s);
        }
    }
}

/// One forward step of `without`, phrased over prefixes, for use as a
/// loop-invariant step.
pub proof fn lemma_without_step(s: Seq<u64>, k: u64, i: int)
    requires
        0 <= i < s.len(),
    ensures
        without(s.take(i + 1), k) == (if s[i] == k {
            without(s.take(i), k)
        } else {
            without(s.take(i), k).push(s[i])
        }),
{
    assert(s.take(i + 1).drop_last() =~= s.take(i));
    assert(s.take(i + 1).last() == s[i]);
}

/// Dropping the front of a duplicate-free sequence removes exactly its
/// front element.
pub proof fn lemma_drop_first_no_dup(s: Seq<u64>)
    requires
        s.len() > 0,
        s.no_duplicates(),
    ensures
        s.drop_first().no_duplicates(),
        forall|x: u64| #[trigger] s.drop_first().contains(x) <==> (s.contains(x) && x != s[0]),
{
    assert forall|x: u64| #[trigger] s.drop_first().contains(x) <==> (s.contains(x) && x
        != s[0]) by {
        if s.drop_first().contains(x) {
            let i = choose|i: int| 0 <= i < s.drop_first().len() && s.drop_first()[i] == x;
            assert(s[i + 1] == x);
        }
        if s.contains(x) && x != s[0] {
            let i = choose|i: int| 0 <= i < s.len() && s[i] == x;
            assert(s.drop_first()[i - 1] == x);
        }
    }
}

/// What pushing an element does to membership and distinctness.
pub proof fn lemma_push_val(s: Seq<u64>, v: u64)
    ensures
        forall|x: u64| #[trigger] s.push(v).contains(x) <==> (s.contains(x) || x == v),
        s.no_duplicates() && !s.contains(v) ==> s.push(v).no_duplicates(),
{
    assert forall|x: u64| #[trigger] s.push(v).contains(x) <==> (s.contains(x) || x == v) by {
        assert(s.push(v).drop_last() =~= s);
        lemma_contains_drop_last(s.push(v), x);
    }
    if s.no_duplicates() && !s.contains(v) {
        assert forall|i: int, j: int|
            0 <= i < s.push(v).len() && 0 <= j < s.push(v).len() && i != j implies s.push(v)[i]
            != s.push(v)[j] by {
            if i < s.len() && j < s.len() {
            } else if i < s.len() {
                if s[i] == v {
                    assert(s.contains(v));
                }
            } else if j < s.len() {
                if s[j] == v {
                    assert(s.contains(v));
                }
            }
        }
    }
}

/// What pushing an entry does to key membership and key distinctness.
pub proof fn lemma_push_key(s: Seq<(u64, u64)>, k: u64, t: u64)
    ensures
        forall|x: u64| has_key(s.push((k, t)), x) <==> (has_key(s, x) || x == k),
        keys_unique(s) && !has_key(s, k) ==> keys_unique(s.push((k, t))),
{
    assert forall|x: u64| has_key(s.push((k, t)), x) <==> (has_key(s, x) || x == k) by {
        assert(s.push((k, t)).drop_last() =~= s);
        lemma_has_key_drop_last(s.push((k, t)), x);
    }
    if keys_unique(s) && !has_key(s, k) {
        assert forall|i: int, j: int|
            0 <= i < j < s.push((k, t)).len() implies s.push((k, t))[i].0 != s.push(
            (k, t),
        )[j].0 by {
            if j < s.len() {
            } else {
                if s[i].0 == k {
                    assert(has_key(s, k));
                }
            }
        }
    }
}

/// What pushing an entry does to key membership and key distinctness.
pub proof fn lemma_push_entry(s: Seq<(u64, bool)>, k: u64, b: bool)
    ensures
        forall|x: u64|
            #![trigger has_entry(s.push((k, b)), x)]
            has_entry(s.push((k, b)), x) <==> (has_entry(s, x) || x == k),
        entry_keys_unique(s) && !has_entry(s, k) ==> entry_keys_unique(s.push((k, b))),
{
    assert forall|x: u64|
        #![trigger has_entry(s.push((k, b)), x)]
        has_entry(s.push((k, b)), x) <==> (has_entry(s, x) || x == k) by {
        assert(s.push((k, b)).drop_last() =~= s);
        lemma_has_entry_drop_last(s.push((k, b)), x);
        assert(s.push((k, b)).last().0 == k);
    }
    if entry_keys_unique(s) && !has_entry(s, k) {
        assert forall|i: int, j: int|
            0 <= i < j < s.push((k, b)).len() implies s.push((k, b))[i].0 != s.push(
            (k, b),
        )[j].0 by {
            if j < s.len() {
            } else {
                if s[i].0 == k {
                    assert(has_entry(s, k));
                }
            }
        }
    }
}

/// Reports whether `v` holds `k`.
pub fn vec_contains(v: &Vec<u64>, k: u64) -> (r: bool)
    ensures
        r == v@.contains(k),
{
    let mut i: usize = 0;
    while i < v.len()
        invariant
            i <= v.len(),
            forall|j: int| 0 <= j < i ==> v@[j] != k,
        decreases v.len() - i,
    {
        if v[i] == k {
            return true;
        }
        i += 1;
    }
    false
}

/// Returns `v` with every occurrence of `k` removed.
pub fn vec_without(v: &Vec<u64>, k: u64) -> (r: Vec<u64>)
    ensures
        r@ == without(v@, k),
{
    let mut r: Vec<u64> = Vec::new();
    let mut i: usize = 0;
    while i < v.len()
        invariant
            i <= v.len(),
            r@ == without(v@.take(i as int), k),
        decreases v.len() - i,
    {
        proof {
            lemma_without_step(v@, k, i as int);
        }
        if v[i] != k {
            r.push(v[i]);
        }
        i += 1;
    }
    proof {
        assert(v@.take(v@.len() as int) =~= v@);
    }
    r
}

/// Removes and returns the front element, if any.
pub fn vec_pop_front(v: &mut Vec<u64>) -> (r: Option<u64>)
    ensures
        match r {
            Some(x) => old(v)@.len() > 0 && x == old(v)@[0] && final(v)@ == old(v)@.drop_first(),
            None => old(v)@.len() == 0 && final(v)@ == old(v)@,
        },
{
    if v.len() == 0 {
        None
    } else {
        let x = v.remove(0);
        proof {
            assert(v@ =~= old(v)@.drop_first());
        }
        Some(x)
    }
}

// ------------------------------------------------------------------
// Sequences of key-stamp pairs: Seq<(u64, u64)>
// ------------------------------------------------------------------

/// Whether some entry of `s` carries the key `k`.
pub open spec fn has_key(s: Seq<(u64, u64)>, k: u64) -> bool {
    exists|i: int| 0 <= i < s.len() && s[i].0 == k
}

/// Key membership splits like element membership.
pub proof fn lemma_has_key_drop_last(s: Seq<(u64, u64)>, k: u64)
    requires
        s.len() > 0,
    ensures
        has_key(s, k) <==> (has_key(s.drop_last(), k) || s.last().0 == k),
{
    if has_key(s.drop_last(), k) {
        let i = choose|i: int| 0 <= i < s.drop_last().len() && s.drop_last()[i].0 == k;
        assert(s[i].0 == k);
    }
    if has_key(s, k) {
        let i = choose|i: int| 0 <= i < s.len() && s[i].0 == k;
        if i < s.len() - 1 {
            assert(s.drop_last()[i].0 == k);
        }
    }
}

/// No two entries of `s` carry the same key.
pub open spec fn keys_unique(s: Seq<(u64, u64)>) -> bool {
    forall|i: int, j: int| 0 <= i < j < s.len() ==> s[i].0 != s[j].0
}

/// The sequence `s` with every entry keyed `k` removed, order kept.
pub open spec fn without_key(s: Seq<(u64, u64)>, k: u64) -> Seq<(u64, u64)>
    decreases s.len(),
{
    if s.len() == 0 {
        Seq::empty()
    } else if s.last().0 == k {
        without_key(s.drop_last(), k)
    } else {
        without_key(s.drop_last(), k).push(s.last())
    }
}

pub proof fn lemma_without_key(s: Seq<(u64, u64)>, k: u64)
    ensures
        without_key(s, k).len() <= s.len(),
        forall|x: u64| has_key(without_key(s, k), x) <==> (has_key(s, x) && x != k),
        forall|e: (u64, u64)| #[trigger] without_key(s, k).contains(e) <==> (s.contains(e) && e.0
            != k),
        keys_unique(s) ==> keys_unique(without_key(s, k)),
        !has_key(s, k) ==> without_key(s, k) == s,
    decreases s.len(),
{
    if s.len() == 0 {
        assert(without_key(s, k) =~= s);
        assert forall|x: u64| has_key(without_key(s, k), x) implies (has_key(s, x) && x != k) by {
            assert(false);
        }
    } else {
        let d = s.drop_last();
        let w = without_key(d, k);
        lemma_without_key(d, k);
        assert forall|x: u64| has_key(without_key(s, k), x) <==> (has_key(s, x) && x != k) by {
            lemma_has_key_drop_last(s, x);
            if s.last().0 != k {
                assert(w.push(s.last()).drop_last() =~= w);
                lemma_has_key_drop_last(w.push(s.last()), x);
            }
        }
        assert forall|e: (u64, u64)| #[trigger] without_key(s, k).contains(e) <==> (s.contains(e)
            && e.0 != k) by {
            lemma_contains_drop_last(s, e);
            if s.last().0 != k {
                assert(w.push(s.last()).drop_last() =~= w);
                lemma_contains_drop_last(w.push(s.last()), e);
            }
        }
        if keys_unique(s) {
            assert(keys_unique(d));
            if s.last().0 != k {
                if has_key(w, s.last().0) {
                    assert(has_key(d, s.last().0));
                    let i = choose|i: int| 0 <= i < d.len() && d[i].0 == s.last().0;
                    assert(s[i].0 == s[s.len() - 1].0);
                    assert(false);
                }
                assert(without_key(s, k) == w.push(s.last()));
                assert forall|i: int, j: int|
                    0 <= i < j < without_key(s, k).len() implies without_key(s, k)[i].0
                    != without_key(s, k)[j].0 by {
                    if j < w.len() {
                        assert(w[i].0 != w[j].0);
                    } else {
                        assert(without_key(s, k)[j] == s.last());
                        if w[i].0 == s.last().0 {
                            assert(has_key(w, s.last().0));
                        }
                    }
                }
            }
        }
        if !has_key(s, k) {
            assert(s.last().0 != k) by {
                if s.last().0 == k {
                    assert(s[s.len() - 1].0 == k);
                    assert(has_key(s, k));
                }
            }
            assert(!has_key(d, k)) by {
                lemma_has_key_drop_last(s, k);
            }
            assert(without_key(s, k) == d.push(s.last()));
            assert(without_key(s, k) =~= s);
        }
    }
}

pub proof fn lemma_without_key_step(s: Seq<(u64, u64)>, k: u64, i: int)
    requires
        0 <= i < s.len(),
    ensures
        without_key(s.take(i + 1), k) == (if s[i].0 == k {
            without_key(s.take(i), k)
        } else {
            without_key(s.take(i), k).push(s[i])
        }),
{
    assert(s.take(i + 1).drop_last() =~= s.take(i));
    assert(s.take(i + 1).last() == s[i]);
}

/// The sequence `s` with every entry keyed `k` re-stamped to `t`.
pub open spec fn stamped(s: Seq<(u64, u64)>, k: u64, t: u64) -> Seq<(u64, u64)> {
    Seq::new(
        s.len(),
        |i: int|
            if s[i].0 == k {
                (k, t)
            } else {
                s[i]
            },
    )
}

pub proof fn lemma_stamped(s: Seq<(u64, u64)>, k: u64, t: u64)
    ensures
        stamped(s, k, t).len() == s.len(),
        forall|x: u64| has_key(stamped(s, k, t), x) <==> has_key(s, x),
        keys_unique(s) ==> keys_unique(stamped(s, k, t)),
{
    assert forall|x: u64| has_key(stamped(s, k, t), x) <==> has_key(s, x) by {
        assert(forall|i: int| 0 <= i < s.len() ==> #[trigger] stamped(s, k, t)[i].0 == s[i].0);
        if has_key(s, x) {
            let i = choose|i: int| 0 <= i < s.len() && s[i].0 == x;
            assert(stamped(s, k, t)[i].0 == x);
        }
        if has_key(stamped(s, k, t), x) {
            let i = choose|i: int| 0 <= i < stamped(s, k, t).len() && stamped(s, k, t)[i].0 == x;
            assert(s[i].0 == x);
        }
    }
    assert(forall|i: int| 0 <= i < s.len() ==> #[trigger] stamped(s, k, t)[i].0 == s[i].0);
}

/// The index of the first entry carrying the minimum stamp.
pub open spec fn min_stamp_idx(s: Seq<(u64, u64)>) -> int
    decreases s.len(),
{
    if s.len() <= 1 {
        0
    } else {
        let m = min_stamp_idx(s.drop_last());
        if s.last().1 < s[m].1 {
            s.len() - 1
        } else {
            m
        }
    }
}

pub proof fn lemma_min_stamp_idx(s: Seq<(u64, u64)>)
    requires
        s.len() > 0,
    ensures
        0 <= min_stamp_idx(s) < s.len(),
        forall|j: int| 0 <= j < s.len() ==> s[min_stamp_idx(s)].1 <= #[trigger] s[j].1,
    decreases s.len(),
{
    if s.len() > 1 {
        lemma_min_stamp_idx(s.drop_last());
        assert(forall|j: int| 0 <= j < s.len() - 1 ==> s.drop_last()[j] == #[trigger] s[j]);
    }
}

/// The index of the first entry carrying the maximum stamp.
pub open spec fn max_stamp_idx(s: Seq<(u64, u64)>) -> int
    decreases s.len(),
{
    if s.len() <= 1 {
        0
    } else {
        let m = max_stamp_idx(s.drop_last());
        if s.last().1 > s[m].1 {
            s.len() - 1
        } else {
            m
        }
    }
}

pub proof fn lemma_max_stamp_idx(s: Seq<(u64, u64)>)
    requires
        s.len() > 0,
    ensures
        0 <= max_stamp_idx(s) < s.len(),
        forall|j: int| 0 <= j < s.len() ==> s[max_stamp_idx(s)].1 >= #[trigger] s[j].1,
    decreases s.len(),
{
    if s.len() > 1 {
        lemma_max_stamp_idx(s.drop_last());
        assert(forall|j: int| 0 <= j < s.len() - 1 ==> s.drop_last()[j] == #[trigger] s[j]);
    }
}

/// Reports whether some entry of `v` carries the key `k`.
pub fn key_vec_has(v: &Vec<(u64, u64)>, k: u64) -> (r: bool)
    ensures
        r == has_key(v@, k),
{
    let mut i: usize = 0;
    while i < v.len()
        invariant
            i <= v.len(),
            forall|j: int| 0 <= j < i ==> v@[j].0 != k,
        decreases v.len() - i,
    {
        if v[i].0 == k {
            return true;
        }
        i += 1;
    }
    false
}

/// Returns `v` with every entry keyed `k` removed.
pub fn key_vec_without(v: &Vec<(u64, u64)>, k: u64) -> (r: Vec<(u64, u64)>)
    ensures
        r@ == without_key(v@, k),
{
    let mut r: Vec<(u64, u64)> = Vec::new();
    let mut i: usize = 0;
    while i < v.len()
        invariant
            i <= v.len(),
            r@ == without_key(v@.take(i as int), k),
        decreases v.len() - i,
    {
        proof {
            lemma_without_key_step(v@, k, i as int);
        }
        if v[i].0 != k {
            r.push(v[i]);
        }
        i += 1;
    }
    proof {
        assert(v@.take(v@.len() as int) =~= v@);
    }
    r
}

/// Re-stamps every entry keyed `k` to the stamp `t`, in place.
pub fn key_vec_stamp(v: &mut Vec<(u64, u64)>, k: u64, t: u64)
    ensures
        final(v)@ == stamped(old(v)@, k, t),
{
    let mut i: usize = 0;
    while i < v.len()
        invariant
            i <= v.len(),
            v@.len() == old(v)@.len(),
            forall|j: int| 0 <= j < i ==> v@[j] == #[trigger] stamped(old(v)@, k, t)[j],
            forall|j: int| i <= j < v@.len() ==> v@[j] == #[trigger] old(v)@[j],
        decreases v.len() - i,
    {
        if v[i].0 == k {
            let ghost prev = v@;
            v.set(i, (k, t));
        }
        i += 1;
    }
    proof {
        assert(v@ =~= stamped(old(v)@, k, t));
    }
}

/// The sequence `s` with the count of every entry keyed `k` bumped.
pub open spec fn bumped(s: Seq<(u64, u64)>, k: u64) -> Seq<(u64, u64)> {
    Seq::new(
        s.len(),
        |i: int|
            if s[i].0 == k {
                (k, bump(s[i].1))
            } else {
                s[i]
            },
    )
}

pub proof fn lemma_bumped(s: Seq<(u64, u64)>, k: u64)
    ensures
        bumped(s, k).len() == s.len(),
        forall|x: u64| has_key(bumped(s, k), x) <==> has_key(s, x),
        keys_unique(s) ==> keys_unique(bumped(s, k)),
{
    assert(forall|i: int| 0 <= i < s.len() ==> #[trigger] bumped(s, k)[i].0 == s[i].0);
    assert forall|x: u64| has_key(bumped(s, k), x) <==> has_key(s, x) by {
        if has_key(s, x) {
            let i = choose|i: int| 0 <= i < s.len() && s[i].0 == x;
            assert(bumped(s, k)[i].0 == x);
        }
        if has_key(bumped(s, k), x) {
            let i = choose|i: int| 0 <= i < bumped(s, k).len() && bumped(s, k)[i].0 == x;
            assert(s[i].0 == x);
        }
    }
}

/// Bumps the count of every entry keyed `k`, in place.
pub fn key_vec_bump(v: &mut Vec<(u64, u64)>, k: u64)
    ensures
        final(v)@ == bumped(old(v)@, k),
{
    let mut i: usize = 0;
    while i < v.len()
        invariant
            i <= v.len(),
            v@.len() == old(v)@.len(),
            forall|j: int| 0 <= j < i ==> v@[j] == #[trigger] bumped(old(v)@, k)[j],
            forall|j: int| i <= j < v@.len() ==> v@[j] == #[trigger] old(v)@[j],
        decreases v.len() - i,
    {
        if v[i].0 == k {
            let c = bump_exec(v[i].1);
            v.set(i, (k, c));
        }
        i += 1;
    }
    proof {
        assert(v@ =~= bumped(old(v)@, k));
    }
}

/// Returns the index of the first entry carrying the minimum stamp.
pub fn key_vec_min_idx(v: &Vec<(u64, u64)>) -> (r: usize)
    requires
        v@.len() > 0,
    ensures
        r as int == min_stamp_idx(v@),
{
    let mut best: usize = 0;
    let mut i: usize = 1;
    while i < v.len()
        invariant
            1 <= i <= v.len(),
            best < i,
            best as int == min_stamp_idx(v@.take(i as int)),
        decreases v.len() - i,
    {
        proof {
            assert(v@.take(i + 1).drop_last() =~= v@.take(i as int));
            assert(v@.take(i + 1).last() == v@[i as int]);
            lemma_min_stamp_idx(v@.take(i as int));
        }
        if v[i].1 < v[best].1 {
            best = i;
        }
        i += 1;
    }
    proof {
        assert(v@.take(v@.len() as int) =~= v@);
    }
    best
}

/// Returns the index of the first entry carrying the maximum stamp.
pub fn key_vec_max_idx(v: &Vec<(u64, u64)>) -> (r: usize)
    requires
        v@.len() > 0,
    ensures
        r as int == max_stamp_idx(v@),
{
    let mut best: usize = 0;
    let mut i: usize = 1;
    while i < v.len()
        invariant
            1 <= i <= v.len(),
            best < i,
            best as int == max_stamp_idx(v@.take(i as int)),
        decreases v.len() - i,
    {
        proof {
            assert(v@.take(i + 1).drop_last() =~= v@.take(i as int));
            assert(v@.take(i + 1).last() == v@[i as int]);
            lemma_max_stamp_idx(v@.take(i as int));
        }
        if v[i].1 > v[best].1 {
            best = i;
        }
        i += 1;
    }
    proof {
        assert(v@.take(v@.len() as int) =~= v@);
    }
    best
}

// ------------------------------------------------------------------
// Sequences of key-bit pairs: Seq<(u64, bool)>
// ------------------------------------------------------------------

/// Whether some entry of `s` carries the key `k`.
pub open spec fn has_entry(s: Seq<(u64, bool)>, k: u64) -> bool {
    exists|i: int| 0 <= i < s.len() && s[i].0 == k
}

pub proof fn lemma_has_entry_drop_last(s: Seq<(u64, bool)>, k: u64)
    requires
        s.len() > 0,
    ensures
        has_entry(s, k) <==> (has_entry(s.drop_last(), k) || s.last().0 == k),
{
    if has_entry(s.drop_last(), k) {
        let i = choose|i: int| 0 <= i < s.drop_last().len() && s.drop_last()[i].0 == k;
        assert(s[i].0 == k);
    }
    if has_entry(s, k) {
        let i = choose|i: int| 0 <= i < s.len() && s[i].0 == k;
        if i < s.len() - 1 {
            assert(s.drop_last()[i].0 == k);
        }
    }
}

/// No two entries of `s` carry the same key.
pub open spec fn entry_keys_unique(s: Seq<(u64, bool)>) -> bool {
    forall|i: int, j: int| 0 <= i < j < s.len() ==> s[i].0 != s[j].0
}

/// The sequence `s` with every entry keyed `k` removed, order kept.
pub open spec fn without_entry(s: Seq<(u64, bool)>, k: u64) -> Seq<(u64, bool)>
    decreases s.len(),
{
    if s.len() == 0 {
        Seq::empty()
    } else if s.last().0 == k {
        without_entry(s.drop_last(), k)
    } else {
        without_entry(s.drop_last(), k).push(s.last())
    }
}

pub proof fn lemma_without_entry(s: Seq<(u64, bool)>, k: u64)
    ensures
        without_entry(s, k).len() <= s.len(),
        forall|x: u64| has_entry(without_entry(s, k), x) <==> (has_entry(s, x) && x != k),
        entry_keys_unique(s) ==> entry_keys_unique(without_entry(s, k)),
        !has_entry(s, k) ==> without_entry(s, k) == s,
    decreases s.len(),
{
    if s.len() == 0 {
        assert(without_entry(s, k) =~= s);
        assert forall|x: u64| has_entry(without_entry(s, k), x) implies (has_entry(s, x) && x
            != k) by {
            assert(false);
        }
    } else {
        let d = s.drop_last();
        let w = without_entry(d, k);
        lemma_without_entry(d, k);
        assert forall|x: u64| has_entry(without_entry(s, k), x) <==> (has_entry(s, x) && x
            != k) by {
            lemma_has_entry_drop_last(s, x);
            if s.last().0 != k {
                assert(w.push(s.last()).drop_last() =~= w);
                lemma_has_entry_drop_last(w.push(s.last()), x);
            }
        }
        if entry_keys_unique(s) {
            assert(entry_keys_unique(d));
            if s.last().0 != k {
                if has_entry(w, s.last().0) {
                    assert(has_entry(d, s.last().0));
                    let i = choose|i: int| 0 <= i < d.len() && d[i].0 == s.last().0;
                    assert(s[i].0 == s[s.len() - 1].0);
                    assert(false);
                }
                assert(without_entry(s, k) == w.push(s.last()));
                assert forall|i: int, j: int|
                    0 <= i < j < without_entry(s, k).len() implies without_entry(s, k)[i].0
                    != without_entry(s, k)[j].0 by {
                    if j < w.len() {
                        assert(w[i].0 != w[j].0);
                    } else {
                        assert(without_entry(s, k)[j] == s.last());
                        if w[i].0 == s.last().0 {
                            assert(has_entry(w, s.last().0));
                        }
                    }
                }
            }
        }
        if !has_entry(s, k) {
            assert(s.last().0 != k) by {
                if s.last().0 == k {
                    assert(s[s.len() - 1].0 == k);
                    assert(has_entry(s, k));
                }
            }
            assert(!has_entry(d, k)) by {
                lemma_has_entry_drop_last(s, k);
            }
            assert(without_entry(s, k) == d.push(s.last()));
            assert(without_entry(s, k) =~= s);
        }
    }
}

pub proof fn lemma_without_entry_step(s: Seq<(u64, bool)>, k: u64, i: int)
    requires
        0 <= i < s.len(),
    ensures
        without_entry(s.take(i + 1), k) == (if s[i].0 == k {
            without_entry(s.take(i), k)
        } else {
            without_entry(s.take(i), k).push(s[i])
        }),
{
    assert(s.take(i + 1).drop_last() =~= s.take(i));
    assert(s.take(i + 1).last() == s[i]);
}

/// Reports whether some entry of `v` carries the key `k`.
pub fn entry_vec_has(v: &Vec<(u64, bool)>, k: u64) -> (r: bool)
    ensures
        r == has_entry(v@, k),
{
    let mut i: usize = 0;
    while i < v.len()
        invariant
            i <= v.len(),
            forall|j: int| 0 <= j < i ==> v@[j].0 != k,
        decreases v.len() - i,
    {
        if v[i].0 == k {
            return true;
        }
        i += 1;
    }
    false
}

/// Returns `v` with every entry keyed `k` removed.
pub fn entry_vec_without(v: &Vec<(u64, bool)>, k: u64) -> (r: Vec<(u64, bool)>)
    ensures
        r@ == without_entry(v@, k),
{
    let mut r: Vec<(u64, bool)> = Vec::new();
    let mut i: usize = 0;
    while i < v.len()
        invariant
            i <= v.len(),
            r@ == without_entry(v@.take(i as int), k),
        decreases v.len() - i,
    {
        proof {
            lemma_without_entry_step(v@, k, i as int);
        }
        if v[i].0 != k {
            r.push(v[i]);
        }
        i += 1;
    }
    proof {
        assert(v@.take(v@.len() as int) =~= v@);
    }
    r
}

} // verus!
