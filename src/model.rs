//! The abstract state of a cache, one step of its eviction pass, the pass
//! itself for every answer to whether a value is shared, and what holds of
//! every such pass.

use std::rc::Rc;
use vstd::prelude::*;

verus! {

/// The abstract state of a cache: its usage records from least to most
/// recently touched, its index from key to (value, multiplicity), the
/// number of resident keys and the configured maximum.
#[verifier::reject_recursive_types(K)]
pub ghost struct LruModel<K, V> {
    pub records: Seq<(Rc<K>, Rc<V>)>,
    pub index: Map<Rc<K>, (Rc<V>, usize)>,
    pub count: nat,
    pub max: nat,
}

/// How many usage records in `s` carry the key `k`.
pub open spec fn occurrences<K, V>(s: Seq<(Rc<K>, Rc<V>)>, k: Rc<K>) -> nat
    decreases s.len(),
{
    if s.len() == 0 {
        0
    } else {
        occurrences(s.drop_last(), k) + if s.last().0 == k {
            1nat
        } else {
            0nat
        }
    }
}

impl<K, V> LruModel<K, V> {
    /// Every indexed key has a positive multiplicity equal to the number of
    /// its records, every record's key is indexed, and the count is the
    /// number of indexed keys.
    pub open spec fn wf(self) -> bool {
        &&& self.index.dom().finite()
        &&& self.count == self.index.len()
        &&& forall|k: Rc<K>| #[trigger]
            self.index.contains_key(k) ==> self.index[k].1 >= 1 && self.index[k].1 as nat
                == occurrences(self.records, k)
        &&& forall|i: int|
            0 <= i < self.records.len() ==> self.index.contains_key(#[trigger] self.records[i].0)
    }
}

impl<K, V> LruModel<K, V> {
    /// The state right after `key` is touched with `value`, before the
    /// eviction pass: a record goes to the tail, and the key's multiplicity
    /// rises by one, or the key is indexed with multiplicity one.
    pub open spec fn touched(self, key: Rc<K>, value: Rc<V>) -> LruModel<K, V> {
        if self.index.contains_key(key) {
            LruModel {
                records: self.records.push((key, value)),
                index: self.index.insert(key, (self.index[key].0, (self.index[key].1 + 1) as usize)),
                ..self
            }
        } else {
            LruModel {
                records: self.records.push((key, value)),
                index: self.index.insert(key, (value, 1usize)),
                count: self.count + 1,
                ..self
            }
        }
    }
}

proof fn lemma_occurrences_push<K, V>(s: Seq<(Rc<K>, Rc<V>)>, r: (Rc<K>, Rc<V>), k: Rc<K>)
    ensures
        occurrences(s.push(r), k) == occurrences(s, k) + if r.0 == k {
            1nat
        } else {
            0nat
        },
{
    assert(s.push(r).drop_last() =~= s);
}

proof fn lemma_occurrences_drop_first<K, V>(s: Seq<(Rc<K>, Rc<V>)>, k: Rc<K>)
    requires
        s.len() > 0,
    ensures
        occurrences(s, k) == occurrences(s.drop_first(), k) + if s[0].0 == k {
            1nat
        } else {
            0nat
        },
    decreases s.len(),
{
    if s.len() > 1 {
        lemma_occurrences_drop_first(s.drop_last(), k);
        assert(s.drop_last().drop_first() =~= s.drop_first().drop_last());
        assert(s.drop_first().last() == s.last());
        assert(s.drop_last()[0] == s[0]);
    } else {
        assert(s.drop_first().len() == 0);
        assert(s.drop_last().len() == 0);
        assert(occurrences(s.drop_last(), k) == 0);
        assert(occurrences(s.drop_first(), k) == 0);
        assert(s.last() == s[0]);
    }
}

pub(crate) proof fn lemma_occurrences_le_len<K, V>(s: Seq<(Rc<K>, Rc<V>)>, k: Rc<K>)
    ensures
        occurrences(s, k) <= s.len(),
    decreases s.len(),
{
    if s.len() > 0 {
        lemma_occurrences_le_len(s.drop_last(), k);
    }
}

proof fn lemma_occurrences_witness<K, V>(s: Seq<(Rc<K>, Rc<V>)>, k: Rc<K>) -> (i: int)
    requires
        occurrences(s, k) > 0,
    ensures
        0 <= i < s.len(),
        s[i].0 == k,
    decreases s.len(),
{
    if s.last().0 == k {
        s.len() - 1
    } else {
        lemma_occurrences_witness(s.drop_last(), k)
    }
}

proof fn lemma_occurrences_zero<K, V>(s: Seq<(Rc<K>, Rc<V>)>, k: Rc<K>, i: int)
    requires
        occurrences(s, k) == 0,
        0 <= i < s.len(),
    ensures
        s[i].0 != k,
    decreases s.len(),
{
    if i < s.len() - 1 {
        lemma_occurrences_zero(s.drop_last(), k, i);
    }
}

impl<K, V> LruModel<K, V> {
    pub(crate) proof fn lemma_touched_wf(self, key: Rc<K>, value: Rc<V>)
        requires
            self.wf(),
            self.records.len() < usize::MAX,
        ensures
            self.touched(key, value).wf(),
    {
        let t = self.touched(key, value);
        lemma_occurrences_le_len(self.records, key);
        if !self.index.contains_key(key) && occurrences(self.records, key) > 0 {
            let i = lemma_occurrences_witness(self.records, key);
            assert(self.index.contains_key(self.records[i].0));
        }
        assert forall|k: Rc<K>| #[trigger] t.index.contains_key(k) implies t.index[k].1 >= 1
            && t.index[k].1 as nat == occurrences(t.records, k) by {
            lemma_occurrences_push(self.records, (key, value), k);
        }
        assert forall|i: int| 0 <= i < t.records.len() implies t.index.contains_key(
            #[trigger] t.records[i].0,
        ) by {
            if i < self.records.len() {
                assert(t.records[i] == self.records[i]);
            }
        }
    }

    /// The number of resident keys never exceeds the number of records.
    pub proof fn lemma_count_le_len(self)
        requires
            self.wf(),
        ensures
            self.count <= self.records.len(),
    {
        let ks = self.records.map_values(|r: (Rc<K>, Rc<V>)| r.0);
        ks.lemma_cardinality_of_set();
        assert forall|k: Rc<K>| self.index.dom().contains(k) implies ks.to_set().contains(k) by {
            let i = lemma_occurrences_witness(self.records, k);
            assert(ks[i] == k);
        }
        vstd::set_lib::lemma_len_subset(self.index.dom(), ks.to_set());
    }

    /// The head record's key, and what the three steps of the pass that
    /// consume it leave behind.
    pub open spec fn head_key(self) -> Rc<K> {
        self.records[0].0
    }

    pub open spec fn drop_stale(self) -> LruModel<K, V> {
        let k = self.head_key();
        LruModel {
            records: self.records.drop_first(),
            index: self.index.insert(k, (self.index[k].0, (self.index[k].1 - 1) as usize)),
            ..self
        }
    }

    pub open spec fn requeue(self) -> LruModel<K, V> {
        LruModel { records: self.records.drop_first().push(self.records[0]), ..self }
    }

    pub open spec fn evict(self) -> LruModel<K, V> {
        LruModel {
            records: self.records.drop_first(),
            index: self.index.remove(self.head_key()),
            count: (self.count - 1) as nat,
            ..self
        }
    }

    /// One step of the pass on the head record, given whether its value is
    /// shared outside the cache: a record whose key is not indexed is
    /// returned as it stands; a stale duplicate is dropped and its key's
    /// multiplicity falls by one; the last record of a key goes back to the
    /// tail if its value is shared, and is evicted and returned if not.
    pub open spec fn step(self, shared: bool) -> (LruModel<K, V>, Option<(Rc<K>, Rc<V>)>) {
        if !self.index.contains_key(self.head_key()) {
            (LruModel { records: self.records.drop_first(), ..self }, Some(self.records[0]))
        } else if self.index[self.head_key()].1 > 1 {
            (self.drop_stale(), None)
        } else if shared {
            (self.requeue(), None)
        } else {
            (self.evict(), Some(self.records[0]))
        }
    }

    /// A step leaves a well-formed state and evicts at most the head key.
    pub proof fn lemma_step(self, shared: bool)
        requires
            self.wf(),
            self.records.len() > 0,
        ensures
            self.step(shared).0.wf(),
            self.step(shared).0.records.len() <= self.records.len(),
            at_most_one_eviction(self, self.step(shared).0, self.step(shared).1),
    {
        self.lemma_steps_wf();
        let k = self.head_key();
        if self.index[k].1 > 1 {
            assert(self.drop_stale().index.dom() =~= self.index.dom());
        } else if !shared {
            assert(self.evict().index.dom() =~= self.index.dom().remove(k));
        }
    }

    proof fn lemma_steps_wf(self)
        requires
            self.wf(),
            self.records.len() > 0,
        ensures
            self.index.contains_key(self.head_key()),
            self.index[self.head_key()].1 > 1 ==> self.drop_stale().wf(),
            self.index[self.head_key()].1 == 1 ==> self.requeue().wf(),
            self.index[self.head_key()].1 == 1 ==> self.evict().wf(),
    {
        let k0 = self.head_key();
        let rest = self.records.drop_first();
        assert(self.index.contains_key(self.records[0].0));
        assert forall|k: Rc<K>| #[trigger] self.index.contains_key(k) implies occurrences(rest, k)
            == occurrences(self.records, k) - if k == k0 {
            1int
        } else {
            0int
        } by {
            lemma_occurrences_drop_first(self.records, k);
        }
        assert forall|i: int| 0 <= i < rest.len() implies self.index.contains_key(
            #[trigger] rest[i].0,
        ) by {
            assert(rest[i] == self.records[i + 1]);
        }
        if self.index[k0].1 > 1 {
            let d = self.drop_stale();
            assert forall|k: Rc<K>| #[trigger] d.index.contains_key(k) implies d.index[k].1 >= 1
                && d.index[k].1 as nat == occurrences(d.records, k) by {
                assert(self.index.contains_key(k));
            }
            assert forall|i: int| 0 <= i < d.records.len() implies d.index.contains_key(
                #[trigger] d.records[i].0,
            ) by {
                assert(self.index.contains_key(rest[i].0));
            }
        }
        if self.index[k0].1 == 1 {
            let q = self.requeue();
            assert forall|k: Rc<K>| #[trigger] q.index.contains_key(k) implies q.index[k].1 >= 1
                && q.index[k].1 as nat == occurrences(q.records, k) by {
                lemma_occurrences_push(rest, self.records[0], k);
            }
            assert forall|i: int| 0 <= i < q.records.len() implies q.index.contains_key(
                #[trigger] q.records[i].0,
            ) by {
                if i < rest.len() {
                    assert(q.records[i] == rest[i]);
                }
            }
            let e = self.evict();
            assert(occurrences(rest, k0) == 0);
            assert forall|i: int| 0 <= i < e.records.len() implies e.index.contains_key(
                #[trigger] e.records[i].0,
            ) by {
                lemma_occurrences_zero(rest, k0, i);
                assert(self.index.contains_key(rest[i].0));
            }
            assert forall|k: Rc<K>| #[trigger] e.index.contains_key(k) implies e.index[k].1 >= 1
                && e.index[k].1 as nat == occurrences(e.records, k) by {
                assert(self.index.contains_key(k));
            }
        }
    }
}

/// Whether the answer at step `it` says that the head value is shared
/// outside the cache; steps past the end of `pins` read "not shared".
pub open spec fn pinned_at(pins: Seq<bool>, it: nat) -> bool {
    it < pins.len() && pins[it as int]
}

/// The eviction pass from step `it` on. `pins` answers, step by step,
/// whether the head record's value is still shared outside the cache: that
/// is decided by handles the cache does not see, so every answer is
/// possible. The pass runs while `it` is below the number of records and
/// the count exceeds the maximum; it returns the state it leaves and the
/// record it evicted, if any.
pub open spec fn scan<K, V>(m: LruModel<K, V>, it: nat, pins: Seq<bool>) -> (LruModel<K, V>, Option<(Rc<K>, Rc<V>)>)
    decreases m.records.len() + 1 - it,
{
    if !(it < m.records.len() && m.count > m.max) {
        (m, None)
    } else {
        let (next, r) = m.step(pinned_at(pins, it));
        if r is Some {
            (next, r)
        } else {
            scan(next, it + 1, pins)
        }
    }
}

/// At most one key leaves the index, and only with the record returned:
/// with no record returned the resident keys and the count stay as they
/// were; with one, exactly its key leaves and the count drops by one. The
/// maximum never changes.
pub open spec fn at_most_one_eviction<K, V>(before: LruModel<K, V>, after: LruModel<K, V>, r: Option<(Rc<K>, Rc<V>)>) -> bool {
    &&& after.max == before.max
    &&& r is None ==> after.index.dom() == before.index.dom() && after.count == before.count
    &&& r matches Some(e) ==> {
        &&& before.index.contains_key(e.0)
        &&& after.index.dom() == before.index.dom().remove(e.0)
        &&& after.count + 1 == before.count
    }
}

/// What a pass leaves, whatever the answers: a well-formed state with the
/// same maximum, and either no eviction, or the eviction of one indexed key.
pub proof fn lemma_scan<K, V>(m: LruModel<K, V>, it: nat, pins: Seq<bool>)
    requires
        m.wf(),
    ensures
        scan(m, it, pins).0.wf(),
        at_most_one_eviction(m, scan(m, it, pins).0, scan(m, it, pins).1),
        m.count <= m.max ==> scan(m, it, pins) == (m, None::<(Rc<K>, Rc<V>)>),
    decreases m.records.len() + 1 - it,
{
    if it < m.records.len() && m.count > m.max {
        m.lemma_step(pinned_at(pins, it));
        if m.step(pinned_at(pins, it)).1 is None {
            lemma_scan(m.step(pinned_at(pins, it)).0, it + 1, pins);
        }
    }
}

/// Every resident key has exactly one usage record: what a history of
/// pushes of distinct keys leaves.
pub open spec fn no_stale_records<K, V>(m: LruModel<K, V>) -> bool {
    forall|k: Rc<K>| #[trigger] m.index.contains_key(k) ==> m.index[k].1 == 1
}

/// With no value shared outside the cache, pushing a new key into a cache
/// within its bound, where every key has one record, leaves the cache within
/// its bound, and still with one record per key.
pub proof fn lemma_distinct_push_stays_bounded<K, V>(m: LruModel<K, V>, key: Rc<K>, value: Rc<V>, pins: Seq<bool>)
    requires
        m.wf(),
        m.records.len() < usize::MAX,
        m.count <= m.max,
        no_stale_records(m),
        !m.index.contains_key(key),
        forall|j: nat| !#[trigger] pinned_at(pins, j),
    ensures
        scan(m.touched(key, value), 0, pins).0.wf(),
        scan(m.touched(key, value), 0, pins).0.count <= m.max,
        scan(m.touched(key, value), 0, pins).0.max == m.max,
        no_stale_records(scan(m.touched(key, value), 0, pins).0),
{
    let t = m.touched(key, value);
    m.lemma_touched_wf(key, value);
    lemma_scan(t, 0, pins);
    assert(no_stale_records(t));
    if t.count > t.max {
        t.lemma_steps_wf();
        assert(!pinned_at(pins, 0));
        assert(scan(t, 0, pins) == (t.evict(), Some(t.records[0])));
    }
}

/// `p` gives the answers that `answers` gives, at each of its steps.
pub open spec fn agrees(p: Seq<bool>, answers: Seq<bool>) -> bool {
    forall|j: nat| j < answers.len() ==> #[trigger] pinned_at(p, j) == answers[j as int]
}

pub(crate) proof fn lemma_agrees_push(answers: Seq<bool>, b: bool)
    ensures
        forall|p: Seq<bool>| #[trigger]
            agrees(p, answers.push(b)) ==> agrees(p, answers) && pinned_at(p, answers.len()) == b,
{
    assert forall|p: Seq<bool>| #[trigger] agrees(p, answers.push(b)) implies agrees(p, answers)
        && pinned_at(p, answers.len()) == b by {
        assert forall|j: nat| j < answers.len() implies #[trigger] pinned_at(p, j) == answers[j as int] by {
            assert(pinned_at(p, j) == answers.push(b)[j as int]);
        }
        assert(pinned_at(p, answers.len()) == answers.push(b)[answers.len() as int]);
    }
}

/// `after` and `r` are what one eviction pass on `before` can leave and
/// return, for some answers to the question whether a value is shared.
pub open spec fn collected<K, V>(before: LruModel<K, V>, after: LruModel<K, V>, r: Option<(Rc<K>, Rc<V>)>) -> bool {
    exists|pins: Seq<bool>| #[trigger] scan(before, 0, pins) == (after, r)
}

} // verus!
