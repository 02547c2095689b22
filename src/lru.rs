use std::collections::hash_map::RandomState;
use std::collections::{HashMap, VecDeque};
use std::hash::Hash;
use std::rc::Rc;
use vstd::prelude::*;
use crate::model::{
    agrees, at_most_one_eviction, collected, lemma_agrees_push, lemma_occurrences_le_len,
    lemma_scan, scan, LruModel,
};
use vstd::std_specs::hash::{builds_valid_hashers, obeys_key_model};

verus! {

broadcast use vstd::std_specs::hash::group_hash_axioms;

/// A `HashMap` keyed by `Rc<K>` acts as a map: `K`'s `Hash` and `Eq` agree,
/// which is what `obeys_key_model` states.
pub open spec fn keys_behave<K>() -> bool {
    obeys_key_model::<Rc<K>>() && builds_valid_hashers::<RandomState>()
}

/// Relies on Rc::clone: a second handle to the same allocation.
#[verifier::external_body]
fn share<T>(h: &Rc<T>) -> (r: Rc<T>)
    ensures
        r == *h,
{
    Rc::clone(h)
}

/// Relies on Rc::strong_count: the number of handles to the allocation,
/// `h` among them.
#[verifier::external_body]
fn strong_count<T>(h: &Rc<T>) -> (r: usize)
    ensures
        r >= 1,
{
    Rc::strong_count(h)
}

/// A cache of at most `max_items` keys, a soft bound: a key whose value is
/// still shared outside the cache is not reclaimed.
pub struct LRU<K, V> {
    list: VecDeque<(Rc<K>, Rc<V>)>,
    map: HashMap<Rc<K>, (Rc<V>, usize)>,
    num_items: usize,
    max_items: usize,
}

impl<K: Eq + Hash, V> LRU<K, V> {
    /// The cache's abstract state.
    pub closed spec fn model(&self) -> LruModel<K, V> {
        LruModel {
            records: self.list@,
            index: self.map@,
            count: self.num_items as nat,
            max: self.max_items as nat,
        }
    }

    /// The key type behaves as a hash key and the state keeps its invariants.
    pub open spec fn wf(&self) -> bool {
        keys_behave::<K>() && self.model().wf()
    }

    /// An empty cache that holds at most `max_items` keys.
    pub fn new(max_items: usize) -> (r: Self)
        requires
            keys_behave::<K>(),
        ensures
            r.wf(),
            r.model().records.len() == 0,
            r.model().index.is_empty(),
            r.model().count == 0,
            r.model().max == max_items,
    {
        let r = LRU { list: VecDeque::new(), map: HashMap::new(), num_items: 0, max_items };
        assert(r.model().index.dom() =~= Set::empty());
        r
    }

    /// Touches `key`: a usage record `(key, value)` goes to the tail; an
    /// indexed key's multiplicity rises by one, a new key is indexed with
    /// `value` and multiplicity one and counts as resident. Then, if the
    /// count exceeds the maximum, one eviction pass runs, and what it evicted
    /// is returned.
    ///
    /// A key keeps the value it was first indexed with: pushing it again with
    /// another value puts that value in the new record only.
    pub fn push(&mut self, key: Rc<K>, value: Rc<V>) -> (r: Option<(Rc<K>, Rc<V>)>)
        requires
            old(self).wf(),
            old(self).model().records.len() < usize::MAX,
        ensures
            final(self).wf(),
            collected(old(self).model().touched(key, value), final(self).model(), r),
            at_most_one_eviction(old(self).model().touched(key, value), final(self).model(), r),
            old(self).model().touched(key, value).count <= old(self).model().max ==> r is None
                && final(self).model() == old(self).model().touched(key, value),
    {
        let ghost m0 = self.model();
        let ghost k0 = key;
        let ghost v0 = value;
        proof {
            m0.lemma_touched_wf(key, value);
            m0.lemma_count_le_len();
            lemma_occurrences_le_len(m0.records, key);
        }
        match self.map.remove(&key) {
            Some(entry) => {
                let (stored, c) = entry;
                self.map.insert(share(&key), (stored, c + 1));
                self.list.push_back((key, value));
            },
            None => {
                self.list.push_back((share(&key), share(&value)));
                self.map.insert(key, (value, 1));
                self.num_items += 1;
            },
        }
        proof {
            assert(self.map@ =~= m0.touched(k0, v0).index);
            assert(self.model() == m0.touched(k0, v0));
        }
        self.maybe_gc()
    }

    /// Runs the eviction pass if the count exceeds the maximum; otherwise
    /// changes nothing and returns `None`.
    pub fn maybe_gc(&mut self) -> (r: Option<(Rc<K>, Rc<V>)>)
        requires
            old(self).wf(),
        ensures
            final(self).wf(),
            collected(old(self).model(), final(self).model(), r),
            at_most_one_eviction(old(self).model(), final(self).model(), r),
            old(self).model().count <= old(self).model().max ==> r is None && final(self).model()
                == old(self).model(),
    {
        if self.num_items > self.max_items {
            self.gc()
        } else {
            proof {
                lemma_scan(self.model(), 0, Seq::empty());
            }
            None
        }
    }

    /// The number of resident keys.
    pub fn num_items(&self) -> (r: usize)
        ensures
            r == self.model().count,
    {
        self.num_items
    }

    /// The maximum number of resident keys.
    pub fn max_items(&self) -> (r: usize)
        ensures
            r == self.model().max,
    {
        self.max_items
    }

    /// The number of usage records, stale duplicates included.
    pub fn list_len(&self) -> (r: usize)
        ensures
            r == self.model().records.len(),
    {
        self.list.len()
    }

    /// The number of index entries.
    pub fn map_len(&self) -> (r: usize)
        requires
            self.wf(),
        ensures
            r == self.model().index.len(),
    {
        self.map.len()
    }

    /// Whether `key` is resident.
    pub fn contains_key(&self, key: &Rc<K>) -> (r: bool)
        requires
            self.wf(),
        ensures
            r == self.model().index.contains_key(*key),
    {
        self.map.contains_key(key)
    }

    /// The multiplicity of `key`, if it is resident.
    pub fn multiplicity(&self, key: &Rc<K>) -> (r: Option<usize>)
        requires
            self.wf(),
        ensures
            r == if self.model().index.contains_key(*key) {
                Some(self.model().index[*key].1)
            } else {
                None::<usize>
            },
    {
        match self.map.get(key) {
            Some(entry) => Some(entry.1),
            None => None,
        }
    }

    /// One step of the eviction pass on the head record, given whether its
    /// value is shared outside the cache (see `LruModel::step`).
    pub fn collect_step(&mut self, shared: bool) -> (r: Option<(Rc<K>, Rc<V>)>)
        requires
            old(self).wf(),
            old(self).model().records.len() > 0,
        ensures
            final(self).wf(),
            (final(self).model(), r) == old(self).model().step(shared),
    {
        let ghost cur = self.model();
        proof {
            cur.lemma_step(shared);
        }
        let (key, value) = match self.list.pop_front() {
            Some(e) => e,
            None => {
                return None;
            },
        };
        match self.map.remove(&key) {
            None => Some((key, value)),
            Some(entry) => {
                let (stored, c) = entry;
                if c > 1 {
                    self.map.insert(key, (stored, c - 1));
                    proof {
                        assert(self.map@ =~= cur.drop_stale().index);
                        assert(self.list@ =~= cur.drop_stale().records);
                    }
                    None
                } else if shared {
                    self.map.insert(share(&key), (stored, c));
                    self.list.push_back((key, value));
                    proof {
                        assert(self.map@ =~= cur.index);
                        assert(self.list@ =~= cur.requeue().records);
                    }
                    None
                } else {
                    self.num_items -= 1;
                    proof {
                        assert(self.map@ =~= cur.evict().index);
                        assert(self.list@ =~= cur.evict().records);
                    }
                    Some((key, value))
                }
            },
        }
    }

    /// Whether the head record's value has a handle outside the cache:
    /// besides the record and the index entry, which hold one each.
    fn head_is_shared(&self) -> bool
        requires
            self.list@.len() > 0,
    {
        strong_count(&self.list[0].1) > 2
    }

    /// One eviction pass: from the head, stale duplicate records are
    /// dropped, records whose value is still shared outside the cache go
    /// back to the tail, and the first record that is neither is evicted and
    /// returned. It runs while the count exceeds the maximum, for at most as
    /// many steps as there are records.
    pub fn gc(&mut self) -> (r: Option<(Rc<K>, Rc<V>)>)
        requires
            old(self).wf(),
        ensures
            final(self).wf(),
            collected(old(self).model(), final(self).model(), r),
            at_most_one_eviction(old(self).model(), final(self).model(), r),
            old(self).model().count <= old(self).model().max ==> r is None && final(self).model()
                == old(self).model(),
    {
        let ghost m0 = self.model();
        let ghost mut answers: Seq<bool> = Seq::empty();
        let mut iterations: usize = 0;
        while iterations < self.list.len() && self.num_items > self.max_items
            invariant
                self.wf(),
                answers.len() == iterations,
                m0 == old(self).model(),
                m0.wf(),
                forall|p: Seq<bool>|
                    agrees(p, answers) ==> #[trigger] scan(m0, 0, p) == scan(
                        self.model(),
                        iterations as nat,
                        p,
                    ),
            decreases self.list@.len() + 1 - iterations,
        {
            let ghost cur = self.model();
            let ghost it = iterations as nat;
            iterations += 1;
            let shared = self.head_is_shared();
            let r = self.collect_step(shared);
            proof {
                lemma_agrees_push(answers, shared);
                answers = answers.push(shared);
                cur.lemma_step(shared);
            }
            if r.is_some() {
                proof {
                    assert(agrees(answers, answers));
                    lemma_scan(m0, 0, answers);
                }
                return r;
            }
        }
        proof {
            assert(agrees(answers, answers));
            lemma_scan(m0, 0, answers);
        }
        None
    }
}

} // verus!
