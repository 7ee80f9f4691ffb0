use std::collections::HashMap;
use std::collections::VecDeque;
use vstd::prelude::*;
use vstd::std_specs::hash::obeys_key_model;

use crate::key::HashKey;

verus! {

broadcast use vstd::std_specs::hash::group_hash_axioms;

/// A stamped record: a slot of the value store (holding a value) or a tag of
/// the order queue (holding a key).
struct GenHolder<T> {
    generation: usize,
    value: T,
}

/// Ordered hash map with queue-like ordering semantics.
///
/// Its model is the map of `slots` (each key's stamp and value), the sequence
/// of `tags` in the order queue, and the `generation` counter. A key is live
/// when its stamp is non-zero; a tag is current when its stamp is its key's
/// stamp, and stale otherwise. `peek_front` takes `&self` and leaves stale tags
/// in place; only `pop_front` discards them.
pub struct OrdHash<K, V> {
    map: HashMap<K, GenHolder<V>>,
    order: VecDeque<GenHolder<K>>,
    generation: usize,
    length: usize,
}

impl<K: HashKey, V> OrdHash<K, V> {
    /// Each key's slot: its stamp (0 when disabled) and its stored value.
    pub closed spec fn slots(&self) -> Map<K, (nat, V)> {
        Map::new(
            |k: K| self.map@.contains_key(k),
            |k: K| (self.map@[k].generation as nat, self.map@[k].value),
        )
    }

    /// The order queue, front first: each tag's key and stamp.
    pub closed spec fn tags(&self) -> Seq<(K, nat)> {
        self.order@.map_values(|t: GenHolder<K>| (t.value, t.generation as nat))
    }

    /// The generation counter: the last stamp handed out.
    pub closed spec fn generation(&self) -> nat {
        self.generation as nat
    }

    /// The live count as stored.
    closed spec fn count(&self) -> nat {
        self.length as nat
    }

    /// The stored live count is the number of live keys and stays within the
    /// counter; every stamp is at most the counter; tag stamps are non-zero and
    /// strictly increase from front to back; every live key has a current tag.
    pub closed spec fn wf(&self) -> bool {
        &&& self.length <= self.generation
        &&& self.count() == self.live_keys().len()
        &&& forall|k: K| #[trigger]
            self.slots().contains_key(k) ==> self.slots()[k].0 <= self.generation()
        &&& forall|i: int|
            0 <= i < self.tags().len() ==> 0 < #[trigger] self.tags()[i].1 <= self.generation()
        &&& forall|i: int, j: int|
            0 <= i < j < self.tags().len() ==> #[trigger] self.tags()[i].1
                < #[trigger] self.tags()[j].1
        &&& forall|k: K| #[trigger]
            self.is_live(k) ==> exists|i: int|
                0 <= i < self.tags().len() && #[trigger] self.tags()[i] == (k, self.slots()[k].0)
    }

    /// `k` has a slot with a non-zero stamp.
    pub open spec fn is_live(&self, k: K) -> bool {
        self.slots().contains_key(k) && self.slots()[k].0 != 0
    }

    /// The keys whose slot holds a non-zero stamp.
    pub open spec fn live_keys(&self) -> Set<K> {
        self.slots().dom().filter(|k: K| self.slots()[k].0 != 0)
    }

    /// The tag at index `i` carries its key's current stamp.
    pub open spec fn tag_is_current(&self, i: int) -> bool {
        &&& self.slots().contains_key(self.tags()[i].0)
        &&& self.slots()[self.tags()[i].0].0 == self.tags()[i].1
    }

    /// `after` and `r` are what `pop_front` leaves and returns on `self`: the
    /// live entry with the smallest stamp is removed and returned, together
    /// with every tag up to and including its own; with no live entry, the
    /// queue is emptied and `None` returned.
    pub open spec fn pops(&self, after: Self, r: Option<(K, V)>) -> bool {
        &&& after.generation() == self.generation()
        &&& match r {
            Option::None => {
                &&& self.live_keys() == Set::<K>::empty()
                &&& after.slots() == self.slots()
                &&& after.tags() == Seq::<(K, nat)>::empty()
            },
            Option::Some((k, v)) => {
                &&& self.is_live(k)
                &&& self.slots()[k].1 == v
                &&& forall|k2: K|
                    #![trigger self.is_live(k2)]
                    self.is_live(k2) && k2 != k ==> self.slots()[k].0 < self.slots()[k2].0
                &&& after.slots() == self.slots().remove(k)
                &&& exists|i: int|
                    #![trigger self.tags()[i]]
                    0 <= i < self.tags().len() && self.tags()[i] == (k, self.slots()[k].0)
                        && after.tags() == self.tags().skip(i + 1)
            },
        }
    }

    proof fn lemma_live_keys_finite(&self)
        ensures
            self.slots().dom() == self.map@.dom(),
            self.slots().dom().finite(),
            self.live_keys().finite(),
    {
        assert(self.slots().dom() =~= self.map@.dom());
        vstd::set_lib::lemma_len_subset(self.live_keys(), self.slots().dom());
    }

    /// What well-formedness guarantees of the model: the live keys form a
    /// finite set; every slot stamp is at most the counter; tag stamps are
    /// non-zero, at most the counter, and strictly increase from front to back;
    /// every live key has a tag carrying its current stamp.
    pub proof fn lemma_wf_facts(&self)
        requires
            self.wf(),
        ensures
            self.slots().dom().finite(),
            self.live_keys().finite(),
            forall|k: K| #[trigger]
                self.slots().contains_key(k) ==> self.slots()[k].0 <= self.generation(),
            forall|i: int|
                0 <= i < self.tags().len() ==> 0 < #[trigger] self.tags()[i].1
                    <= self.generation(),
            forall|i: int, j: int|
                0 <= i < j < self.tags().len() ==> #[trigger] self.tags()[i].1
                    < #[trigger] self.tags()[j].1,
            forall|k: K| #[trigger]
                self.is_live(k) ==> exists|i: int|
                    0 <= i < self.tags().len() && #[trigger] self.tags()[i] == (
                        k,
                        self.slots()[k].0,
                    ),
    {
        self.lemma_live_keys_finite();
    }

    /// The live keys and live order after `push_back`.
    proof fn lemma_pushes_back_effects(m0: Self, m1: Self, key: K, value: V)
        requires
            m0.wf(),
            m0.pushes_back(m1, key, value),
        ensures
            m1.live_keys() == m0.live_keys().insert(key),
            m1.live_keys().len() == m0.live_keys().len() + (if m0.is_live(key) {
                0int
            } else {
                1int
            }),
            forall|k2: K|
                #![trigger m1.is_live(k2)]
                m1.is_live(k2) && k2 != key ==> m1.slots()[k2].0 < m1.slots()[key].0,
    {
        m0.lemma_live_keys_finite();
        assert(m1.live_keys() =~= m0.live_keys().insert(key));
        assert forall|k2: K|
            #![trigger m1.is_live(k2)]
            m1.is_live(k2) && k2 != key implies m1.slots()[k2].0 < m1.slots()[key].0 by {
            assert(m0.slots().contains_key(k2));
        }
    }

    /// The first current tag names the live key with the smallest stamp; every
    /// other live key's current tag stands after it.
    proof fn lemma_first_current(&self, n: int)
        requires
            self.wf(),
            0 <= n < self.tags().len(),
            self.tag_is_current(n),
            forall|j: int| 0 <= j < n ==> !#[trigger] self.tag_is_current(j),
        ensures
            self.is_live(self.tags()[n].0),
            self.tags()[n] == (self.tags()[n].0, self.slots()[self.tags()[n].0].0),
            forall|k2: K| #[trigger]
                self.is_live(k2) && k2 != self.tags()[n].0 ==> exists|j: int|
                    n < j < self.tags().len() && #[trigger] self.tags()[j] == (
                        k2,
                        self.slots()[k2].0,
                    ),
            forall|k2: K|
                #![trigger self.is_live(k2)]
                self.is_live(k2) && k2 != self.tags()[n].0 ==> self.slots()[self.tags()[n].0].0
                    < self.slots()[k2].0,
    {
        let k = self.tags()[n].0;
        assert forall|k2: K| #[trigger] self.is_live(k2) && k2 != k implies exists|j: int|
            n < j < self.tags().len() && #[trigger] self.tags()[j] == (k2, self.slots()[k2].0) by {
            let j = choose|j: int|
                0 <= j < self.tags().len() && #[trigger] self.tags()[j] == (k2, self.slots()[k2].0);
            assert(self.tag_is_current(j));
            assert(j != n);
        }
        assert forall|k2: K| #[trigger]
            self.is_live(k2) && k2 != k implies self.slots()[k].0 < self.slots()[k2].0 by {
            let j = choose|j: int|
                n < j < self.tags().len() && #[trigger] self.tags()[j] == (k2, self.slots()[k2].0);
            assert(self.tags()[n].1 < self.tags()[j].1);
        }
    }

    /// Without a current tag there is no live key.
    proof fn lemma_no_current(&self)
        requires
            self.wf(),
            forall|j: int| 0 <= j < self.tags().len() ==> !#[trigger] self.tag_is_current(j),
        ensures
            self.live_keys() == Set::<K>::empty(),
    {
        assert forall|k: K| !self.live_keys().contains(k) by {
            if self.live_keys().contains(k) {
                assert(self.is_live(k));
                let j = choose|j: int|
                    0 <= j < self.tags().len() && #[trigger] self.tags()[j] == (k, self.slots()[k].0);
                assert(self.tag_is_current(j));
            }
        }
        assert(self.live_keys() =~= Set::<K>::empty());
    }

    /// Well-formedness depends on the model and the stored counts alone.
    proof fn lemma_wf_same_model(&self, pre: Self)
        requires
            pre.wf(),
            self.slots() == pre.slots(),
            self.tags() == pre.tags(),
            self.generation == pre.generation,
            self.length == pre.length,
        ensures
            self.wf(),
    {
        assert(self.live_keys() =~= pre.live_keys());
        assert forall|k: K| #[trigger] self.is_live(k) implies exists|i: int|
            0 <= i < self.tags().len() && #[trigger] self.tags()[i] == (k, self.slots()[k].0) by {
            assert(pre.is_live(k));
        }
    }

    /// The state left by `pop_front` when the first current tag stands at `n`.
    proof fn lemma_pop_found(&self, pre: Self, n: int)
        requires
            pre.wf(),
            0 <= n < pre.tags().len(),
            pre.tag_is_current(n),
            forall|j: int| 0 <= j < n ==> !#[trigger] pre.tag_is_current(j),
            self.map@ == pre.map@.remove(pre.tags()[n].0),
            self.tags() == pre.tags().skip(n + 1),
            self.generation == pre.generation,
            self.length == pre.length - 1,
        ensures
            self.wf(),
            pre.pops(*self, Option::Some((pre.tags()[n].0, pre.slots()[pre.tags()[n].0].1))),
    {
        let k = pre.tags()[n].0;
        pre.lemma_live_keys_finite();
        self.lemma_live_keys_finite();
        pre.lemma_first_current(n);
        assert(self.slots() =~= pre.slots().remove(k));
        assert(self.live_keys() =~= pre.live_keys().remove(k));
        assert forall|k2: K| #[trigger] self.is_live(k2) implies exists|i: int|
            0 <= i < self.tags().len() && #[trigger] self.tags()[i] == (k2, self.slots()[k2].0) by {
            assert(pre.is_live(k2) && k2 != k);
            let j = choose|j: int|
                n < j < pre.tags().len() && #[trigger] pre.tags()[j] == (k2, pre.slots()[k2].0);
            assert(self.tags()[j - n - 1] == pre.tags()[j]);
        }
        assert forall|i: int, j: int|
            0 <= i < j < self.tags().len() implies #[trigger] self.tags()[i].1
                < #[trigger] self.tags()[j].1 by {
            assert(self.tags()[i] == pre.tags()[i + n + 1]);
            assert(self.tags()[j] == pre.tags()[j + n + 1]);
        }
        assert forall|i: int|
            0 <= i < self.tags().len() implies 0 < #[trigger] self.tags()[i].1
                <= self.generation() by {
            assert(self.tags()[i] == pre.tags()[i + n + 1]);
        }
        assert(pre.tags()[n] == (k, pre.slots()[k].0));
    }

    /// Creates a new empty `OrdHash`.
    pub fn new() -> (r: Self)
        ensures
            r.wf(),
            r.slots() == Map::<K, (nat, V)>::empty(),
            r.tags() == Seq::<(K, nat)>::empty(),
            r.generation() == 0,
    {
        let r = OrdHash { map: HashMap::new(), order: VecDeque::new(), generation: 0, length: 0 };
        proof {
            assert(r.slots() =~= Map::<K, (nat, V)>::empty());
            assert(r.tags() =~= Seq::<(K, nat)>::empty());
            assert(r.live_keys() =~= Set::<K>::empty());
        }
        r
    }

    /// `after` is what `push_back(key, value)` leaves of `self`: the key's slot
    /// holds `value` under the next stamp, and a tag with that stamp stands at
    /// the back of the queue.
    pub open spec fn pushes_back(&self, after: Self, key: K, value: V) -> bool {
        &&& after.generation() == self.generation() + 1
        &&& after.slots() == self.slots().insert(key, (after.generation(), value))
        &&& after.tags() == self.tags().push((key, after.generation()))
    }

    /// Inserts `key` with `value`, or replaces its value, and moves the key to
    /// the back of the order with a fresh stamp. The key is live afterwards.
    pub fn push_back(&mut self, key: K, value: V)
        requires
            old(self).wf(),
            old(self).generation() < usize::MAX,
        ensures
            final(self).wf(),
            old(self).pushes_back(*final(self), key, value),
            final(self).live_keys() == old(self).live_keys().insert(key),
            final(self).live_keys().len() == old(self).live_keys().len()
                + (if old(self).is_live(key) { 0int } else { 1int }),
            forall|k2: K|
                #![trigger final(self).is_live(k2)]
                final(self).is_live(k2) && k2 != key ==> final(self).slots()[k2].0
                    < final(self).slots()[key].0,
    {
        proof {
            K::lemma_key_model();
            self.lemma_live_keys_finite();
        }
        let ghost pre = *self;
        self.generation = self.generation + 1;
        let g = self.generation;
        let prev = self.map.insert(key, GenHolder { generation: g, value });
        match prev {
            Option::None => {
                self.length = self.length + 1;
            },
            Option::Some(h) => {
                if h.generation == 0 {
                    self.length = self.length + 1;
                }
            },
        }
        self.order.push_back(GenHolder { generation: g, value: key });
        proof {
            assert(self.slots() =~= pre.slots().insert(key, (g as nat, value)));
            assert(self.tags() =~= pre.tags().push((key, g as nat)));
            assert(self.live_keys() =~= pre.live_keys().insert(key));
            self.lemma_live_keys_finite();
            assert forall|k: K| #[trigger] self.is_live(k) implies exists|i: int|
                0 <= i < self.tags().len() && #[trigger] self.tags()[i] == (k, self.slots()[k].0) by {
                if k == key {
                    assert(self.tags()[pre.tags().len() as int] == (k, self.slots()[k].0));
                } else {
                    assert(pre.is_live(k));
                    let i = choose|i: int|
                        0 <= i < pre.tags().len() && #[trigger] pre.tags()[i] == (k, pre.slots()[k].0);
                    assert(self.tags()[i] == (k, self.slots()[k].0));
                }
            }
            Self::lemma_pushes_back_effects(pre, *self, key, value);
        }
    }

    /// Scans from the front for the first current tag, discarding every tag it
    /// passes.
    fn pop_front_scan(&mut self) -> (r: Option<(K, V)>)
        requires
            old(self).wf(),
        ensures
            final(self).wf(),
            old(self).pops(*final(self), r),
    {
        proof {
            K::lemma_key_model();
            self.lemma_live_keys_finite();
        }
        let ghost pre = *self;
        let ghost mut n: int = 0;
        loop
            invariant
                pre == *old(self),
                pre.wf(),
                self.map == pre.map,
                self.generation == pre.generation,
                self.length == pre.length,
                0 <= n <= pre.tags().len(),
                self.tags() == pre.tags().skip(n),
                forall|j: int| 0 <= j < n ==> !#[trigger] pre.tag_is_current(j),
            decreases self.order@.len(),
        {
            proof {
                K::lemma_key_model();
            }
            let ghost before = *self;
            let popped = self.order.pop_front();
            match popped {
                Option::None => {
                    proof {
                        assert(before.tags().len() == 0);
                        assert(n == pre.tags().len());
                        pre.lemma_no_current();
                        assert(self.tags() =~= Seq::<(K, nat)>::empty());
                        assert(self.slots() =~= pre.slots());
                        assert(self.live_keys() =~= pre.live_keys());
                        assert(self.count() == 0);
                        assert forall|k: K| !self.is_live(k) by {
                            if self.is_live(k) {
                                assert(self.live_keys().contains(k));
                            }
                        }
                    }
                    return Option::None;
                },
                Option::Some(tag) => {
                    proof {
                        assert(before.tags().len() > 0);
                        assert(before.tags()[0] == (tag.value, tag.generation as nat));
                        assert(pre.tags()[n] == before.tags()[0]);
                        assert(self.tags() =~= before.tags().skip(1));
                    }
                    let matched = match self.map.get(&tag.value) {
                        Option::Some(vh) => vh.generation == tag.generation,
                        Option::None => false,
                    };
                    if matched {
                        let removed = self.map.remove(&tag.value);
                        match removed {
                            Option::Some(vh) => {
                                proof {
                                    assert(pre.tag_is_current(n));
                                    assert(pre.live_keys().contains(tag.value));
                                    pre.lemma_live_keys_finite();
                                }
                                self.length = self.length - 1;
                                proof {
                                    assert(self.tags() =~= pre.tags().skip(n + 1));
                                    self.lemma_pop_found(pre, n);
                                    assert(vh == pre.map@[tag.value]);
                                }
                                return Option::Some((tag.value, vh.value));
                            },
                            Option::None => {
                                proof {
                                    assert(false);
                                }
                                return Option::None;
                            },
                        }
                    }
                    proof {
                        assert(!pre.tag_is_current(n));
                        n = n + 1;
                        assert(self.tags() =~= pre.tags().skip(n));
                    }
                },
            }
        }
    }

    /// Returns the oldest live entry without removing it. Stale tags at the
    /// front are skipped and left in place.
    pub fn peek_front(&self) -> (r: Option<(&K, &V)>)
        requires
            self.wf(),
        ensures
            match r {
                Option::None => self.live_keys() == Set::<K>::empty() && self.live_keys().len()
                    == 0,
                Option::Some((k, v)) => {
                    &&& self.is_live(*k)
                    &&& *v == self.slots()[*k].1
                    &&& self.live_keys().len() > 0
                    &&& forall|k2: K|
                        #![trigger self.is_live(k2)]
                        self.is_live(k2) && k2 != *k ==> self.slots()[*k].0 < self.slots()[k2].0
                },
            },
    {
        proof {
            K::lemma_key_model();
        }
        let mut i: usize = 0;
        while i < self.order.len()
            invariant
                self.wf(),
                obeys_key_model::<K>(),
                0 <= i <= self.tags().len(),
                self.tags().len() == self.order@.len(),
                forall|j: int| 0 <= j < i ==> !#[trigger] self.tag_is_current(j),
            decreases self.order@.len() - i,
        {
            let tag = &self.order[i];
            proof {
                assert(self.tags()[i as int] == (tag.value, tag.generation as nat));
            }
            match self.map.get(&tag.value) {
                Option::Some(vh) => {
                    if vh.generation == tag.generation {
                        proof {
                            assert(self.tag_is_current(i as int));
                            self.lemma_first_current(i as int);
                            self.lemma_live_keys_finite();
                            assert(self.live_keys().contains(tag.value));
                        }
                        return Option::Some((&tag.value, &vh.value));
                    }
                },
                Option::None => {},
            }
            proof {
                assert(!self.tag_is_current(i as int));
            }
            i = i + 1;
        }
        proof {
            self.lemma_no_current();
        }
        Option::None
    }

    /// Returns the value of `key` if it is live.
    pub fn get(&self, key: &K) -> (r: Option<&V>)
        requires
            self.wf(),
        ensures
            match r {
                Option::None => !self.is_live(*key),
                Option::Some(v) => self.is_live(*key) && *v == self.slots()[*key].1,
            },
    {
        proof {
            K::lemma_key_model();
        }
        match self.map.get(key) {
            Option::Some(vh) => {
                if vh.generation != 0 {
                    return Option::Some(&vh.value);
                }
                Option::None
            },
            Option::None => Option::None,
        }
    }

    /// `after` and `r` are what `mark_unused(key)` leaves and returns on
    /// `self`: a live key gets stamp 0 and keeps its value, which is returned;
    /// otherwise nothing changes and `None` is returned.
    pub open spec fn marks_unused(&self, after: Self, key: K, r: Option<&V>) -> bool {
        &&& after.tags() == self.tags()
        &&& after.generation() == self.generation()
        &&& match r {
            Option::Some(v) => {
                &&& self.is_live(key)
                &&& *v == self.slots()[key].1
                &&& after.slots() == self.slots().insert(key, (0nat, self.slots()[key].1))
            },
            Option::None => {
                &&& !self.is_live(key)
                &&& after.slots() == self.slots()
            },
        }
    }

    /// Disables `key` without removing its value, and returns that value. A
    /// missing or already disabled key gives `None` and changes nothing.
    pub fn mark_unused(&mut self, key: &K) -> (r: Option<&V>)
        requires
            old(self).wf(),
        ensures
            final(self).wf(),
            old(self).marks_unused(*final(self), *key, r),
            r is Some ==> final(self).live_keys() == old(self).live_keys().remove(*key),
            r is Some ==> final(self).live_keys().len() + 1 == old(self).live_keys().len(),
            r is None ==> final(self).live_keys() == old(self).live_keys(),
    {
        proof {
            K::lemma_key_model();
            self.lemma_live_keys_finite();
        }
        let ghost pre = *self;
        let live = match self.map.get(key) {
            Option::Some(vh) => vh.generation != 0,
            Option::None => false,
        };
        if !live {
            return Option::None;
        }
        let removed = self.map.remove(key);
        match removed {
            Option::Some(vh) => {
                proof {
                    assert(pre.live_keys().contains(*key));
                    assert(pre.live_keys().remove(*key).len() == pre.live_keys().len() - 1);
                }
                self.map.insert(*key, GenHolder { generation: 0, value: vh.value });
                self.length = self.length - 1;
                proof {
                    assert(self.tags() == pre.tags());
                    assert(self.slots() =~= pre.slots().insert(*key, (0nat, pre.slots()[*key].1)));
                    assert(self.live_keys() =~= pre.live_keys().remove(*key));
                    self.lemma_live_keys_finite();
                    assert forall|k: K| #[trigger] self.is_live(k) implies exists|i: int|
                        0 <= i < self.tags().len() && #[trigger] self.tags()[i] == (
                            k,
                            self.slots()[k].0,
                        ) by {
                        assert(pre.is_live(k));
                        let i = choose|i: int|
                            0 <= i < pre.tags().len() && #[trigger] pre.tags()[i] == (
                                k,
                                pre.slots()[k].0,
                            );
                        assert(self.tags()[i] == (k, self.slots()[k].0));
                    }
                }
                match self.map.get(key) {
                    Option::Some(h) => Option::Some(&h.value),
                    Option::None => {
                        proof {
                            assert(false);
                        }
                        Option::None
                    },
                }
            },
            Option::None => {
                proof {
                    assert(false);
                }
                Option::None
            },
        }
    }

    /// `after` and `r` are what `refresh(key)` leaves and returns on `self`: a
    /// key with a slot gets the next stamp and a new tag at the back, keeps its
    /// value, which is returned, and is live; a key without a slot gives `None`
    /// and changes nothing.
    pub open spec fn refreshes(&self, after: Self, key: K, r: Option<&V>) -> bool {
        match r {
            Option::Some(v) => {
                &&& self.slots().contains_key(key)
                &&& *v == self.slots()[key].1
                &&& after.generation() == self.generation() + 1
                &&& after.slots() == self.slots().insert(
                    key,
                    (after.generation(), self.slots()[key].1),
                )
                &&& after.tags() == self.tags().push((key, after.generation()))
            },
            Option::None => {
                &&& !self.slots().contains_key(key)
                &&& after.slots() == self.slots()
                &&& after.tags() == self.tags()
                &&& after.generation() == self.generation()
            },
        }
    }

    /// Re-enables `key` if it was disabled and moves it to the back of the
    /// order with a fresh stamp; returns its value. A key without a slot gives
    /// `None` and changes nothing.
    pub fn refresh(&mut self, key: &K) -> (r: Option<&V>)
        requires
            old(self).wf(),
            old(self).slots().contains_key(*key) ==> old(self).generation() < usize::MAX,
        ensures
            final(self).wf(),
            old(self).refreshes(*final(self), *key, r),
            r is Some ==> final(self).live_keys() == old(self).live_keys().insert(*key),
            r is Some ==> final(self).live_keys().len() == old(self).live_keys().len()
                + (if old(self).is_live(*key) { 0int } else { 1int }),
            r is Some ==> forall|k2: K|
                #![trigger final(self).is_live(k2)]
                final(self).is_live(k2) && k2 != *key ==> final(self).slots()[k2].0
                    < final(self).slots()[*key].0,
            r is None ==> final(self).live_keys() == old(self).live_keys(),
    {
        proof {
            K::lemma_key_model();
            self.lemma_live_keys_finite();
        }
        let ghost pre = *self;
        let removed = self.map.remove(key);
        match removed {
            Option::Some(vh) => {
                if vh.generation == 0 {
                    self.length = self.length + 1;
                }
                self.generation = self.generation + 1;
                let g = self.generation;
                self.map.insert(*key, GenHolder { generation: g, value: vh.value });
                self.order.push_back(GenHolder { generation: g, value: *key });
                proof {
                    let k0 = *key;
                    assert(self.slots() =~= pre.slots().insert(k0, (g as nat, pre.slots()[k0].1)));
                    assert(self.tags() =~= pre.tags().push((k0, g as nat)));
                    assert(self.live_keys() =~= pre.live_keys().insert(k0));
                    self.lemma_live_keys_finite();
                    assert forall|k: K| #[trigger] self.is_live(k) implies exists|i: int|
                        0 <= i < self.tags().len() && #[trigger] self.tags()[i] == (
                            k,
                            self.slots()[k].0,
                        ) by {
                        if k == k0 {
                            assert(self.tags()[pre.tags().len() as int] == (k, self.slots()[k].0));
                        } else {
                            assert(pre.is_live(k));
                            let i = choose|i: int|
                                0 <= i < pre.tags().len() && #[trigger] pre.tags()[i] == (
                                    k,
                                    pre.slots()[k].0,
                                );
                            assert(self.tags()[i] == (k, self.slots()[k].0));
                        }
                    }
                }
                match self.map.get(key) {
                    Option::Some(h) => Option::Some(&h.value),
                    Option::None => {
                        proof {
                            assert(false);
                        }
                        Option::None
                    },
                }
            },
            Option::None => {
                proof {
                    assert(self.slots() =~= pre.slots());
                    self.lemma_wf_same_model(pre);
                }
                Option::None
            },
        }
    }

    /// Removes and returns the oldest live entry, if any. Stale tags met on the
    /// way are discarded.
    pub fn pop_front(&mut self) -> (r: Option<(K, V)>)
        requires
            old(self).wf(),
        ensures
            final(self).wf(),
            old(self).pops(*final(self), r),
            r is None <==> old(self).live_keys().len() == 0,
            r is None ==> final(self).live_keys().len() == 0,
            r is Some ==> final(self).live_keys().len() + 1 == old(self).live_keys().len(),
    {
        let ghost pre = *self;
        let r = self.pop_front_scan();
        proof {
            Self::lemma_pop_drains(pre, *self, r);
        }
        r
    }



    /// Returns `true` if there are no live entries.
    pub fn is_empty(&self) -> (r: bool)
        requires
            self.wf(),
        ensures
            r == (self.live_keys() == Set::<K>::empty()),
            r == (self.live_keys().len() == 0),
    {
        proof {
            self.lemma_live_keys_finite();
            if self.live_keys().len() == 0 {
                assert(self.live_keys() =~= Set::<K>::empty());
            }
        }
        self.len() == 0
    }

    /// Returns `true` if the counter can hand out another stamp, which
    /// `push_back` and `refresh` of an existing key require.
    pub fn can_stamp(&self) -> (r: bool)
        ensures
            r == (self.generation() < usize::MAX),
    {
        self.generation < usize::MAX
    }

    /// Returns the number of live entries.
    pub fn len(&self) -> (r: usize)
        requires
            self.wf(),
        ensures
            r == self.live_keys().len(),
    {
        self.length
    }

    /// Returns the number of tags in the order queue, stale ones included.
    pub fn used_entries(&self) -> (r: usize)
        requires
            self.wf(),
        ensures
            r == self.tags().len(),
    {
        self.order.len()
    }

    /// Creates a new empty `OrdHash` whose storage is sized for `cap` entries.
    pub fn with_capacity(cap: usize) -> (r: Self)
        ensures
            r.wf(),
            r.slots() == Map::<K, (nat, V)>::empty(),
            r.tags() == Seq::<(K, nat)>::empty(),
            r.generation() == 0,
    {
        let r = OrdHash {
            map: HashMap::with_capacity(cap),
            order: VecDeque::with_capacity(cap),
            generation: 0,
            length: 0,
        };
        proof {
            assert(r.slots() =~= Map::<K, (nat, V)>::empty());
            assert(r.tags() =~= Seq::<(K, nat)>::empty());
            assert(r.live_keys() =~= Set::<K>::empty());
        }
        r
    }

    /// Reserves storage for at least `additional` more entries; the contents
    /// do not change.
    pub fn reserve(&mut self, additional: usize)
        requires
            old(self).wf(),
        ensures
            final(self).wf(),
            final(self).slots() == old(self).slots(),
            final(self).tags() == old(self).tags(),
            final(self).generation() == old(self).generation(),
    {
        proof {
            K::lemma_key_model();
        }
        let ghost pre = *self;
        self.map.reserve(additional);
        self.order.reserve(additional);
        proof {
            assert(self.slots() =~= pre.slots());
            assert(self.tags() =~= pre.tags());
            self.lemma_wf_same_model(pre);
        }
    }

    /// The order queue holds at least as many tags as there are live keys, and
    /// exactly as many if and only if none of its tags is stale.
    pub proof fn lemma_used_entries_bound(m: &Self)
        requires
            m.wf(),
        ensures
            m.live_keys().len() <= m.tags().len(),
            m.live_keys().len() == m.tags().len() <==> forall|i: int|
                0 <= i < m.tags().len() ==> #[trigger] m.tag_is_current(i),
    {
        let n = m.tags().len() as int;
        let range = vstd::set_lib::set_int_range(0, n);
        let cur = Set::new(|i: int| 0 <= i < n && m.tag_is_current(i));
        let f = |i: int| m.tags()[i].0;
        vstd::set_lib::lemma_int_range(0, n);
        assert(cur.subset_of(range));
        vstd::set_lib::lemma_len_subset(cur, range);
        assert forall|i: int, j: int|
            cur.contains(i) && cur.contains(j) && #[trigger] f(i) == #[trigger] f(j) implies i
            == j by {
            if i < j {
                assert(m.tags()[i].1 < m.tags()[j].1);
            } else if j < i {
                assert(m.tags()[j].1 < m.tags()[i].1);
            }
        }
        assert forall|k: K| #[trigger] m.live_keys().contains(k) implies cur.map(f).contains(k) by {
            assert(m.is_live(k));
            let j = choose|j: int|
                0 <= j < m.tags().len() && #[trigger] m.tags()[j] == (k, m.slots()[k].0);
            assert(cur.contains(j));
            assert(f(j) == k);
        }
        assert forall|k: K| #[trigger] cur.map(f).contains(k) implies m.live_keys().contains(k) by {
            let j = choose|j: int| cur.contains(j) && f(j) == k;
            assert(m.tags()[j].1 > 0);
        }
        assert(cur.map(f) =~= m.live_keys());
        vstd::set_lib::lemma_map_size(cur, m.live_keys(), f);
        if forall|i: int| 0 <= i < n ==> #[trigger] m.tag_is_current(i) {
            assert(cur =~= range);
        }
        if m.live_keys().len() == n {
            assert forall|i: int| 0 <= i < n implies #[trigger] m.tag_is_current(i) by {
                if !m.tag_is_current(i) {
                    assert(cur.subset_of(range.remove(i)));
                    vstd::set_lib::lemma_len_subset(cur, range.remove(i));
                }
            }
        }
    }

    /// Two successive pops return two different keys, in increasing order of
    /// the stamps they held before the first pop; the first key has no slot
    /// left, and the second keeps its slot across the first pop.
    pub proof fn lemma_pop_order(
        m0: Self,
        m1: Self,
        m2: Self,
        r1: (K, V),
        r2: (K, V),
    )
        requires
            m0.wf(),
            m1.wf(),
            m0.pops(m1, Option::Some(r1)),
            m1.pops(m2, Option::Some(r2)),
        ensures
            r1.0 != r2.0,
            !m1.slots().contains_key(r1.0),
            m1.slots()[r2.0] == m0.slots()[r2.0],
            m0.is_live(r2.0),
            m0.slots()[r1.0].0 < m0.slots()[r2.0].0,
    {
        assert(m1.is_live(r2.0));
        assert(m0.is_live(r2.0));
    }

    /// Each pop that returns an entry takes one key off the live count; a pop
    /// that returns nothing finds none live. So pops drain the map.
    pub proof fn lemma_pop_drains(m0: Self, m1: Self, r: Option<(K, V)>)
        requires
            m0.wf(),
            m0.pops(m1, r),
        ensures
            r is None <==> m0.live_keys().len() == 0,
            r is None ==> m1.live_keys().len() == 0,
            r is Some ==> m1.live_keys().len() + 1 == m0.live_keys().len(),
    {
        m0.lemma_live_keys_finite();
        match r {
            Option::None => {
                assert(m1.live_keys() =~= m0.live_keys());
            },
            Option::Some((k, v)) => {
                assert(m0.live_keys().contains(k));
                assert(m1.live_keys() =~= m0.live_keys().remove(k));
            },
        }
    }

    /// Disabling a live key and then refreshing it gives back its value
    /// unchanged, makes it live under a stamp above every other live key's,
    /// and leaves every other key's slot as it was.
    pub proof fn lemma_disable_then_refresh(
        m0: Self,
        m1: Self,
        m2: Self,
        key: K,
        r1: Option<&V>,
        r2: Option<&V>,
    )
        requires
            m0.wf(),
            m1.wf(),
            m0.is_live(key),
            m0.marks_unused(m1, key, r1),
            m1.refreshes(m2, key, r2),
        ensures
            r1 is Some && r2 is Some,
            *r2.unwrap() == m0.slots()[key].1,
            m2.is_live(key),
            m2.slots()[key].1 == m0.slots()[key].1,
            forall|k2: K| k2 != key ==> #[trigger] m2.slots().contains_key(k2) == m0.slots().contains_key(k2),
            forall|k2: K| k2 != key ==> #[trigger] m2.slots()[k2] == m0.slots()[k2],
            forall|k2: K|
                #![trigger m2.is_live(k2)]
                m2.is_live(k2) && k2 != key ==> m2.slots()[k2].0 < m2.slots()[key].0,
    {
        assert(m1.slots().contains_key(key));
        assert forall|k2: K|
            #![trigger m2.is_live(k2)]
            m2.is_live(k2) && k2 != key implies m2.slots()[k2].0 < m2.slots()[key].0 by {
            assert(m1.slots().contains_key(k2));
        }
    }

    /// `push_back` on a live key keeps the live count, adds exactly one tag, and
    /// puts the key's stamp above every other live key's.
    pub proof fn lemma_push_back_live(m0: Self, m1: Self, key: K, value: V)
        requires
            m0.wf(),
            m0.is_live(key),
            m0.pushes_back(m1, key, value),
        ensures
            m1.live_keys().len() == m0.live_keys().len(),
            m1.tags().len() == m0.tags().len() + 1,
            m1.is_live(key),
            forall|k2: K|
                #![trigger m1.is_live(k2)]
                m1.is_live(k2) && k2 != key ==> m1.slots()[k2].0 < m1.slots()[key].0,
    {
        assert(m1.live_keys() =~= m0.live_keys());
        assert forall|k2: K|
            #![trigger m1.is_live(k2)]
            m1.is_live(k2) && k2 != key implies m1.slots()[k2].0 < m1.slots()[key].0 by {
            assert(m0.slots().contains_key(k2));
        }
    }
}

impl<K: HashKey, V> Default for OrdHash<K, V> {
    /// Creates a new empty `OrdHash`.
    fn default() -> (r: Self)
        ensures
            r.wf(),
            r.slots() == Map::<K, (nat, V)>::empty(),
            r.tags() == Seq::<(K, nat)>::empty(),
            r.generation() == 0,
    {
        Self::new()
    }
}

} // verus!
