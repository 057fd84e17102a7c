//! A set of values, found by their fingerprints.

use std::collections::HashMap;
use vstd::prelude::*;
use crate::hashing::fingerprint_of;
use crate::value::RawValue;
use crate::value::contents;
use crate::value::ValueModel;

verus! {

broadcast use vstd::std_specs::hash::group_hash_axioms;

/// The values that were put in, each once, in the order in which they
/// came. Beside them an index leads from each fingerprint to the places of
/// the values that have it, so that a value is looked for among the few
/// that share its fingerprint.
pub struct ValueSet {
    values: Vec<RawValue>,
    index: HashMap<u64, Vec<usize>>,
}

impl View for ValueSet {
    type V = Set<ValueModel>;

    closed spec fn view(&self) -> Set<ValueModel> {
        self.kept().to_set()
    }
}

impl ValueSet {
    /// The contents of the values, in the order in which they came.
    pub closed spec fn kept(&self) -> Seq<ValueModel> {
        contents(self.values@)
    }

    /// The place `i` is found under the fingerprint of its value.
    spec fn indexed(&self, i: int) -> bool {
        let hash = fingerprint_of(self.kept()[i]);
        self.index@.contains_key(hash) && self.index@[hash]@.contains(i as usize)
    }

    /// What is found under `hash` at `k` is the place of a value with that
    /// fingerprint.
    spec fn pointed(&self, hash: u64, k: int) -> bool {
        let i = self.index@[hash]@[k];
        i < self.values@.len() && fingerprint_of(self.kept()[i as int]) == hash
    }

    /// No value is held twice, and the index leads to every value and to
    /// nothing else.
    pub closed spec fn wf(&self) -> bool {
        &&& self.kept().no_duplicates()
        &&& forall|i: int| 0 <= i < self.values@.len() ==> #[trigger] self.indexed(i)
        &&& forall|hash: u64, k: int|
            self.index@.contains_key(hash) && 0 <= k < self.index@[hash]@.len()
                ==> #[trigger] self.pointed(hash, k)
    }

    /// The set holds what it keeps: finitely many values, each once.
    pub proof fn lemma_wf(&self)
        requires
            self.wf(),
        ensures
            self.kept().no_duplicates(),
            self@ == self.kept().to_set(),
            self@.finite(),
            self@.len() == self.kept().len(),
    {
        self.kept().unique_seq_to_set();
        vstd::seq_lib::seq_to_set_is_finite(self.kept());
    }

    /// A set of no values.
    pub fn new() -> (set: ValueSet)
        ensures
            set.wf(),
            set.kept() == Seq::<ValueModel>::empty(),
            set@ == Set::<ValueModel>::empty(),
    {
        let set = ValueSet { values: Vec::new(), index: HashMap::new() };
        assert(set.kept() =~= Seq::<ValueModel>::empty());
        assert(set.kept().to_set() =~= Set::<ValueModel>::empty());
        set
    }

    /// How many values are held.
    pub fn len(&self) -> (len: usize)
        ensures
            len == self.kept().len(),
    {
        self.values.len()
    }

    /// The value that came at a position.
    pub fn get(&self, position: usize) -> (value: &RawValue)
        requires
            position < self.kept().len(),
        ensures
            value@ == self.kept()[position as int],
    {
        &self.values[position]
    }

    /// Copies of the values, in the order in which they came.
    pub fn to_vec(&self) -> (values: Vec<RawValue>)
        ensures
            contents(values@) == self.kept(),
    {
        let mut values: Vec<RawValue> = Vec::new();
        let mut i: usize = 0;
        while i < self.values.len()
            invariant
                i <= self.values.len(),
                contents(values@) == self.kept().take(i as int),
            decreases self.values.len() - i,
        {
            let copy = self.values[i].duplicate();
            values.push(copy);
            proof {
                assert(contents(values@) =~= self.kept().take(i as int).push(
                    self.kept()[i as int],
                ));
                assert(self.kept().take(i + 1) =~= self.kept().take(i as int).push(
                    self.kept()[i as int],
                ));
            }
            i += 1;
        }
        proof {
            assert(self.kept().take(self.kept().len() as int) =~= self.kept());
        }
        values
    }

    /// The set of these values, if none of them comes twice.
    pub fn from_values(values: &Vec<RawValue>) -> (set: Option<ValueSet>)
        ensures
            set is Some <==> contents(values@).no_duplicates(),
            set matches Some(made) ==> made.wf() && made.kept() == contents(values@),
    {
        let mut made = ValueSet::new();
        let ghost all = contents(values@);
        let mut i: usize = 0;
        while i < values.len()
            invariant
                i <= values.len(),
                all == contents(values@),
                made.wf(),
                made.kept() == all.take(i as int),
            decreases values.len() - i,
        {
            if made.contains(&values[i]) {
                proof {
                    let j = choose|j: int|
                        0 <= j < made.kept().len() && made.kept()[j] == all[i as int];
                    assert(all[j] == all[i as int]);
                }
                return None;
            }
            made.insert(&values[i]);
            proof {
                assert(all.take(i + 1) =~= all.take(i as int).push(all[i as int]));
            }
            i += 1;
        }
        proof {
            assert(all.take(values@.len() as int) =~= all);
            made.lemma_wf();
        }
        Some(made)
    }

    /// Whether the value is held.
    pub fn contains(&self, value: &RawValue) -> (held: bool)
        requires
            self.wf(),
        ensures
            held == self.kept().contains(value@),
            held == self@.contains(value@),
    {
        let hash = value.fingerprint();
        match self.index.get(&hash) {
            None => {
                proof {
                    if self.kept().contains(value@) {
                        let i = choose|i: int|
                            0 <= i < self.kept().len() && self.kept()[i] == value@;
                        assert(self.indexed(i));
                    }
                }
                false
            },
            Some(places) => {
                let mut k: usize = 0;
                while k < places.len()
                    invariant
                        k <= places.len(),
                        self.wf(),
                        hash == fingerprint_of(value@),
                        self.index@.contains_key(hash),
                        self.index@[hash] == *places,
                        forall|j: int|
                            0 <= j < k ==> self.kept()[places@[j] as int] != value@,
                    decreases places.len() - k,
                {
                    proof {
                        assert(self.pointed(hash, k as int));
                    }
                    let i = places[k];
                    if self.values[i].same(value) {
                        assert(self.kept()[i as int] == value@);
                        return true;
                    }
                    k += 1;
                }
                proof {
                    if self.kept().contains(value@) {
                        let i = choose|i: int|
                            0 <= i < self.kept().len() && self.kept()[i] == value@;
                        assert(self.indexed(i));
                        assert(self.values.len() == self.values@.len());
                        let j = choose|j: int|
                            0 <= j < places@.len() && places@[j] == i as usize;
                        assert(self.kept()[places@[j] as int] != value@);
                    }
                }
                false
            },
        }
    }

    /// Puts a value in, unless it is held already.
    pub fn insert(&mut self, value: &RawValue)
        requires
            old(self).wf(),
        ensures
            final(self).wf(),
            final(self)@ == old(self)@.insert(value@),
            old(self).kept().contains(value@) ==> final(self).kept() == old(self).kept(),
            !old(self).kept().contains(value@) ==> final(self).kept() == old(self).kept().push(
                value@,
            ),
    {
        let ghost before = self.kept();
        let ghost index = self.index@;
        if self.contains(value) {
            assert(before.to_set().insert(value@) =~= before.to_set());
            return ;
        }
        let hash = value.fingerprint();
        let place = self.values.len();
        let copy = value.duplicate();
        self.values.push(copy);
        let mut places = match self.index.remove(&hash) {
            Some(places) => places,
            None => Vec::new(),
        };
        let ghost earlier = places@;
        places.push(place);
        self.index.insert(hash, places);
        proof {
            assert(self.kept() =~= before.push(value@));
            before.lemma_push_to_set_commute(value@);
            assert(index.contains_key(hash) ==> earlier == index[hash]@);
            assert(!index.contains_key(hash) ==> earlier == Seq::<usize>::empty());
            assert forall|i: int| 0 <= i < self.values@.len() implies #[trigger] self.indexed(
                i,
            ) by {
                if i < place {
                    assert(old(self).indexed(i));
                    let h = fingerprint_of(before[i]);
                    if h == hash {
                        let j = choose|j: int| 0 <= j < earlier.len() && earlier[j] == i as usize;
                        assert(places@[j] == i as usize);
                    }
                } else {
                    assert(places@[earlier.len() as int] == place);
                }
            }
            assert forall|h: u64, k: int|
                self.index@.contains_key(h) && 0 <= k < self.index@[h]@.len()
                    implies #[trigger] self.pointed(h, k) by {
                if h == hash {
                    if k < earlier.len() {
                        assert(old(self).pointed(h, k));
                    }
                } else {
                    assert(old(self).pointed(h, k));
                }
            }
        }
    }
}

} // verus!
