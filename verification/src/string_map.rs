//! A map from text keys to values that keeps its entries in the order of their
//! keys.

use crate::key_order::ascending;
use crate::key_order::key_before;
use crate::key_order::lemma_ascending_distinct;
use crate::key_order::lemma_key_before_irreflexive;
use crate::key_order::lemma_key_before_transitive;
use crate::key_order::rank;
use crate::key_order::Rank;
use vstd::prelude::*;

verus! {

/// The map that sends each key of `keys` to the value at the same position of
/// `vals`.
pub open spec fn assoc<V>(keys: Seq<Seq<char>>, vals: Seq<V>) -> Map<Seq<char>, V> {
    Map::new(|k: Seq<char>| keys.contains(k), |k: Seq<char>| vals[keys.index_of(k)])
}

/// Where keys differ from one another, `assoc` sends the key at a position to
/// the value at that position.
pub proof fn lemma_assoc_at<V>(keys: Seq<Seq<char>>, vals: Seq<V>, i: int)
    requires
        keys.no_duplicates(),
        0 <= i < keys.len(),
    ensures
        assoc(keys, vals).contains_key(keys[i]),
        assoc(keys, vals)[keys[i]] == vals[i],
        keys.index_of(keys[i]) == i,
{
    assert(keys.contains(keys[i]));
}

/// A map from text keys to values of type `V`, with its entries in ascending
/// order of the keys.
#[derive(Debug)]
pub struct StringMap<V> {
    keys: Vec<String>,
    vals: Vec<V>,
}

impl<V> View for StringMap<V> {
    type V = Map<Seq<char>, V>;

    /// The map from each key to its value.
    open spec fn view(&self) -> Map<Seq<char>, V> {
        assoc(self.key_seq(), self.val_seq())
    }
}

impl<V> StringMap<V> {
    /// The keys, in the order in which the entries are kept.
    pub closed spec fn key_seq(&self) -> Seq<Seq<char>> {
        Seq::new(self.keys@.len(), |i: int| self.keys@[i]@)
    }

    /// The values, each at the position of its key in `key_seq`.
    pub closed spec fn val_seq(&self) -> Seq<V> {
        self.vals@
    }

    /// What holds of every map: there is one value for each key, and the keys
    /// ascend.
    #[verifier::type_invariant]
    pub closed spec fn wf(&self) -> bool {
        &&& self.keys@.len() == self.vals@.len()
        &&& ascending(self.key_seq())
    }

    /// In a map whose keys ascend, the entry at each position is the key's
    /// entry in the view, and the view holds no other key.
    pub proof fn lemma_entries(&self)
        requires
            self.wf(),
        ensures
            self.key_seq().len() == self.val_seq().len(),
            ascending(self.key_seq()),
            self.key_seq().no_duplicates(),
            self@.dom() =~= self.key_seq().to_set(),
            self@.dom().finite(),
            self@.len() == self.key_seq().len(),
            forall|i: int|
                0 <= i < self.key_seq().len() ==> self@.contains_key(#[trigger] self.key_seq()[i])
                    && self@[self.key_seq()[i]] == self.val_seq()[i],
    {
        let keys = self.key_seq();
        lemma_ascending_distinct(keys);
        assert forall|i: int| 0 <= i < keys.len() implies self@.contains_key(#[trigger] keys[i])
            && self@[keys[i]] == self.val_seq()[i] by {
            lemma_assoc_at(keys, self.val_seq(), i);
        }
        keys.unique_seq_to_set();
        assert(self@.dom() =~= keys.to_set());
    }

    /// A map with no entry.
    pub fn new() -> (m: Self)
        ensures
            m@ == Map::<Seq<char>, V>::empty(),
            m.key_seq().len() == 0,
    {
        let m = StringMap { keys: Vec::new(), vals: Vec::new() };
        assert(m@ =~= Map::<Seq<char>, V>::empty());
        m
    }

    /// The number of entries.
    pub fn len(&self) -> (n: usize)
        ensures
            n == self@.len(),
            n == self.key_seq().len(),
    {
        proof {
            use_type_invariant(self);
            self.lemma_entries();
        }
        self.keys.len()
    }

    /// The key of the entry at position `i`, counted in ascending order of the
    /// keys.
    pub fn key_at(&self, i: usize) -> (k: &String)
        requires
            i < self.key_seq().len(),
        ensures
            k@ == self.key_seq()[i as int],
    {
        &self.keys[i]
    }

    /// The value of the entry at position `i`, counted in ascending order of
    /// the keys.
    pub fn value_at(&self, i: usize) -> (v: &V)
        requires
            i < self.key_seq().len(),
        ensures
            *v == self.val_seq()[i as int],
            self@.contains_key(self.key_seq()[i as int]),
            *v == self@[self.key_seq()[i as int]],
    {
        proof {
            use_type_invariant(self);
            self.lemma_entries();
        }
        &self.vals[i]
    }

    /// The position at which `key` stands, or at which it would have to be
    /// put, and whether it stands there.
    fn locate(&self, key: &str) -> (r: (usize, bool))
        ensures
            r.0 <= self.key_seq().len(),
            r.1 ==> r.0 < self.key_seq().len() && self.key_seq()[r.0 as int] == key@,
            r.1 == self.key_seq().contains(key@),
            forall|j: int| 0 <= j < r.0 ==> key_before(#[trigger] self.key_seq()[j], key@),
            forall|j: int|
                r.0 <= j < self.key_seq().len() && !(r.1 && j == r.0) ==> key_before(
                    key@,
                    #[trigger] self.key_seq()[j],
                ),
    {
        proof {
            use_type_invariant(self);
            self.lemma_entries();
        }
        let ghost keys = self.key_seq();
        let mut lo: usize = 0;
        let mut hi: usize = self.keys.len();
        while lo < hi
            invariant
                keys == self.key_seq(),
                ascending(keys),
                lo <= hi <= keys.len(),
                keys.len() == self.keys.len(),
                forall|j: int| 0 <= j < lo ==> key_before(#[trigger] keys[j], key@),
                forall|j: int| hi <= j < keys.len() ==> key_before(key@, #[trigger] keys[j]),
            decreases hi - lo,
        {
            let mid: usize = lo + (hi - lo) / 2;
            assert(keys[mid as int] == self.keys@[mid as int]@);
            match rank(self.keys[mid].as_str(), key) {
                Rank::Before => {
                    proof {
                        assert forall|j: int| 0 <= j < mid + 1 implies key_before(
                            #[trigger] keys[j],
                            key@,
                        ) by {
                            if j < mid {
                                lemma_key_before_transitive(keys[j], keys[mid as int], key@);
                            }
                        }
                    }
                    lo = mid + 1;
                },
                Rank::After => {
                    proof {
                        assert forall|j: int| mid <= j < keys.len() implies key_before(
                            key@,
                            #[trigger] keys[j],
                        ) by {
                            if j > mid {
                                lemma_key_before_transitive(key@, keys[mid as int], keys[j]);
                            }
                        }
                    }
                    hi = mid;
                },
                Rank::Same => {
                    proof {
                        assert(keys[mid as int] == key@);
                    }
                    return (mid, true);
                },
            }
        }
        proof {
            if keys.contains(key@) {
                let j = keys.index_of(key@);
                lemma_key_before_irreflexive(key@);
            }
        }
        (lo, false)
    }

    /// Whether the map holds an entry for `key`.
    pub fn contains_key(&self, key: &str) -> (b: bool)
        ensures
            b == self@.contains_key(key@),
    {
        let (_, found) = self.locate(key);
        found
    }

    /// The value that `key` is mapped to, if any.
    pub fn get(&self, key: &str) -> (r: Option<&V>)
        ensures
            r == if self@.contains_key(key@) {
                Some(&self@[key@])
            } else {
                None
            },
    {
        let (i, found) = self.locate(key);
        if found {
            proof {
                use_type_invariant(self);
                self.lemma_entries();
            }
            Some(&self.vals[i])
        } else {
            None
        }
    }

    /// The value that `key` is mapped to, if any, for changing it in place.
    pub fn get_mut(&mut self, key: &str) -> (r: Option<&mut V>)
        ensures
            match r {
                Some(v) => old(self)@.contains_key(key@) && *v == old(self)@[key@] && final(self)@
                    == old(self)@.insert(key@, *final(v)),
                None => !old(self)@.contains_key(key@) && final(self)@ == old(self)@,
            },
    {
        let (i, found) = self.locate(key);
        if found {
            proof {
                use_type_invariant(&*self);
                self.lemma_entries();
            }
            Some(&mut self.vals[i])
        } else {
            None
        }
    }

    /// Maps `key` to `val`, and hands back the value that `key` was mapped to
    /// before, if any.
    pub fn insert(&mut self, key: String, val: V) -> (prev: Option<V>)
        ensures
            final(self)@ == old(self)@.insert(key@, val),
            prev == if old(self)@.contains_key(key@) {
                Some(old(self)@[key@])
            } else {
                None
            },
    {
        proof {
            use_type_invariant(&*self);
            self.lemma_entries();
        }
        let (i, found) = self.locate(key.as_str());
        if found {
            let mut val = val;
            std::mem::swap(&mut self.vals[i], &mut val);
            proof {
                assert(self@ =~= old(self)@.insert(key@, self.vals@[i as int])) by {
                    lemma_assoc_update(old(self).key_seq(), old(self).val_seq(), i as int, self.vals@[i as int]);
                }
            }
            Some(val)
        } else {
            let mut taken: StringMap<V> = StringMap::new();
            std::mem::swap(self, &mut taken);
            let StringMap { mut keys, mut vals } = taken;
            let ghost old_keys = old(self).key_seq();
            let ghost old_vals = old(self).val_seq();
            let ghost k = key@;
            keys.insert(i, key);
            vals.insert(i, val);
            let ghost new_keys = Seq::new(keys@.len(), |j: int| keys@[j]@);
            proof {
                assert(new_keys =~= old_keys.insert(i as int, k));
                assert(vals@ =~= old_vals.insert(i as int, val));
                lemma_ascending_insert(old_keys, i as int, k);
                lemma_assoc_insert(old_keys, old_vals, i as int, k, val);
            }
            *self = StringMap { keys, vals };
            None
        }
    }

    /// Takes the entry for `key` out of the map, and hands back its value, if
    /// there was one.
    pub fn remove(&mut self, key: &str) -> (prev: Option<V>)
        ensures
            final(self)@ == old(self)@.remove(key@),
            prev == if old(self)@.contains_key(key@) {
                Some(old(self)@[key@])
            } else {
                None
            },
    {
        proof {
            use_type_invariant(&*self);
            self.lemma_entries();
        }
        let (i, found) = self.locate(key);
        if found {
            let mut taken: StringMap<V> = StringMap::new();
            std::mem::swap(self, &mut taken);
            let StringMap { mut keys, mut vals } = taken;
            let ghost old_keys = old(self).key_seq();
            let ghost old_vals = old(self).val_seq();
            keys.remove(i);
            let val = vals.remove(i);
            let ghost new_keys = Seq::new(keys@.len(), |j: int| keys@[j]@);
            proof {
                assert(new_keys =~= old_keys.remove(i as int));
                assert(vals@ =~= old_vals.remove(i as int));
                lemma_assoc_remove(old_keys, old_vals, i as int);
            }
            *self = StringMap { keys, vals };
            Some(val)
        } else {
            assert(self@ =~= old(self)@.remove(key@));
            None
        }
    }
}

impl<V: Clone> Clone for StringMap<V> {
    /// A map with the same keys, each mapped to a clone of its value.
    fn clone(&self) -> (r: Self)
        ensures
            r.key_seq() == self.key_seq(),
            r@.dom() == self@.dom(),
            forall|k: Seq<char>| #[trigger] self@.contains_key(k) ==> cloned::<V>(self@[k], r@[k]),
    {
        proof {
            use_type_invariant(self);
            self.lemma_entries();
        }
        let n: usize = self.keys.len();
        let mut keys: Vec<String> = Vec::new();
        let mut vals: Vec<V> = Vec::new();
        let mut i: usize = 0;
        while i < n
            invariant
                n == self.keys@.len(),
                n == self.vals@.len(),
                i <= n,
                keys@.len() == i,
                vals@.len() == i,
                forall|j: int| 0 <= j < i ==> (#[trigger] keys@[j])@ == self.keys@[j]@,
                forall|j: int| 0 <= j < i ==> cloned::<V>(self.vals@[j], #[trigger] vals@[j]),
            decreases n - i,
        {
            keys.push(self.keys[i].clone());
            vals.push(self.vals[i].clone());
            i = i + 1;
        }
        let ghost new_keys = Seq::new(keys@.len(), |j: int| keys@[j]@);
        assert(new_keys =~= self.key_seq());
        let r = StringMap { keys, vals };
        proof {
            r.lemma_entries();
            assert(r@.dom() =~= self@.dom());
            assert forall|k: Seq<char>| #[trigger] self@.contains_key(k) implies cloned::<V>(
                self@[k],
                r@[k],
            ) by {
                let j = self.key_seq().index_of(k);
                lemma_assoc_at(self.key_seq(), self.val_seq(), j);
                lemma_assoc_at(r.key_seq(), r.val_seq(), j);
            }
        }
        r
    }
}

/// Taking the key and the value at one position out of both sequences takes
/// that entry out of the map, and changes nothing else.
pub proof fn lemma_assoc_remove<V>(keys: Seq<Seq<char>>, vals: Seq<V>, i: int)
    requires
        ascending(keys),
        keys.len() == vals.len(),
        0 <= i < keys.len(),
    ensures
        ascending(keys.remove(i)),
        assoc(keys.remove(i), vals.remove(i)) =~= assoc(keys, vals).remove(keys[i]),
{
    let keys2 = keys.remove(i);
    let vals2 = vals.remove(i);
    lemma_ascending_distinct(keys);
    assert forall|a: int, b: int| 0 <= a < b < keys2.len() implies key_before(
        #[trigger] keys2[a],
        #[trigger] keys2[b],
    ) by {
        let a0 = if a < i { a } else { a + 1 };
        let b0 = if b < i { b } else { b + 1 };
        assert(keys2[a] == keys[a0] && keys2[b] == keys[b0]);
    }
    lemma_ascending_distinct(keys2);
    assert forall|x: Seq<char>| keys2.contains(x) <==> (x != keys[i] && keys.contains(x)) by {
        if keys2.contains(x) {
            let j = keys2.index_of(x);
            let j0 = if j < i { j } else { j + 1 };
            assert(keys[j0] == x);
        }
        if x != keys[i] && keys.contains(x) {
            let j = keys.index_of(x);
            let j2 = if j < i { j } else { j - 1 };
            assert(keys2[j2] == x);
        }
    }
    assert forall|x: Seq<char>| keys2.contains(x) implies #[trigger] assoc(keys2, vals2)[x]
        == assoc(keys, vals).remove(keys[i])[x] by {
        let j = keys2.index_of(x);
        let j0 = if j < i { j } else { j + 1 };
        assert(keys[j0] == x);
        lemma_assoc_at(keys, vals, j0);
        lemma_assoc_at(keys2, vals2, j);
    }
}

/// Changing the value at a position changes what the key at that position is
/// mapped to, and nothing else.
pub proof fn lemma_assoc_update<V>(keys: Seq<Seq<char>>, vals: Seq<V>, i: int, v: V)
    requires
        keys.no_duplicates(),
        keys.len() == vals.len(),
        0 <= i < keys.len(),
    ensures
        assoc(keys, vals.update(i, v)) =~= assoc(keys, vals).insert(keys[i], v),
{
    assert forall|k: Seq<char>| keys.contains(k) implies #[trigger] assoc(keys, vals.update(i, v))[k]
        == assoc(keys, vals).insert(keys[i], v)[k] by {
        let j = keys.index_of(k);
        assert(keys.contains(keys[i]));
    }
}

/// Putting a new key and its value at the same position of both sequences
/// adds that entry to the map, and changes nothing else.
pub proof fn lemma_assoc_insert<V>(keys: Seq<Seq<char>>, vals: Seq<V>, i: int, k: Seq<char>, v: V)
    requires
        keys.no_duplicates(),
        !keys.contains(k),
        keys.len() == vals.len(),
        0 <= i <= keys.len(),
    ensures
        keys.insert(i, k).no_duplicates(),
        assoc(keys.insert(i, k), vals.insert(i, v)) =~= assoc(keys, vals).insert(k, v),
{
    let keys2 = keys.insert(i, k);
    let vals2 = vals.insert(i, v);
    assert forall|a: int, b: int| 0 <= a < keys2.len() && 0 <= b < keys2.len() && a != b implies
        keys2[a] != keys2[b] by {
        let a0 = if a < i { a } else { a - 1 };
        let b0 = if b < i { b } else { b - 1 };
        if a != i {
            assert(keys2[a] == keys[a0]);
            assert(keys.contains(keys[a0]));
        }
        if b != i {
            assert(keys2[b] == keys[b0]);
            assert(keys.contains(keys[b0]));
        }
    }
    assert forall|x: Seq<char>| keys2.contains(x) <==> (x == k || keys.contains(x)) by {
        if keys2.contains(x) {
            let j = keys2.index_of(x);
            if j != i {
                let j0 = if j < i { j } else { j - 1 };
                assert(keys[j0] == x);
            }
        }
        if x == k {
            assert(keys2[i] == x);
        }
        if keys.contains(x) {
            let j = keys.index_of(x);
            let j2 = if j < i { j } else { j + 1 };
            assert(keys2[j2] == x);
        }
    }
    assert forall|x: Seq<char>| keys2.contains(x) implies #[trigger] assoc(keys2, vals2)[x]
        == assoc(keys, vals).insert(k, v)[x] by {
        let j = keys2.index_of(x);
        if j != i {
            let j0 = if j < i { j } else { j - 1 };
            assert(keys[j0] == x);
            lemma_assoc_at(keys, vals, j0);
        }
    }
}

/// A key that stands after all keys before a position, and before all keys
/// from it on, can be put there and the keys still ascend.
pub proof fn lemma_ascending_insert(keys: Seq<Seq<char>>, i: int, k: Seq<char>)
    requires
        ascending(keys),
        0 <= i <= keys.len(),
        forall|j: int| 0 <= j < i ==> key_before(#[trigger] keys[j], k),
        forall|j: int| i <= j < keys.len() ==> key_before(k, #[trigger] keys[j]),
    ensures
        ascending(keys.insert(i, k)),
{
    let keys2 = keys.insert(i, k);
    assert forall|a: int, b: int| 0 <= a < b < keys2.len() implies key_before(
        #[trigger] keys2[a],
        #[trigger] keys2[b],
    ) by {
        let a0 = if a < i { a } else { a - 1 };
        let b0 = if b < i { b } else { b - 1 };
        if a != i {
            assert(keys2[a] == keys[a0]);
        }
        if b != i {
            assert(keys2[b] == keys[b0]);
        }
    }
}

} // verus!
