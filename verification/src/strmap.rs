//! A map and a set keyed by strings, kept as lists in insertion order.
//!
//! Keys are compared by their characters. The lists hold no key twice, so a
//! key names at most one value and the order in which keys were first
//! inserted is the order in which they are handed out.

use crate::text::str_eq;
use vstd::prelude::*;

verus! {

/// The character sequences of a list of strings.
pub open spec fn views(names: Seq<String>) -> Seq<Seq<char>> {
    Seq::new(names.len(), |i: int| names[i]@)
}

/// The map that sends `keys[i]` to `values[i]`, for keys without duplicates.
pub open spec fn zip_map<V>(keys: Seq<Seq<char>>, values: Seq<V>) -> Map<Seq<char>, V> {
    Map::new(|k: Seq<char>| keys.contains(k), |k: Seq<char>| values[keys.index_of(k)])
}

/// Where `key` stands in `names`, if it does: the first such place.
pub fn find(names: &Vec<String>, key: &str) -> (at: Option<usize>)
    ensures
        match at {
            Some(i) => i < names.len() && names[i as int]@ == key@ && views(names@).contains(key@)
                && forall|j: int| 0 <= j < i ==> names[j]@ != key@,
            None => !views(names@).contains(key@),
        },
{
    let mut i: usize = 0;
    while i < names.len()
        invariant
            i <= names.len(),
            forall|j: int| 0 <= j < i ==> names[j]@ != key@,
        decreases names.len() - i,
    {
        if str_eq(names[i].as_str(), key) {
            assert(views(names@)[i as int] == key@);
            return Some(i);
        }
        i += 1;
    }
    assert forall|j: int| 0 <= j < names.len() implies views(names@)[j] != key@ by {
        assert(names[j]@ != key@);
    }
    None
}

/// A set of strings.
#[derive(Debug)]
pub struct StrSet {
    items: Vec<String>,
}

impl View for StrSet {
    type V = Set<Seq<char>>;

    open spec fn view(&self) -> Set<Seq<char>> {
        self.spec_items().to_set()
    }
}

impl StrSet {
    #[verifier::type_invariant]
    spec fn inv(&self) -> bool {
        views(self.items@).no_duplicates()
    }

    /// The members, in the order in which they were inserted.
    pub closed spec fn spec_items(&self) -> Seq<Seq<char>> {
        views(self.items@)
    }

    /// The empty set.
    pub fn new() -> (set: Self)
        ensures
            set.spec_items() == Seq::<Seq<char>>::empty(),
            set@ == Set::<Seq<char>>::empty(),
    {
        let set = StrSet { items: Vec::new() };
        assert(set.spec_items() =~= Seq::<Seq<char>>::empty());
        assert(set@ =~= Set::<Seq<char>>::empty());
        set
    }

    /// Whether `item` is a member.
    pub fn contains(&self, item: &str) -> (found: bool)
        ensures
            found == self@.contains(item@),
    {
        find(&self.items, item).is_some()
    }

    /// Adds `item`; a set that holds it already stays as it is.
    pub fn insert(&mut self, item: String)
        ensures
            final(self)@ == old(self)@.insert(item@),
            final(self).spec_items() == if old(self)@.contains(item@) {
                old(self).spec_items()
            } else {
                old(self).spec_items().push(item@)
            },
    {
        proof {
            use_type_invariant(&*self);
        }
        if find(&self.items, item.as_str()).is_none() {
            let ghost before = self.spec_items();
            let mut taken = StrSet { items: Vec::new() };
            core::mem::swap(self, &mut taken);
            let mut items = taken.items;
            items.push(item);
            assert(views(items@) =~= before.push(item@));
            *self = StrSet { items };
            assert(self.spec_items() =~= before.push(item@));
            assert(self@ =~= before.to_set().insert(item@)) by {
                assert forall|x: Seq<char>| self.spec_items().contains(x) <==> (before.contains(x)
                    || x == item@) by {
                    if before.contains(x) {
                        let i = before.index_of(x);
                        assert(self.spec_items()[i] == x);
                    }
                    if x == item@ {
                        assert(self.spec_items()[before.len() as int] == x);
                    }
                }
            }
        } else {
            assert(self@ =~= self@.insert(item@));
        }
    }

    /// The members, in the order in which they were inserted, each once.
    pub fn items(&self) -> (items: &Vec<String>)
        ensures
            views(items@) == self.spec_items(),
            self.spec_items().no_duplicates(),
    {
        proof {
            use_type_invariant(self);
        }
        &self.items
    }
}

/// A map from strings to values.
#[derive(Debug)]
pub struct StrMap<V> {
    keys: Vec<String>,
    values: Vec<V>,
}

impl<V> View for StrMap<V> {
    type V = Map<Seq<char>, V>;

    open spec fn view(&self) -> Map<Seq<char>, V> {
        zip_map(self.spec_keys(), self.spec_values())
    }
}

impl<V> StrMap<V> {
    #[verifier::type_invariant]
    spec fn inv(&self) -> bool {
        &&& self.keys.len() == self.values.len()
        &&& views(self.keys@).no_duplicates()
    }

    /// The keys, in the order in which they were first inserted.
    pub closed spec fn spec_keys(&self) -> Seq<Seq<char>> {
        views(self.keys@)
    }

    /// The values, each at the place of its key in `spec_keys`.
    pub closed spec fn spec_values(&self) -> Seq<V> {
        self.values@
    }

    /// The empty map.
    pub fn new() -> (map: Self)
        ensures
            map.spec_keys() == Seq::<Seq<char>>::empty(),
            map.spec_values() == Seq::<V>::empty(),
            map@ == Map::<Seq<char>, V>::empty(),
    {
        let map = StrMap { keys: Vec::new(), values: Vec::new() };
        assert(map.spec_keys() =~= Seq::<Seq<char>>::empty());
        assert(map@ =~= Map::<Seq<char>, V>::empty());
        map
    }

    /// The number of keys, each of which has one value.
    pub fn len(&self) -> (n: usize)
        ensures
            n == self.spec_keys().len(),
            n == self.spec_values().len(),
            self.spec_keys().no_duplicates(),
    {
        proof {
            use_type_invariant(self);
        }
        self.keys.len()
    }

    /// The keys, in the order in which they were first inserted, each once.
    pub fn keys(&self) -> (keys: &Vec<String>)
        ensures
            views(keys@) == self.spec_keys(),
            keys@.len() == self.spec_values().len(),
            self.spec_keys().no_duplicates(),
    {
        proof {
            use_type_invariant(self);
        }
        &self.keys
    }

    /// The values, each at the place of its key in `keys`.
    pub fn values(&self) -> (values: &Vec<V>)
        ensures
            values@ == self.spec_values(),
            values@.len() == self.spec_keys().len(),
            self.spec_keys().no_duplicates(),
    {
        proof {
            use_type_invariant(self);
        }
        &self.values
    }

    /// Whether `key` has a value.
    pub fn contains_key(&self, key: &str) -> (found: bool)
        ensures
            found == self@.contains_key(key@),
    {
        find(&self.keys, key).is_some()
    }

    /// The value of `key`, if it has one.
    pub fn get(&self, key: &str) -> (found: Option<&V>)
        ensures
            match found {
                Some(v) => self@.contains_key(key@) && *v == self@[key@],
                None => !self@.contains_key(key@),
            },
    {
        proof {
            use_type_invariant(self);
        }
        match find(&self.keys, key) {
            Some(i) => {
                assert(self.spec_keys()[i as int] == key@);
                Some(&self.values[i])
            },
            None => None,
        }
    }

    /// The value of `key`, if it has one, to be changed in place. The keys
    /// stay as they are, each with one value.
    pub fn get_mut(&mut self, key: &str) -> (found: Option<&mut V>)
        ensures
            final(self).spec_keys() == old(self).spec_keys(),
            old(self).spec_values().len() == old(self).spec_keys().len(),
            final(self).spec_values().len() == final(self).spec_keys().len(),
            match found {
                Some(v) => {
                    &&& old(self)@.contains_key(key@)
                    &&& *v == old(self)@[key@]
                    &&& final(self)@ == old(self)@.insert(key@, *final(v))
                    &&& final(self).spec_values() == old(self).spec_values().update(
                        old(self).spec_keys().index_of(key@),
                        *final(v),
                    )
                },
                None => {
                    &&& !old(self)@.contains_key(key@)
                    &&& final(self)@ == old(self)@
                    &&& final(self).spec_values() == old(self).spec_values()
                },
            },
    {
        proof {
            use_type_invariant(&*self);
        }
        match find(&self.keys, key) {
            Some(i) => {
                assert(self.spec_keys()[i as int] == key@);
                Some(&mut self.values[i])
            },
            None => None,
        }
    }

    /// Gives `key` the value `value`. A key that is new goes to the end of
    /// the keys; one that has a value keeps its place.
    pub fn insert(&mut self, key: String, value: V)
        ensures
            final(self)@ == old(self)@.insert(key@, value),
            final(self).spec_keys() == if old(self)@.contains_key(key@) {
                old(self).spec_keys()
            } else {
                old(self).spec_keys().push(key@)
            },
            final(self).spec_values() == if old(self)@.contains_key(key@) {
                old(self).spec_values().update(old(self).spec_keys().index_of(key@), value)
            } else {
                old(self).spec_values().push(value)
            },
    {
        proof {
            use_type_invariant(&*self);
        }
        let ghost before_keys = self.spec_keys();
        let ghost before_values = self.spec_values();
        let at = find(&self.keys, key.as_str());
        let mut taken = StrMap { keys: Vec::new(), values: Vec::new() };
        core::mem::swap(self, &mut taken);
        let mut keys = taken.keys;
        let mut values = taken.values;
        match at {
            Some(i) => {
                assert(before_keys[i as int] == key@);
                values[i] = value;
                assert(zip_map(views(keys@), values@) =~= zip_map(
                    before_keys,
                    before_values,
                ).insert(key@, value)) by {
                    assert forall|k: Seq<char>| before_keys.contains(k) implies (
                    before_keys.index_of(k) == i as int <==> k == key@) by {}
                }
            },
            None => {
                keys.push(key);
                values.push(value);
                let ghost after_keys = views(keys@);
                assert(after_keys =~= before_keys.push(key@));
                assert(after_keys.no_duplicates());
                assert(zip_map(after_keys, values@) =~= zip_map(
                    before_keys,
                    before_values,
                ).insert(key@, value)) by {
                    assert(after_keys[before_keys.len() as int] == key@);
                    assert forall|k: Seq<char>| before_keys.contains(k) implies after_keys.contains(
                        k,
                    ) && after_keys.index_of(k) == before_keys.index_of(k) by {
                        let i = before_keys.index_of(k);
                        assert(after_keys[i] == k);
                    }
                    assert forall|k: Seq<char>| after_keys.contains(k) implies before_keys.contains(
                        k,
                    ) || k == key@ by {
                        let i = after_keys.index_of(k);
                        if i < before_keys.len() {
                            assert(before_keys[i] == k);
                        }
                    }
                }
            },
        }
        *self = StrMap { keys, values };
        assert(self@ =~= zip_map(before_keys, before_values).insert(key@, value));
    }
}

} // verus!
