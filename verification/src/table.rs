//! A map keyed by text.

use crate::text;
use crate::text::same;
use vstd::prelude::*;

verus! {

/// A map from strings to values, in the order in which keys were first added.
pub struct TextMap<V> {
    keys: Vec<String>,
    values: Vec<V>,
}

/// The value stored under a key in parallel lists.
pub open spec fn table_map<V>(keys: Seq<Seq<char>>, values: Seq<V>) -> Map<Seq<char>, V> {
    Map::new(
        |k: Seq<char>| keys.contains(k),
        |k: Seq<char>| values[keys.index_of(k)],
    )
}

impl<V> View for TextMap<V> {
    type V = Map<Seq<char>, V>;

    closed spec fn view(&self) -> Map<Seq<char>, V> {
        table_map(text::texts(self.keys@), self.values@)
    }
}

impl<V> TextMap<V> {
    #[verifier::type_invariant]
    spec fn wf(self) -> bool {
        &&& self.keys@.len() == self.values@.len()
        &&& text::texts(self.keys@).no_duplicates()
    }

    /// The keys, in the order in which they were first added.
    pub closed spec fn key_list(self) -> Seq<Seq<char>> {
        text::texts(self.keys@)
    }

    /// The values, in the order of their keys.
    pub closed spec fn value_list(self) -> Seq<V> {
        self.values@
    }

    pub fn new() -> (r: Self)
        ensures
            r@ == Map::<Seq<char>, V>::empty(),
            r.key_list() == Seq::<Seq<char>>::empty(),
            r.value_list() == Seq::<V>::empty(),
    {
        let r = TextMap { keys: Vec::new(), values: Vec::new() };
        assert(text::texts(r.keys@) =~= Seq::<Seq<char>>::empty());
        assert(r@ =~= Map::<Seq<char>, V>::empty());
        r
    }

    /// How many keys there are. Every key is listed once, and the lists say
    /// what the map holds.
    pub fn len(&self) -> (r: usize)
        ensures
            r == self.key_list().len(),
            r == self.value_list().len(),
            self.key_list().no_duplicates(),
            self@ == table_map(self.key_list(), self.value_list()),
            self@.dom().finite(),
            r == self@.dom().len(),
    {
        proof {
            use_type_invariant(self);
            self.key_list().unique_seq_to_set();
            assert(self@.dom() =~= self.key_list().to_set());
        }
        self.keys.len()
    }

    fn position(&self, key: &str) -> (r: Option<usize>)
        ensures
            match r {
                Some(i) => i < self.keys@.len() && text::texts(self.keys@)[i as int] == key@,
                None => !text::texts(self.keys@).contains(key@),
            },
    {
        let mut i: usize = 0;
        while i < self.keys.len()
            invariant
                i <= self.keys@.len(),
                forall|j: int| 0 <= j < i ==> self.keys@[j]@ != key@,
            decreases self.keys@.len() - i,
        {
            if same(self.keys[i].as_str(), key) {
                return Some(i);
            }
            i = i + 1;
        }
        None
    }

    pub fn get(&self, key: &str) -> (r: Option<&V>)
        ensures
            match r {
                Some(v) => self@.contains_key(key@) && *v == self@[key@],
                None => !self@.contains_key(key@),
            },
    {
        proof {
            use_type_invariant(self);
        }
        match self.position(key) {
            Some(i) => {
                assert(text::texts(self.keys@).index_of(key@) == i as int);
                Some(&self.values[i])
            },
            None => None,
        }
    }

    /// The key at a position.
    pub fn key_at(&self, i: usize) -> (r: &String)
        requires
            i < self.key_list().len(),
        ensures
            r@ == self.key_list()[i as int],
    {
        &self.keys[i]
    }

    /// The value at a position.
    pub fn value_at(&self, i: usize) -> (r: &V)
        requires
            i < self.value_list().len(),
        ensures
            *r == self.value_list()[i as int],
    {
        &self.values[i]
    }

    /// Store a value under a key, replacing what was there.
    pub fn insert(&mut self, key: String, value: V)
        ensures
            final(self)@ == old(self)@.insert(key@, value),
            old(self)@.contains_key(key@) ==> final(self).key_list() == old(self).key_list()
                && final(self).value_list() == old(self).value_list().update(
                old(self).key_list().index_of(key@),
                value,
            ),
            !old(self)@.contains_key(key@) ==> final(self).key_list() == old(self).key_list().push(
                key@,
            ) && final(self).value_list() == old(self).value_list().push(value),
    {
        proof {
            use_type_invariant(&*self);
        }
        let ghost old_keys = text::texts(self.keys@);
        let ghost old_values = self.values@;
        let found = self.position(key.as_str());
        let mut whole: TextMap<V> = TextMap::new();
        std::mem::swap(&mut whole, self);
        let TextMap { keys: mut keys, values: mut values } = whole;
        match found {
            Some(i) => {
                proof {
                    assert(old_keys.index_of(key@) == i as int);
                }
                values.set(i, value);
                proof {
                    assert(table_map(text::texts(keys@), values@) =~= table_map(
                        old_keys,
                        old_values,
                    ).insert(key@, value)) by {
                        assert forall|k: Seq<char>| old_keys.contains(k) implies values@[old_keys.index_of(k)] == (
                        if k == key@ {
                            value
                        } else {
                            old_values[old_keys.index_of(k)]
                        }) by {
                            if k != key@ && old_keys.index_of(k) == i {
                                assert(old_keys[i as int] == k);
                            }
                        }
                    }
                }
            },
            None => {
                let ghost k0 = key@;
                keys.push(key);
                values.push(value);
                proof {
                    let now = text::texts(keys@);
                    assert(now =~= old_keys.push(k0));
                    assert forall|i: int, j: int|
                        0 <= i < now.len() && 0 <= j < now.len() && i != j implies now[i] != now[j] by {
                        if i < old_keys.len() && j < old_keys.len() {
                            assert(old_keys[i] != old_keys[j]);
                        } else if i < old_keys.len() {
                            assert(old_keys.contains(old_keys[i]));
                        } else {
                            assert(old_keys.contains(old_keys[j]));
                        }
                    }
                    assert(table_map(now, values@) =~= table_map(old_keys, old_values).insert(
                        k0,
                        value,
                    )) by {
                        assert(now[old_keys.len() as int] == k0);
                        assert forall|k: Seq<char>| #[trigger] now.contains(k) <==> (old_keys.contains(k) || k == k0) by {
                            if now.contains(k) {
                                let j = choose|j: int| 0 <= j < now.len() && now[j] == k;
                                if j < old_keys.len() {
                                    assert(old_keys[j] == k);
                                }
                            }
                            if old_keys.contains(k) {
                                let j = choose|j: int| 0 <= j < old_keys.len() && old_keys[j] == k;
                                assert(now[j] == k);
                            }
                        }
                        assert forall|k: Seq<char>| now.contains(k) implies values@[now.index_of(k)] == (
                        if k == k0 {
                            value
                        } else {
                            old_values[old_keys.index_of(k)]
                        }) by {
                            let j = now.index_of(k);
                            if k == k0 {
                                assert(now[j] == now[old_keys.len() as int]);
                            } else {
                                assert(old_keys.contains(k));
                                let m = old_keys.index_of(k);
                                assert(now[m] == k);
                                assert(now[j] == now[m]);
                            }
                        }
                    }
                }
            },
        }
        *self = TextMap { keys, values };
    }
}

} // verus!
