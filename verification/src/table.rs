//! A table keyed by text.
use vstd::prelude::*;

use crate::text;

verus! {

/// A map from texts to values, held as a list of keys without duplicates and
/// the list of their values.
pub struct Table<V> {
    keys: Vec<String>,
    values: Vec<V>,
}

/// Is `k` among the keys?
spec fn has_key(keys: Seq<String>, k: Seq<char>) -> bool {
    exists|i: int| 0 <= i < keys.len() && (#[trigger] keys[i])@ == k
}

/// The position of the key `k`.
spec fn place_of(keys: Seq<String>, k: Seq<char>) -> int {
    choose|i: int| 0 <= i < keys.len() && (#[trigger] keys[i])@ == k
}

spec fn as_map<V>(keys: Seq<String>, values: Seq<V>) -> Map<Seq<char>, V> {
    Map::new(|k: Seq<char>| has_key(keys, k), |k: Seq<char>| values[place_of(keys, k)])
}

spec fn distinct(keys: Seq<String>) -> bool {
    forall|i: int, j: int|
        0 <= i < j < keys.len() ==> (#[trigger] keys[i])@ != (#[trigger] keys[j])@
}

impl<V> View for Table<V> {
    type V = Map<Seq<char>, V>;

    closed spec fn view(&self) -> Map<Seq<char>, V> {
        as_map(self.keys@, self.values@)
    }
}

proof fn lemma_place(keys: Seq<String>, i: int)
    requires
        distinct(keys),
        0 <= i < keys.len(),
    ensures
        has_key(keys, keys[i]@),
        place_of(keys, keys[i]@) == i,
{
    assert(has_key(keys, keys[i]@));
    let j = place_of(keys, keys[i]@);
    assert(keys[j]@ == keys[i]@);
}

proof fn lemma_has_key(keys: Seq<String>, k: Seq<char>)
    requires
        has_key(keys, k),
    ensures
        0 <= place_of(keys, k) < keys.len(),
        keys[place_of(keys, k)]@ == k,
{
}

proof fn lemma_updated<V>(keys: Seq<String>, values: Seq<V>, i: int, v: V)
    requires
        distinct(keys),
        keys.len() == values.len(),
        0 <= i < keys.len(),
    ensures
        as_map(keys, values.update(i, v)) == as_map(keys, values).insert(keys[i]@, v),
{
    lemma_place(keys, i);
    assert forall|k: Seq<char>| has_key(keys, k) implies as_map(keys, values.update(i, v))[k]
        == as_map(keys, values).insert(keys[i]@, v)[k] by {
        lemma_has_key(keys, k);
    }
    assert(as_map(keys, values.update(i, v)) =~= as_map(keys, values).insert(keys[i]@, v));
}

impl<V> Table<V> {
    #[verifier::type_invariant]
    spec fn keys_are_distinct(self) -> bool {
        distinct(self.keys@) && self.keys@.len() == self.values@.len()
    }

    /// The empty table.
    pub fn new() -> (r: Self)
        ensures
            r@ == Map::<Seq<char>, V>::empty(),
    {
        let r = Table { keys: Vec::new(), values: Vec::new() };
        assert(r@ =~= Map::empty());
        r
    }

    /// The position of the key `k`.
    fn position(&self, k: &str) -> (r: Option<usize>)
        ensures
            match r {
                Some(i) => i < self.keys@.len() && self.keys@[i as int]@ == k@
                    && self@.dom().contains(k@) && self@[k@] == self.values@[i as int],
                None => !self@.dom().contains(k@),
            },
    {
        proof {
            use_type_invariant(self);
        }
        let mut i: usize = 0;
        while i < self.keys.len()
            invariant
                i <= self.keys@.len(),
                distinct(self.keys@),
                forall|j: int| 0 <= j < i ==> (#[trigger] self.keys@[j])@ != k@,
            decreases self.keys@.len() - i,
        {
            if text::same_text(self.keys[i].as_str(), k) {
                proof {
                    lemma_place(self.keys@, i as int);
                }
                return Some(i);
            }
            i += 1;
        }
        None
    }

    /// Does the table hold the key `k`?
    pub fn contains(&self, k: &str) -> (r: bool)
        ensures
            r == self@.dom().contains(k@),
    {
        self.position(k).is_some()
    }

    /// The value at `k`.
    pub fn get(&self, k: &str) -> (r: Option<&V>)
        ensures
            match r {
                Some(v) => self@.dom().contains(k@) && *v == self@[k@],
                None => !self@.dom().contains(k@),
            },
    {
        proof {
            use_type_invariant(self);
        }
        match self.position(k) {
            Some(i) => Some(&self.values[i]),
            None => None,
        }
    }

    /// The value at `k`, to be changed in place.
    pub fn get_mut(&mut self, k: &str) -> (r: Option<&mut V>)
        ensures
            match r {
                Some(v) => old(self)@.dom().contains(k@) && *v == old(self)@[k@] && final(self)@
                    == old(self)@.insert(k@, *final(v)),
                None => !old(self)@.dom().contains(k@) && final(self)@ == old(self)@,
            },
    {
        proof {
            use_type_invariant(&*self);
        }
        match self.position(k) {
            Some(i) => {
                proof {
                    assert forall|v: V| #[trigger]
                        as_map(self.keys@, self.values@.update(i as int, v)) == as_map(
                            self.keys@,
                            self.values@,
                        ).insert(k@, v) by {
                        lemma_updated(self.keys@, self.values@, i as int, v);
                    }
                }
                Some(&mut self.values[i])
            },
            None => None,
        }
    }

    /// Takes the value at `k` out of the table.
    pub fn remove(&mut self, k: &str) -> (r: Option<V>)
        ensures
            final(self)@ == old(self)@.remove(k@),
            match r {
                Some(v) => old(self)@.dom().contains(k@) && v == old(self)@[k@],
                None => !old(self)@.dom().contains(k@),
            },
    {
        proof {
            use_type_invariant(&*self);
        }
        match self.position(k) {
            None => {
                assert(self@.remove(k@) =~= self@);
                None
            },
            Some(i) => {
                let ghost keys0 = self.keys@;
                let ghost values0 = self.values@;
                let mut whole: Table<V> = Table::new();
                std::mem::swap(&mut whole, self);
                let Table { keys, values } = whole;
                let mut keys = keys;
                let mut values = values;
                let key = keys.remove(i);
                let value = values.remove(i);
                proof {
                    lemma_removed(keys0, values0, i as int);
                }
                let less = Table { keys, values };
                *self = less;
                assert(self@ =~= old(self)@.remove(k@));
                Some(value)
            },
        }
    }

    /// Puts `v` at `k`, in place of what was there.
    pub fn insert(&mut self, k: String, v: V)
        ensures
            final(self)@ == old(self)@.insert(k@, v),
    {
        let gone = self.remove(k.as_str());
        proof {
            use_type_invariant(&*self);
        }
        let ghost keys0 = self.keys@;
        let ghost values0 = self.values@;
        let mut whole: Table<V> = Table::new();
        std::mem::swap(&mut whole, self);
        let Table { keys, values } = whole;
        let mut keys = keys;
        let mut values = values;
        keys.push(k);
        values.push(v);
        proof {
            assert(!has_key(keys0, k@)) by {
                if has_key(keys0, k@) {
                    assert(as_map(keys0, values0).dom().contains(k@));
                }
            }
            assert(forall|j: int| 0 <= j < keys0.len() ==> (#[trigger] keys0[j])@ != k@);
            lemma_pushed(keys0, values0, k, v);
        }
        let more = Table { keys, values };
        *self = more;
        assert(self@ =~= old(self)@.insert(k@, v));
    }
}

proof fn lemma_removed<V>(keys: Seq<String>, values: Seq<V>, i: int)
    requires
        distinct(keys),
        keys.len() == values.len(),
        0 <= i < keys.len(),
    ensures
        distinct(keys.remove(i)),
        as_map(keys.remove(i), values.remove(i)) == as_map(keys, values).remove(keys[i]@),
{
    let less = keys.remove(i);
    assert forall|a: int, b: int| 0 <= a < b < less.len() implies (#[trigger] less[a])@ != (
    #[trigger] less[b])@ by {
        let x = if a < i {
            a
        } else {
            a + 1
        };
        let y = if b < i {
            b
        } else {
            b + 1
        };
        assert(less[a] == keys[x] && less[b] == keys[y]);
    }
    let small = as_map(less, values.remove(i));
    let large = as_map(keys, values).remove(keys[i]@);
    assert forall|k: Seq<char>| #[trigger] small.dom().contains(k) == large.dom().contains(k) by {
        if has_key(less, k) {
            lemma_has_key(less, k);
            let a = place_of(less, k);
            let x = if a < i {
                a
            } else {
                a + 1
            };
            assert(keys[x] == less[a]);
            lemma_place(keys, x);
            lemma_place(keys, i);
        }
        if has_key(keys, k) && k != keys[i]@ {
            lemma_has_key(keys, k);
            let x = place_of(keys, k);
            let a = if x < i {
                x
            } else {
                x - 1
            };
            assert(less[a] == keys[x]);
            assert(has_key(less, k));
        }
    }
    assert forall|k: Seq<char>| #[trigger] small.dom().contains(k) implies small[k] == large[k] by {
        lemma_has_key(less, k);
        let a = place_of(less, k);
        let x = if a < i {
            a
        } else {
            a + 1
        };
        assert(keys[x] == less[a]);
        assert(values.remove(i)[a] == values[x]);
        lemma_place(keys, x);
        lemma_place(less, a);
    }
    assert(small =~= large);
}

proof fn lemma_pushed<V>(keys: Seq<String>, values: Seq<V>, key: String, value: V)
    requires
        distinct(keys),
        keys.len() == values.len(),
        forall|j: int| 0 <= j < keys.len() ==> (#[trigger] keys[j])@ != key@,
    ensures
        distinct(keys.push(key)),
        as_map(keys.push(key), values.push(value)) == as_map(keys, values).insert(key@, value),
{
    let more = keys.push(key);
    let large = as_map(more, values.push(value));
    let small = as_map(keys, values).insert(key@, value);
    assert forall|k: Seq<char>| #[trigger] large.dom().contains(k) == small.dom().contains(k) by {
        if has_key(more, k) {
            lemma_has_key(more, k);
            let a = place_of(more, k);
            if a < keys.len() {
                assert(keys[a] == more[a]);
                assert(has_key(keys, k));
            }
        }
        if has_key(keys, k) {
            lemma_has_key(keys, k);
            assert(more[place_of(keys, k)] == keys[place_of(keys, k)]);
            assert(has_key(more, k));
        }
        if k == key@ {
            assert(more[keys.len() as int] == key);
            assert(has_key(more, k));
        }
    }
    assert forall|k: Seq<char>| #[trigger] large.dom().contains(k) implies large[k] == small[k] by {
        lemma_has_key(more, k);
        let a = place_of(more, k);
        if a < keys.len() {
            assert(keys[a] == more[a]);
            lemma_place(keys, a);
        }
    }
    assert(large =~= small);
}

} // verus!
