//! A map from names to values that keeps its entries in the order in which
//! their names were first inserted.
use vstd::prelude::*;

verus! {

/// What can be copied without changing what it stands for.
pub trait Replicate: View + Sized {
    /// A copy that stands for the same.
    fn replicate(&self) -> (r: Self)
        ensures
            r@ == self@,
    ;
}

/// The position of `name` among `items`.
pub open spec fn position<T>(items: Seq<(Seq<char>, T)>, name: Seq<char>) -> int {
    choose|i: int| 0 <= i < items.len() && (#[trigger] items[i]).0 == name
}

/// Whether `items` holds an entry under `name`.
pub open spec fn holds<T>(items: Seq<(Seq<char>, T)>, name: Seq<char>) -> bool {
    exists|i: int| 0 <= i < items.len() && (#[trigger] items[i]).0 == name
}

/// The map with the given entries.
pub open spec fn as_map<T>(items: Seq<(Seq<char>, T)>) -> Map<Seq<char>, T> {
    Map::new(|name: Seq<char>| holds(items, name), |name: Seq<char>| items[position(items, name)].1)
}

/// Whether no name occurs twice.
pub open spec fn distinct<T>(items: Seq<(Seq<char>, T)>) -> bool {
    forall|i: int, j: int|
        0 <= i < j < items.len() ==> (#[trigger] items[i]).0 != (#[trigger] items[j]).0
}

/// The entries after `name` was given the value `value`.
pub open spec fn inserted<T>(items: Seq<(Seq<char>, T)>, name: Seq<char>, value: T) -> Seq<
    (Seq<char>, T),
> {
    if holds(items, name) {
        items.update(position(items, name), (name, value))
    } else {
        items.push((name, value))
    }
}

/// A map from names to values.
#[derive(Debug)]
pub struct NameMap<V> {
    entries: Vec<(String, V)>,
}

impl<V> NameMap<V> {
    #[verifier::type_invariant]
    spec fn names_distinct(self) -> bool {
        forall|i: int, j: int|
            0 <= i < j < self.entries@.len() ==> (#[trigger] self.entries@[i]).0@ != (
            #[trigger] self.entries@[j]).0@
    }
}

impl<V: View> View for NameMap<V> {
    type V = Map<Seq<char>, V::V>;

    open spec fn view(&self) -> Map<Seq<char>, V::V> {
        as_map(self.items())
    }
}

impl<V: View> NameMap<V> {
    /// The entries, in order.
    pub closed spec fn items(&self) -> Seq<(Seq<char>, V::V)> {
        Seq::new(self.entries@.len(), |i: int| (self.entries@[i].0@, self.entries@[i].1@))
    }

    /// The map without entries.
    pub fn new() -> (r: Self)
        ensures
            r.items() == Seq::<(Seq<char>, V::V)>::empty(),
            r@ == Map::<Seq<char>, V::V>::empty(),
    {
        let r = NameMap { entries: Vec::new() };
        assert(r.items() == Seq::<(Seq<char>, V::V)>::empty());
        assert(r@ == Map::<Seq<char>, V::V>::empty());
        r
    }

    /// The number of entries.
    pub fn len(&self) -> (r: usize)
        ensures
            r == self.items().len(),
    {
        self.entries.len()
    }

    /// Whether there is no entry.
    pub fn is_empty(&self) -> (r: bool)
        ensures
            r == (self.items().len() == 0),
            r == (self@ == Map::<Seq<char>, V::V>::empty()),
    {
        proof {
            if self.items().len() > 0 {
                assert(holds(self.items(), self.items()[0].0));
                assert(self@.dom().contains(self.items()[0].0));
            } else {
                assert(self@ =~= Map::<Seq<char>, V::V>::empty());
            }
        }
        self.entries.len() == 0
    }

    /// The name of the entry at `i`.
    pub fn name_at(&self, i: usize) -> (r: &String)
        requires
            i < self.items().len(),
        ensures
            r@ == self.items()[i as int].0,
    {
        &self.entries[i].0
    }

    /// The value of the entry at `i`.
    pub fn value_at(&self, i: usize) -> (r: &V)
        requires
            i < self.items().len(),
        ensures
            r@ == self.items()[i as int].1,
    {
        &self.entries[i].1
    }

    /// The position of the entry under `name`.
    fn find(&self, name: &str) -> (r: Option<usize>)
        ensures
            match r {
                Some(i) => i < self.items().len() && self.items()[i as int].0 == name@ && i
                    == position(self.items(), name@),
                None => !holds(self.items(), name@),
            },
    {
        proof {
            use_type_invariant(self);
        }
        let wanted = name.to_owned();
        let mut i: usize = 0;
        while i < self.entries.len()
            invariant
                wanted@ == name@,
                distinct(self.items()),
                forall|j: int| 0 <= j < i ==> (#[trigger] self.items()[j]).0 != name@,
            decreases self.entries.len() - i,
        {
            assert(self.items()[i as int].0 == self.entries@[i as int].0@);
            if self.entries[i].0 == wanted {
                return Some(i);
            }
            i += 1;
        }
        None
    }

    /// The value under `name`.
    pub fn get(&self, name: &str) -> (r: Option<&V>)
        ensures
            match r {
                Some(v) => self@.dom().contains(name@) && v@ == self@[name@],
                None => !self@.dom().contains(name@),
            },
    {
        match self.find(name) {
            Some(i) => Some(&self.entries[i].1),
            None => None,
        }
    }

    /// Whether there is a value under `name`.
    pub fn contains_key(&self, name: &str) -> (r: bool)
        ensures
            r == self@.dom().contains(name@),
    {
        self.find(name).is_some()
    }

    /// Puts `value` under `name`, in the place of the value that was there.
    pub fn insert(&mut self, name: String, value: V)
        ensures
            final(self).items() == inserted(old(self).items(), name@, value@),
            final(self)@ == old(self)@.insert(name@, value@),
    {
        let found = self.find(name.as_str());
        proof {
            use_type_invariant(&*self);
        }
        let ghost before = self.items();
        let mut entries: Vec<(String, V)> = Vec::new();
        std::mem::swap(&mut entries, &mut self.entries);
        match found {
            Some(i) => {
                entries.set(i, (name, value));
            },
            None => {
                entries.push((name, value));
            },
        }
        let ghost after = inserted(before, name@, value@);
        assert(Seq::new(entries@.len(), |i: int| (entries@[i].0@, entries@[i].1@)) == after);
        proof {
            lemma_inserted(before, name@, value@);
            assert forall|i: int, j: int| 0 <= i < j < entries@.len() implies (
            #[trigger] entries@[i]).0@ != (#[trigger] entries@[j]).0@ by {
                assert(after[i].0 != after[j].0);
            }
        }
        self.entries = entries;
    }
}

impl<V: Replicate> NameMap<V> {
    /// Puts a copy of each entry of `other` into the map.
    pub fn extend(&mut self, other: &NameMap<V>)
        ensures
            final(self)@ == old(self)@.union_prefer_right(other@),
    {
        let mut i: usize = 0;
        proof {
            use_type_invariant(other);
            assert(as_map(other.items().take(0)) =~= Map::<Seq<char>, V::V>::empty());
            assert(old(self)@.union_prefer_right(as_map(other.items().take(0))) =~= old(self)@);
        }
        while i < other.len()
            invariant
                i <= other.items().len(),
                distinct(other.items()),
                self@ == old(self)@.union_prefer_right(as_map(other.items().take(i as int))),
            decreases other.items().len() - i,
        {
            let name = other.name_at(i).clone();
            let value = other.value_at(i).replicate();
            proof {
                lemma_take(other.items(), i as int);
                assert(old(self)@.union_prefer_right(as_map(other.items().take(i + 1)))
                    =~= old(self)@.union_prefer_right(as_map(other.items().take(i as int))).insert(
                    name@,
                    value@,
                ));
            }
            self.insert(name, value);
            i += 1;
        }
        assert(other.items().take(i as int) == other.items());
    }
}

impl<V: Replicate> Replicate for NameMap<V> {
    fn replicate(&self) -> (r: Self)
        ensures
            r.items() == self.items(),
    {
        proof {
            use_type_invariant(self);
        }
        let mut entries: Vec<(String, V)> = Vec::new();
        let mut i: usize = 0;
        while i < self.entries.len()
            invariant
                i <= self.entries@.len(),
                entries@.len() == i,
                forall|j: int|
                    0 <= j < i ==> (#[trigger] entries@[j]).0@ == self.entries@[j].0@
                        && entries@[j].1@ == self.entries@[j].1@,
            decreases self.entries.len() - i,
        {
            entries.push((self.entries[i].0.clone(), self.entries[i].1.replicate()));
            i += 1;
        }
        assert(Seq::new(entries@.len(), |i: int| (entries@[i].0@, entries@[i].1@))
            == self.items());
        NameMap { entries }
    }
}

impl<V: Replicate> Clone for NameMap<V> {
    fn clone(&self) -> (r: Self)
        ensures
            r@ == self@,
    {
        self.replicate()
    }
}

/// Inserting gives the name its value, keeps the others, and keeps names distinct.
pub proof fn lemma_inserted<T>(items: Seq<(Seq<char>, T)>, name: Seq<char>, value: T)
    requires
        distinct(items),
    ensures
        distinct(inserted(items, name, value)),
        as_map(inserted(items, name, value)) == as_map(items).insert(name, value),
{
    let after = inserted(items, name, value);
    let p = if holds(items, name) {
        position(items, name)
    } else {
        items.len() as int
    };
    assert(after[p] == (name, value));
    assert forall|k: Seq<char>| as_map(after).dom().contains(k) == as_map(items).insert(
        name,
        value,
    ).dom().contains(k) by {
        if holds(after, k) && k != name {
            let i = position(after, k);
            assert(items[i] == after[i]);
        }
        if holds(items, k) && k != name {
            let i = position(items, k);
            assert(items[i] == after[i]);
        }
    }
    assert forall|k: Seq<char>| holds(after, k) implies as_map(after)[k] == as_map(items).insert(
        name,
        value,
    )[k] by {
        let i = position(after, k);
        if k != name {
            assert(items[i] == after[i]);
            let j = position(items, k);
            assert(items[j].0 == items[i].0);
        } else {
            assert(after[i].0 == after[p].0);
        }
    }
    assert(as_map(after) =~= as_map(items).insert(name, value));
}

/// One entry more puts one value more into the map.
proof fn lemma_take<T>(items: Seq<(Seq<char>, T)>, n: int)
    requires
        distinct(items),
        0 <= n < items.len(),
    ensures
        as_map(items.take(n + 1)) == as_map(items.take(n)).insert(items[n].0, items[n].1),
{
    let head = items.take(n);
    assert(distinct(head));
    assert(!holds(head, items[n].0));
    lemma_inserted(head, items[n].0, items[n].1);
    assert(items.take(n + 1) == head.push(items[n]));
}

}
