//! Small collections keyed by text or by number.
use vstd::prelude::*;

verus! {

/// A map from text to values.
pub struct Registry<T> {
    names: Vec<String>,
    values: Vec<T>,
}

impl<T> Registry<T> {
    /// The keys, in the order in which they were first put in.
    pub closed spec fn order(&self) -> Seq<Seq<char>> {
        Seq::new(self.names@.len(), |i: int| self.names@[i]@)
    }

    pub closed spec fn wf(&self) -> bool {
        &&& self.names@.len() == self.values@.len()
        &&& self.order().no_duplicates()
    }
}

impl<T: View> View for Registry<T> {
    type V = Map<Seq<char>, T::V>;

    closed spec fn view(&self) -> Map<Seq<char>, T::V> {
        Map::new(
            |name: Seq<char>| self.order().contains(name),
            |name: Seq<char>| self.values@[self.order().index_of(name)]@,
        )
    }
}

impl<T: View> Registry<T> {
    /// Every key stands in the order once.
    pub proof fn lemma_order(&self)
        requires
            self.wf(),
        ensures
            self.order().no_duplicates(),
            forall|name: Seq<char>| self@.contains_key(name) <==> self.order().contains(name),
    {
    }

    proof fn lemma_at(&self, i: int)
        requires
            self.wf(),
            0 <= i < self.names@.len(),
        ensures
            self.order()[i] == self.names@[i]@,
            self@.contains_key(self.names@[i]@),
            self@[self.names@[i]@] == self.values@[i]@,
    {
        assert(self.order().contains(self.order()[i]));
    }

    pub fn new() -> (registry: Self)
        ensures
            registry.wf(),
            registry@ == Map::<Seq<char>, T::V>::empty(),
    {
        let registry = Registry { names: Vec::new(), values: Vec::new() };
        assert(registry@ =~= Map::<Seq<char>, T::V>::empty());
        registry
    }

    pub fn len(&self) -> (len: usize)
        requires
            self.wf(),
        ensures
            len == self.order().len(),
    {
        self.names.len()
    }

    pub fn find(&self, name: &String) -> (found: Option<usize>)
        requires
            self.wf(),
        ensures
            found is Some == self@.contains_key(name@),
            found matches Some(i) ==> i < self.order().len() && self.order()[i as int] == name@,
    {
        let mut i: usize = 0;
        while i < self.names.len()
            invariant
                i <= self.names.len(),
                forall|j: int| 0 <= j < i ==> #[trigger] self.order()[j] != name@,
            decreases self.names.len() - i,
        {
            if self.names[i] == *name {
                assert(self.order()[i as int] == name@);
                return Some(i);
            }
            i = i + 1;
        }
        None
    }

    pub fn name_at(&self, i: usize) -> (name: &String)
        requires
            self.wf(),
            i < self.order().len(),
        ensures
            name@ == self.order()[i as int],
    {
        &self.names[i]
    }

    pub fn value_at(&self, i: usize) -> (value: &T)
        requires
            self.wf(),
            i < self.order().len(),
        ensures
            self@.contains_key(self.order()[i as int]),
            value@ == self@[self.order()[i as int]],
    {
        proof {
            self.lemma_at(i as int);
        }
        &self.values[i]
    }

    pub fn get(&self, name: &String) -> (value: Option<&T>)
        requires
            self.wf(),
        ensures
            value is Some == self@.contains_key(name@),
            value matches Some(value) ==> value@ == self@[name@],
    {
        match self.find(name) {
            Some(i) => Some(self.value_at(i)),
            None => None,
        }
    }

    pub fn contains(&self, name: &String) -> (found: bool)
        requires
            self.wf(),
        ensures
            found == self@.contains_key(name@),
    {
        self.find(name).is_some()
    }

    /// Puts a value in, in place of the one under the same key.
    pub fn put(&mut self, name: String, value: T)
        requires
            old(self).wf(),
        ensures
            final(self).wf(),
            final(self)@ == old(self)@.insert(name@, value@),
    {
        let ghost before = *self;
        match self.find(&name) {
            Some(i) => {
                proof {
                    before.lemma_at(i as int);
                }
                self.values[i] = value;
                proof {
                    assert(self.order() =~= before.order());
                    assert(self.wf());
                    assert forall|k: Seq<char>| self@.contains_key(k) implies #[trigger] self@[k]
                        == before@.insert(name@, value@)[k] by {
                        let j = self.order().index_of(k);
                        self.lemma_at(j);
                        before.lemma_at(j);
                    }
                }
            },
            None => {
                let ghost n = self.names@.len() as int;
                self.names.push(name);
                self.values.push(value);
                proof {
                    assert(self.order() =~= before.order().push(name@));
                    assert(self.wf());
                    assert forall|k: Seq<char>|
                        #[trigger] self@.contains_key(k) == before@.insert(name@, value@).contains_key(k) by {
                        if before.order().contains(k) {
                            let j = before.order().index_of(k);
                            assert(self.order()[j] == k);
                        }
                        assert(self.order()[n] == name@);
                    }
                    assert forall|k: Seq<char>| self@.contains_key(k) implies #[trigger] self@[k]
                        == before@.insert(name@, value@)[k] by {
                        let j = self.order().index_of(k);
                        self.lemma_at(j);
                        if j < n {
                            before.lemma_at(j);
                            assert(k != name@);
                        }
                    }
                }
            },
        }
        assert(self@ =~= before@.insert(name@, value@));
    }

    /// Gives access to the value at a position of the order.
    pub fn at_mut(&mut self, i: usize) -> (value: &mut T)
        requires
            old(self).wf(),
            i < old(self).order().len(),
        ensures
            final(self).wf(),
            final(self).order() == old(self).order(),
            old(self)@.contains_key(old(self).order()[i as int]),
            (*value)@ == old(self)@[old(self).order()[i as int]],
            final(self)@ == old(self)@.insert(old(self).order()[i as int], (*final(value))@),
    {
        proof {
            self.lemma_at(i as int);
            let before = *self;
            assert forall|after: Registry<T>|
                after.names == before.names && after.values@ == before.values@.update(
                    i as int,
                    after.values@[i as int],
                ) implies #[trigger] after.wf() && after.order() == before.order() && after@
                == before@.insert(before.order()[i as int], after.values@[i as int]@) by {
                before.lemma_replaced(after, i as int);
            }
        }
        &mut self.values[i]
    }

    proof fn lemma_replaced(&self, after: Registry<T>, i: int)
        requires
            self.wf(),
            0 <= i < self.names@.len(),
            after.names == self.names,
            after.values@ == self.values@.update(i, after.values@[i]),
        ensures
            after.wf(),
            after.order() == self.order(),
            after@ == self@.insert(self.order()[i], after.values@[i]@),
    {
        self.lemma_at(i);
        assert(after.order() =~= self.order());
        assert forall|k: Seq<char>| after@.contains_key(k) implies #[trigger] after@[k]
            == self@.insert(self.order()[i], after.values@[i]@)[k] by {
            let j = after.order().index_of(k);
            after.lemma_at(j);
            self.lemma_at(j);
        }
        assert(after@ =~= self@.insert(self.order()[i], after.values@[i]@));
    }

    /// Takes out the value at a position of the order.
    pub fn remove_at(&mut self, i: usize) -> (value: T)
        requires
            old(self).wf(),
            i < old(self).order().len(),
        ensures
            final(self).wf(),
            final(self)@ == old(self)@.remove(old(self).order()[i as int]),
            final(self).order() == old(self).order().remove(i as int),
            value@ == old(self)@[old(self).order()[i as int]],
    {
        let ghost before = *self;
        let ghost name = before.order()[i as int];
        self.names.remove(i);
        let value = self.values.remove(i);
        proof {
            before.lemma_at(i as int);
            assert(self.order() =~= before.order().remove(i as int));
            assert forall|a: int, b: int|
                0 <= a < self.order().len() && 0 <= b < self.order().len() && a
                    != b implies self.order()[a] != self.order()[b] by {
                let a2 = if a < i { a } else { a + 1 };
                let b2 = if b < i { b } else { b + 1 };
                assert(before.order()[a2] != before.order()[b2]);
            }
            assert(self.wf());
            assert forall|k: Seq<char>|
                #[trigger] self@.contains_key(k) == before@.remove(name).contains_key(k) by {
                if before.order().contains(k) && k != name {
                    let j = before.order().index_of(k);
                    let j2 = if j < i { j } else { j - 1 };
                    assert(self.order()[j2] == k);
                }
                if self.order().contains(k) {
                    let j = self.order().index_of(k);
                    let j2 = if j < i { j } else { j + 1 };
                    assert(before.order()[j2] == k);
                }
            }
            assert forall|k: Seq<char>| self@.contains_key(k) implies #[trigger] self@[k]
                == before@.remove(name)[k] by {
                let j = self.order().index_of(k);
                self.lemma_at(j);
                let j2 = if j < i { j } else { j + 1 };
                before.lemma_at(j2);
            }
            assert(self@ =~= before@.remove(name));
        }
        value
    }

    /// Takes out the value under a key.
    pub fn remove(&mut self, name: &String) -> (value: Option<T>)
        requires
            old(self).wf(),
        ensures
            final(self).wf(),
            final(self)@ == old(self)@.remove(name@),
            value is Some == old(self)@.contains_key(name@),
            value matches Some(value) ==> value@ == old(self)@[name@],
    {
        match self.find(name) {
            Some(i) => Some(self.remove_at(i)),
            None => {
                assert(self@ =~= self@.remove(name@));
                None
            },
        }
    }
}

/// A set of texts.
#[derive(Debug)]
pub struct NameSet {
    names: Vec<String>,
}

impl View for NameSet {
    type V = Set<Seq<char>>;

    closed spec fn view(&self) -> Set<Seq<char>> {
        Set::new(|name: Seq<char>| exists|i: int| 0 <= i < self.names@.len() && self.names@[i]@ == name)
    }
}

impl NameSet {
    pub fn new() -> (set: Self)
        ensures
            set@ == Set::<Seq<char>>::empty(),
    {
        let set = NameSet { names: Vec::new() };
        assert(set@ =~= Set::<Seq<char>>::empty());
        set
    }

    pub fn contains(&self, name: &String) -> (found: bool)
        ensures
            found == self@.contains(name@),
    {
        let mut i: usize = 0;
        while i < self.names.len()
            invariant
                i <= self.names.len(),
                forall|j: int| 0 <= j < i ==> self.names@[j]@ != name@,
            decreases self.names.len() - i,
        {
            if self.names[i] == *name {
                return true;
            }
            i = i + 1;
        }
        false
    }

    /// Adds a name. Says whether it is new.
    pub fn insert(&mut self, name: String) -> (added: bool)
        ensures
            final(self)@ == old(self)@.insert(name@),
            added == !old(self)@.contains(name@),
    {
        let ghost before = *self;
        if self.contains(&name) {
            assert(self@ =~= before@.insert(name@));
            false
        } else {
            self.names.push(name);
            proof {
                assert forall|n: Seq<char>| #[trigger]
                    self@.contains(n) == before@.insert(name@).contains(n) by {
                    if before@.contains(n) {
                        let i = choose|i: int|
                            0 <= i < before.names@.len() && before.names@[i]@ == n;
                        assert(self.names@[i]@ == n);
                    }
                    assert(self.names@[before.names@.len() as int]@ == name@);
                }
                assert(self@ =~= before@.insert(name@));
            }
            true
        }
    }

    /// Takes a name out. Says whether it was there.
    pub fn remove(&mut self, name: &String) -> (removed: bool)
        ensures
            final(self)@ == old(self)@.remove(name@),
            removed == old(self)@.contains(name@),
    {
        let ghost before = *self;
        let removed = self.contains(name);
        let mut kept = NameSet::new();
        let mut i: usize = 0;
        while i < self.names.len()
            invariant
                i <= self.names.len(),
                *self == before,
                forall|n: Seq<char>| #[trigger]
                    kept@.contains(n) <==> n != name@ && exists|j: int|
                        0 <= j < i && before.names@[j]@ == n,
            decreases self.names.len() - i,
        {
            let ghost was = kept@;
            if self.names[i] != *name {
                let copy = self.names[i].clone();
                kept.insert(copy);
            }
            i = i + 1;
            proof {
                assert forall|n: Seq<char>| #[trigger]
                    kept@.contains(n) <==> n != name@ && exists|j: int|
                        0 <= j < i && before.names@[j]@ == n by {
                    if was.contains(n) {
                        let j = choose|j: int| 0 <= j < i - 1 && before.names@[j]@ == n;
                        assert(0 <= j < i && before.names@[j]@ == n);
                    }
                    assert(before.names@[i - 1]@ == before.names@[i - 1]@);
                }
            }
        }
        *self = kept;
        assert(self@ =~= before@.remove(name@));
        removed
    }

    /// The names one by one.
    pub fn names(&self) -> (names: Vec<String>)
        ensures
            forall|name: Seq<char>| #[trigger]
                self@.contains(name) <==> exists|i: int| 0 <= i < names@.len() && names@[i]@ == name,
    {
        self.copy().names
    }

    pub fn copy(&self) -> (set: Self)
        ensures
            set@ == self@,
    {
        let mut names: Vec<String> = Vec::new();
        let mut i: usize = 0;
        while i < self.names.len()
            invariant
                i <= self.names.len(),
                names@ == self.names@.take(i as int),
            decreases self.names.len() - i,
        {
            names.push(self.names[i].clone());
            i = i + 1;
            assert(names@ =~= self.names@.take(i as int));
        }
        assert(names@ =~= self.names@);
        let set = NameSet { names };
        assert(set@ =~= self@);
        set
    }
}

/// A set of numbers.
#[derive(Debug)]
pub struct IdSet {
    ids: Vec<usize>,
}

impl View for IdSet {
    type V = Set<usize>;

    closed spec fn view(&self) -> Set<usize> {
        self.ids@.to_set()
    }
}

impl IdSet {
    pub fn new() -> (set: Self)
        ensures
            set@ == Set::<usize>::empty(),
    {
        let set = IdSet { ids: Vec::new() };
        assert(set@ =~= Set::<usize>::empty());
        set
    }

    pub fn contains(&self, id: usize) -> (found: bool)
        ensures
            found == self@.contains(id),
    {
        let mut i: usize = 0;
        while i < self.ids.len()
            invariant
                i <= self.ids.len(),
                forall|j: int| 0 <= j < i ==> self.ids@[j] != id,
            decreases self.ids.len() - i,
        {
            if self.ids[i] == id {
                return true;
            }
            i = i + 1;
        }
        false
    }

    pub fn insert(&mut self, id: usize)
        ensures
            final(self)@ == old(self)@.insert(id),
    {
        let ghost before = *self;
        if !self.contains(id) {
            self.ids.push(id);
            proof {
                assert forall|n: usize| #[trigger]
                    self@.contains(n) == before@.insert(id).contains(n) by {
                    if before@.contains(n) {
                        let i = choose|i: int| 0 <= i < before.ids@.len() && before.ids@[i] == n;
                        assert(self.ids@[i] == n);
                    }
                    assert(self.ids@[before.ids@.len() as int] == id);
                }
            }
        }
        assert(self@ =~= before@.insert(id));
    }

    /// Takes a number out. Says whether it was there.
    pub fn remove(&mut self, id: usize) -> (removed: bool)
        ensures
            final(self)@ == old(self)@.remove(id),
            removed == old(self)@.contains(id),
    {
        let ghost before = *self;
        let removed = self.contains(id);
        let mut kept: Vec<usize> = Vec::new();
        let mut i: usize = 0;
        while i < self.ids.len()
            invariant
                i <= self.ids.len(),
                *self == before,
                forall|n: usize| #[trigger]
                    kept@.contains(n) <==> n != id && before.ids@.take(i as int).contains(n),
            decreases self.ids.len() - i,
        {
            let ghost was = kept@;
            let ghost seen = before.ids@.take(i as int);
            if self.ids[i] != id {
                kept.push(self.ids[i]);
            }
            i = i + 1;
            proof {
                assert(before.ids@.take(i as int) =~= seen.push(before.ids@[i - 1]));
                assert forall|n: usize| #[trigger]
                    kept@.contains(n) <==> n != id && before.ids@.take(i as int).contains(n) by {
                    lemma_push_contains(was, before.ids@[i - 1], n);
                    lemma_push_contains(seen, before.ids@[i - 1], n);
                }
            }
        }
        self.ids = kept;
        assert(before.ids@.take(before.ids@.len() as int) =~= before.ids@);
        assert(self@ =~= before@.remove(id));
        removed
    }
}

/// A pushed sequence contains what it contained, and what was pushed.
pub proof fn lemma_push_contains<A>(s: Seq<A>, a: A, b: A)
    ensures
        s.push(a).contains(b) <==> s.contains(b) || a == b,
{
    if s.contains(b) {
        let i = choose|i: int| 0 <= i < s.len() && s[i] == b;
        assert(s.push(a)[i] == b);
    }
    assert(s.push(a)[s.len() as int] == a);
}

} // verus!
