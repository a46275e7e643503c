//! Tables whose keys are handed out by a slab.
//!
//! The slab decides which key a new row gets: the key released last, or the
//! first key never used. The rows themselves sit in a vector beside it.
use slab::Slab;
use vstd::prelude::*;

verus! {

/// Slots a slab may hold before its storage could outgrow the address space.
pub open spec fn slot_limit() -> int {
    usize::MAX as int / 128
}

#[verifier::external_type_specification]
#[verifier::external_body]
#[verifier::reject_recursive_types(T)]
pub struct ExSlab<T>(slab::Slab<T>);

/// For every slot of the slab, whether it is occupied.
pub uninterp spec fn slab_slots(keys: Slab<()>) -> Seq<bool>;

/// The vacant slots of the slab, the one that was released last at the end.
pub uninterp spec fn slab_vacant(keys: Slab<()>) -> Seq<usize>;

/// `Slab::with_capacity`: a slab without slots. The capacity is room that is
/// set aside, and the storage for it has to fit the address space.
#[verifier::external_body]
fn slab_with_capacity(capacity: usize) -> (keys: Slab<()>)
    requires
        capacity <= slot_limit(),
    ensures
        slab_slots(keys) == Seq::<bool>::empty(),
        slab_vacant(keys) == Seq::<usize>::empty(),
{
    Slab::with_capacity(capacity)
}

/// `Slab::insert`: the slot that was released last is taken again; where no
/// slot is vacant a new one is added at the end.
#[verifier::external_body]
fn slab_insert(keys: &mut Slab<()>) -> (key: usize)
    requires
        slab_vacant(*old(keys)).len() > 0 || slab_slots(*old(keys)).len() < slot_limit(),
    ensures
        slab_vacant(*old(keys)).len() > 0 ==> {
            &&& key == slab_vacant(*old(keys)).last()
            &&& slab_slots(*final(keys)) == slab_slots(*old(keys)).update(key as int, true)
            &&& slab_vacant(*final(keys)) == slab_vacant(*old(keys)).drop_last()
        },
        slab_vacant(*old(keys)).len() == 0 ==> {
            &&& key == slab_slots(*old(keys)).len()
            &&& slab_slots(*final(keys)) == slab_slots(*old(keys)).push(true)
            &&& slab_vacant(*final(keys)) == slab_vacant(*old(keys))
        },
{
    keys.insert(())
}

/// `Slab::remove`: the slot becomes vacant and is the next one to be taken.
#[verifier::external_body]
fn slab_remove(keys: &mut Slab<()>, key: usize)
    requires
        key < slab_slots(*old(keys)).len(),
        slab_slots(*old(keys))[key as int],
    ensures
        slab_slots(*final(keys)) == slab_slots(*old(keys)).update(key as int, false),
        slab_vacant(*final(keys)) == slab_vacant(*old(keys)).push(key),
{
    keys.remove(key)
}

/// `Slab::len`: how many slots are occupied.
#[verifier::external_body]
fn slab_len(keys: &Slab<()>) -> (len: usize)
    ensures
        len == slab_slots(*keys).len() - slab_vacant(*keys).len(),
{
    keys.len()
}

/// What a table holds: a row or nothing in every slot, and the vacant slots in
/// the order in which they were released.
#[verifier::ext_equal]
pub struct Slots<V> {
    pub rows: Seq<Option<V>>,
    pub vacant: Seq<usize>,
}

impl<V> Slots<V> {
    pub open spec fn empty() -> Self {
        Slots { rows: Seq::empty(), vacant: Seq::empty() }
    }

    /// The vacant slots are exactly those without a row, each named once.
    pub open spec fn wf(self) -> bool {
        &&& forall|i: int| 0 <= i < self.vacant.len() ==> (#[trigger] self.vacant[i])
            < self.rows.len() && self.rows[self.vacant[i] as int] is None
        &&& forall|i: int, j: int|
            0 <= i < j < self.vacant.len() ==> self.vacant[i] != self.vacant[j]
        &&& forall|k: int|
            0 <= k < self.rows.len() && #[trigger] self.rows[k] is None ==> self.vacant.contains(
                k as usize,
            )
        &&& self.rows.len() <= usize::MAX
    }

    pub open spec fn has(self, key: usize) -> bool {
        key < self.rows.len() && self.rows[key as int] is Some
    }

    pub open spec fn at(self, key: usize) -> V {
        self.rows[key as int]->0
    }

    pub open spec fn count(self) -> int {
        self.rows.len() - self.vacant.len()
    }

    /// Whether another row can be put in.
    pub open spec fn has_room(self) -> bool {
        self.vacant.len() > 0 || self.rows.len() < slot_limit()
    }

    pub open spec fn next_key(self) -> usize {
        if self.vacant.len() > 0 {
            self.vacant.last()
        } else {
            self.rows.len() as usize
        }
    }

    pub open spec fn insert(self, row: V) -> Self {
        if self.vacant.len() > 0 {
            Slots {
                rows: self.rows.update(self.vacant.last() as int, Some(row)),
                vacant: self.vacant.drop_last(),
            }
        } else {
            Slots { rows: self.rows.push(Some(row)), vacant: self.vacant }
        }
    }

    pub open spec fn set(self, key: usize, row: V) -> Self {
        Slots { rows: self.rows.update(key as int, Some(row)), vacant: self.vacant }
    }

    pub open spec fn remove(self, key: usize) -> Self {
        Slots { rows: self.rows.update(key as int, None), vacant: self.vacant.push(key) }
    }
}

impl<V> Slots<V> {
    pub proof fn lemma_set(self, key: usize, row: V)
        requires
            self.wf(),
            self.has(key),
        ensures
            self.set(key, row).wf(),
    {
        let after = self.set(key, row);
        assert forall|k: int|
            0 <= k < after.rows.len() && #[trigger] after.rows[k] is None implies after.vacant.contains(
            k as usize,
        ) by {
            assert(self.rows[k] is None);
        }
    }
}

/// A table of rows under keys that a slab hands out.
#[verifier::reject_recursive_types(T)]
pub struct Arena<T> {
    keys: Slab<()>,
    rows: Vec<Option<T>>,
}

pub open spec fn view_row<T: View>(row: Option<T>) -> Option<T::V> {
    match row {
        Some(t) => Some(t@),
        None => None,
    }
}

impl<T: View> View for Arena<T> {
    type V = Slots<T::V>;

    closed spec fn view(&self) -> Slots<T::V> {
        Slots {
            rows: Seq::new(self.rows@.len(), |i: int| view_row(self.rows@[i])),
            vacant: slab_vacant(self.keys),
        }
    }
}

impl<T: View> Arena<T> {
    pub closed spec fn wf(&self) -> bool {
        &&& self@.wf()
        &&& slab_slots(self.keys).len() == self.rows@.len()
        &&& forall|i: int|
            0 <= i < self.rows@.len() ==> #[trigger] slab_slots(self.keys)[i] == (
            self.rows@[i] is Some)
    }

    pub proof fn lemma_wf(&self)
        requires
            self.wf(),
        ensures
            self@.wf(),
    {
    }

    pub fn with_capacity(capacity: usize) -> (arena: Self)
        requires
            capacity <= slot_limit(),
        ensures
            arena.wf(),
            arena@ == Slots::<T::V>::empty(),
    {
        let arena = Arena { keys: slab_with_capacity(capacity), rows: Vec::new() };
        assert(arena@ == Slots::<T::V>::empty());
        arena
    }

    pub fn insert(&mut self, row: T) -> (key: usize)
        requires
            old(self).wf(),
            old(self)@.has_room(),
        ensures
            final(self).wf(),
            final(self)@ == old(self)@.insert(row@),
            key == old(self)@.next_key(),
            final(self)@.has(key),
            final(self)@.at(key) == row@,
            !old(self)@.has(key),
    {
        let ghost before = self@;
        let key = slab_insert(&mut self.keys);
        if key == self.rows.len() {
            self.rows.push(Some(row));
        } else {
            self.rows[key] = Some(row);
        }
        proof {
            let after = self@;
            if before.vacant.len() > 0 {
                assert(before.vacant[before.vacant.len() - 1] == key);
                assert(after =~= before.insert(row@));
                assert forall|k: int|
                    0 <= k < after.rows.len() && #[trigger] after.rows[k] is None implies after.vacant.contains(
                    k as usize,
                ) by {
                    assert(before.rows[k] is None);
                    let i = choose|i: int|
                        0 <= i < before.vacant.len() && before.vacant[i] == k as usize;
                    assert(after.vacant[i] == k as usize);
                }
            } else {
                assert(after =~= before.insert(row@));
                assert forall|k: int| 0 <= k < after.rows.len() implies #[trigger] after.rows[k] is Some by {
                    if k < before.rows.len() && before.rows[k] is None {
                        assert(before.vacant.contains(k as usize));
                    }
                }
            }
        }
        key
    }

    pub fn remove(&mut self, key: usize) -> (row: T)
        requires
            old(self).wf(),
            old(self)@.has(key),
        ensures
            final(self).wf(),
            final(self)@ == old(self)@.remove(key),
            row@ == old(self)@.at(key),
    {
        let ghost before = self@;
        slab_remove(&mut self.keys, key);
        let mut row: Option<T> = None;
        std::mem::swap(&mut self.rows[key], &mut row);
        proof {
            let after = self@;
            assert(after =~= before.remove(key));
            assert forall|k: int|
                0 <= k < after.rows.len() && #[trigger] after.rows[k] is None implies after.vacant.contains(
                k as usize,
            ) by {
                if k == key {
                    assert(after.vacant[before.vacant.len() as int] == key);
                } else {
                    assert(before.rows[k] is None);
                    let i = choose|i: int|
                        0 <= i < before.vacant.len() && before.vacant[i] == k as usize;
                    assert(after.vacant[i] == k as usize);
                }
            }
        }
        row.unwrap()
    }

    pub fn contains(&self, key: usize) -> (found: bool)
        ensures
            found == self@.has(key),
    {
        key < self.rows.len() && self.rows[key].is_some()
    }

    pub fn len(&self) -> (len: usize)
        requires
            self.wf(),
        ensures
            len == self@.count(),
    {
        slab_len(&self.keys)
    }

    pub fn slots(&self) -> (len: usize)
        ensures
            len == self@.rows.len(),
    {
        self.rows.len()
    }

    /// Whether another row can be put in.
    pub fn has_room(&self) -> (room: bool)
        requires
            self.wf(),
        ensures
            room == self@.has_room(),
    {
        self.len() < self.rows.len() || self.rows.len() < usize::MAX / 128
    }

    pub fn at(&self, key: usize) -> (row: &T)
        requires
            self@.has(key),
        ensures
            row@ == self@.at(key),
    {
        self.rows[key].as_ref().unwrap()
    }

    pub fn at_mut(&mut self, key: usize) -> (row: &mut T)
        requires
            old(self).wf(),
            old(self)@.has(key),
        ensures
            final(self).wf(),
            (*row)@ == old(self)@.at(key),
            final(self)@ == old(self)@.set(key, (*final(row))@),
    {
        proof {
            assert forall|arena: Arena<T>|
                arena.keys == self.keys && arena.rows@.len() == self.rows@.len()
                    && arena.rows@[key as int] is Some && arena.rows@
                    == self.rows@.update(key as int, arena.rows@[key as int]) implies #[trigger] arena.wf() by {
                let row = arena.rows@[key as int]->0;
                self@.lemma_set(key, row@);
                assert(arena@ =~= self@.set(key, row@));
            }
        }
        self.rows[key].as_mut().unwrap()
    }
}

} // verus!
