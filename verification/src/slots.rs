//! Storage with stable, generational ids. The ids come from a slot map; the
//! values are kept beside it in the order in which they were added.

use vstd::prelude::*;

verus! {

/// A slot map that holds keys alone: the source of the ids of an [`Arena`].
#[verifier::external_body]
pub struct KeySlots {
    slots: slotmap::SlotMap<slotmap::DefaultKey, ()>,
}

/// The keys that a slot map holds, each as the 64-bit number that stands for
/// it.
pub uninterp spec fn live_keys(slots: KeySlots) -> Set<u64>;

/// The number of slots that a slot map has made so far, free ones and the
/// unused first one included. It never shrinks, and the map is full when it
/// reaches `u32::MAX`.
pub uninterp spec fn slots_made(slots: KeySlots) -> nat;

/// `SlotMap::new`: an empty slot map, which has made its one unused slot.
#[verifier::external_body]
fn slots_new() -> (slots: KeySlots)
    ensures
        live_keys(slots) == Set::<u64>::empty(),
        slots_made(slots) == 1,
{
    KeySlots { slots: slotmap::SlotMap::new() }
}

/// `SlotMap::insert`, with the key handed out as the number that
/// `KeyData::as_ffi` gives: the key is one that the map did not hold, the map
/// holds it afterwards, and at most one slot was made. The call panics on a
/// full map, so there must be room.
#[verifier::external_body]
fn slots_insert(slots: &mut KeySlots) -> (key: u64)
    requires
        slots_made(*old(slots)) < u32::MAX,
    ensures
        !live_keys(*old(slots)).contains(key),
        live_keys(*final(slots)) == live_keys(*old(slots)).insert(key),
        slots_made(*old(slots)) <= slots_made(*final(slots)) <= slots_made(*old(slots)) + 1,
{
    slotmap::Key::data(&slots.slots.insert(())).as_ffi()
}

/// `SlotMap::remove` of a key that the map holds, named by the number that
/// `KeyData::as_ffi` gave for it: the map holds it no longer, and no slot was
/// made.
#[verifier::external_body]
fn slots_remove(slots: &mut KeySlots, key: u64)
    requires
        live_keys(*old(slots)).contains(key),
    ensures
        live_keys(*final(slots)) == live_keys(*old(slots)).remove(key),
        slots_made(*final(slots)) == slots_made(*old(slots)),
{
    slots.slots.remove(slotmap::DefaultKey::from(slotmap::KeyData::from_ffi(key)));
}

/// Values under stable ids. An id is handed out when a value is added and
/// names that value until it is removed; the ids in use are never handed out
/// again. Values are kept in the order in which they were added.
pub struct Arena<T> {
    pub(crate) keys: KeySlots,
    /// The ids in use.
    pub(crate) ids: Vec<u64>,
    /// The values, each at the place of its id.
    pub(crate) values: Vec<T>,
    /// How many ids have been handed out.
    pub(crate) issued: u32,
}

impl<T> Arena<T> {
    /// The ids in use, in the order in which their values were added.
    pub open(crate) spec fn ids(&self) -> Seq<u64> {
        self.ids@
    }

    /// The values, in the order in which they were added.
    pub open(crate) spec fn values(&self) -> Seq<T> {
        self.values@
    }

    /// Whether `id` is in use.
    pub open(crate) spec fn contains(&self, id: u64) -> bool {
        self.ids@.contains(id)
    }

    /// The place of `id` among the ids in use.
    pub open(crate) spec fn place(&self, id: u64) -> int {
        self.ids@.index_of(id)
    }

    /// The value under `id`, which must be in use.
    pub open(crate) spec fn value(&self, id: u64) -> T {
        self.values@[self.place(id)]
    }

    /// Whether another value can be added.
    pub open(crate) spec fn has_room(&self) -> bool {
        self.issued < u32::MAX - 1
    }

    /// Whether `n` more values can be added.
    pub open(crate) spec fn has_room_for(&self, n: int) -> bool {
        self.issued + n < u32::MAX
    }

    /// How many ids have been handed out.
    pub open(crate) spec fn handed_out(&self) -> int {
        self.issued as int
    }

    /// The ids in use are those that the slot map holds, each once, and each
    /// has its value.
    pub open(crate) spec fn wf(&self) -> bool {
        &&& self.ids@.no_duplicates()
        &&& self.ids@.to_set() == live_keys(self.keys)
        &&& self.values.len() == self.ids.len()
        &&& slots_made(self.keys) <= self.issued + 1
    }

    /// An arena without values.
    pub fn new() -> (r: Arena<T>)
        ensures
            r.wf(),
            r.ids() == Seq::<u64>::empty(),
            r.values() == Seq::<T>::empty(),
            r.has_room(),
    {
        let r = Arena { keys: slots_new(), ids: Vec::new(), values: Vec::new(), issued: 0 };
        proof {
            assert(r.ids@.to_set() =~= Set::<u64>::empty());
        }
        r
    }

    /// The number of values.
    pub fn len(&self) -> (r: usize)
        requires
            self.wf(),
        ensures
            r == self.ids().len(),
            r == self.values().len(),
    {
        self.ids.len()
    }

    /// Whether another value can be added.
    pub fn can_insert(&self) -> (r: bool)
        ensures
            r == self.has_room(),
    {
        self.issued < u32::MAX - 1
    }

    /// Whether two more values can be added.
    pub fn can_insert_two(&self) -> (r: bool)
        ensures
            r == self.has_room_for(2),
    {
        self.issued < u32::MAX - 2
    }

    /// Adds `value` and returns its id, which was not in use.
    pub fn insert(&mut self, value: T) -> (id: u64)
        requires
            old(self).wf(),
            old(self).has_room(),
        ensures
            final(self).wf(),
            !old(self).contains(id),
            final(self).ids() == old(self).ids().push(id),
            final(self).values() == old(self).values().push(value),
            final(self).handed_out() == old(self).handed_out() + 1,
    {
        let id = slots_insert(&mut self.keys);
        self.ids.push(id);
        self.values.push(value);
        self.issued = self.issued + 1;
        proof {
            assert(!old(self).ids@.to_set().contains(id));
            lemma_push_to_set(old(self).ids@, id);
        }
        id
    }

    /// The place of `id` among the ids in use, if it is in use.
    pub fn find(&self, id: u64) -> (r: Option<usize>)
        requires
            self.wf(),
        ensures
            match r {
                Some(k) => k < self.ids().len() && self.ids()[k as int] == id && self.place(id) == k,
                None => !self.contains(id),
            },
    {
        let mut k: usize = 0;
        while k < self.ids.len()
            invariant
                self.wf(),
                k <= self.ids.len(),
                forall|j: int| 0 <= j < k ==> self.ids@[j] != id,
            decreases self.ids.len() - k,
        {
            if self.ids[k] == id {
                proof {
                    let j = self.place(id);
                    assert(0 <= j < self.ids@.len() && self.ids@[j] == id);
                }
                return Some(k);
            }
            k = k + 1;
        }
        None
    }

    /// The value under `id`, if `id` is in use.
    pub fn get(&self, id: u64) -> (r: Option<&T>)
        requires
            self.wf(),
        ensures
            r.is_some() == self.contains(id),
            r.is_some() ==> *r.unwrap() == self.value(id),
    {
        match self.find(id) {
            Some(k) => Some(&self.values[k]),
            None => None,
        }
    }

    /// The id at place `k`.
    pub fn id_at(&self, k: usize) -> (r: u64)
        requires
            k < self.ids().len(),
        ensures
            r == self.ids()[k as int],
    {
        self.ids[k]
    }

    /// The value at place `k`.
    pub fn value_at(&self, k: usize) -> (r: &T)
        requires
            k < self.values().len(),
        ensures
            *r == self.values()[k as int],
    {
        &self.values[k]
    }

    /// The value under `id`, to be changed in place, if `id` is in use.
    pub fn get_mut(&mut self, id: u64) -> (r: Option<&mut T>)
        requires
            old(self).wf(),
        ensures
            match r {
                Some(v) => {
                    &&& old(self).contains(id)
                    &&& *v == old(self).value(id)
                    &&& final(self).wf()
                    &&& final(self).ids() == old(self).ids()
                    &&& final(self).has_room() == old(self).has_room()
                    &&& final(self).values() == old(self).values().update(
                        old(self).place(id),
                        *final(v),
                    )
                },
                None => !old(self).contains(id) && *final(self) == *old(self),
            },
    {
        match self.find(id) {
            Some(k) => Some(&mut self.values[k]),
            None => None,
        }
    }

    /// Takes the value under `id` out, if `id` is in use. The other values
    /// keep their ids and their order.
    pub fn remove(&mut self, id: u64) -> (r: Option<T>)
        requires
            old(self).wf(),
        ensures
            final(self).wf(),
            final(self).has_room() == old(self).has_room(),
            final(self).handed_out() == old(self).handed_out(),
            match r {
                Some(v) => {
                    &&& old(self).contains(id)
                    &&& v == old(self).value(id)
                    &&& final(self).ids() == old(self).ids().remove(old(self).place(id))
                    &&& final(self).values() == old(self).values().remove(old(self).place(id))
                    &&& !final(self).contains(id)
                },
                None => !old(self).contains(id) && *final(self) == *old(self),
            },
    {
        match self.find(id) {
            Some(k) => {
                proof {
                    assert(old(self).ids@.to_set().contains(id));
                    lemma_remove_to_set(old(self).ids@, k as int);
                }
                slots_remove(&mut self.keys, id);
                self.ids.remove(k);
                let value = self.values.remove(k);
                Some(value)
            },
            None => None,
        }
    }
}

/// The set of a sequence with one more element at its end.
pub proof fn lemma_push_to_set(s: Seq<u64>, x: u64)
    ensures
        s.push(x).to_set() == s.to_set().insert(x),
        s.no_duplicates() && !s.contains(x) ==> s.push(x).no_duplicates(),
{
    let after = s.push(x);
    assert forall|y: u64| after.to_set().contains(y) <==> s.to_set().insert(x).contains(y) by {
        if after.contains(y) {
            let j = choose|j: int| 0 <= j < after.len() && after[j] == y;
            if j < s.len() {
                assert(s[j] == y);
            }
        }
        if s.contains(y) {
            let j = choose|j: int| 0 <= j < s.len() && s[j] == y;
            assert(after[j] == y);
        }
        assert(after[s.len() as int] == x);
    }
    assert(after.to_set() =~= s.to_set().insert(x));
}

/// The set of a sequence without duplicates after one element is taken out.
pub proof fn lemma_remove_to_set(s: Seq<u64>, k: int)
    requires
        s.no_duplicates(),
        0 <= k < s.len(),
    ensures
        s.remove(k).to_set() == s.to_set().remove(s[k]),
        s.remove(k).no_duplicates(),
        !s.remove(k).contains(s[k]),
{
    let after = s.remove(k);
    let x = s[k];
    assert forall|y: u64| after.to_set().contains(y) <==> s.to_set().remove(x).contains(y) by {
        if after.contains(y) {
            let j = choose|j: int| 0 <= j < after.len() && after[j] == y;
            if j < k {
                assert(s[j] == y);
            } else {
                assert(s[j + 1] == y);
            }
        }
        if s.contains(y) && y != x {
            let j = choose|j: int| 0 <= j < s.len() && s[j] == y;
            if j < k {
                assert(after[j] == y);
            } else {
                assert(after[j - 1] == y);
            }
        }
    }
    assert(after.to_set() =~= s.to_set().remove(x));
    if after.contains(x) {
        let j = choose|j: int| 0 <= j < after.len() && after[j] == x;
        if j < k {
            assert(s[j] == x);
        } else {
            assert(s[j + 1] == x);
        }
    }
}

/// In a sequence without duplicates, an element is found at its place.
pub proof fn lemma_place(s: Seq<u64>, k: int)
    requires
        s.no_duplicates(),
        0 <= k < s.len(),
    ensures
        s.contains(s[k]),
        s.index_of(s[k]) == k,
{
    let j = s.index_of(s[k]);
    assert(0 <= j < s.len() && s[j] == s[k]);
}

/// Where an element is put at the end, the others keep their places.
pub proof fn lemma_place_after_push(s: Seq<u64>, x: u64, other: u64)
    requires
        s.no_duplicates(),
        !s.contains(x),
    ensures
        s.push(x).no_duplicates(),
        s.push(x).contains(x),
        s.push(x).index_of(x) == s.len(),
        s.contains(other) ==> s.push(x).contains(other) && s.push(x).index_of(other) == s.index_of(
            other,
        ),
        s.push(x).contains(other) ==> other == x || s.contains(other),
{
    lemma_push_to_set(s, x);
    let after = s.push(x);
    assert(after[s.len() as int] == x);
    lemma_place(after, s.len() as int);
    if s.contains(other) {
        let j = s.index_of(other);
        assert(0 <= j < s.len() && s[j] == other);
        assert(after[j] == other);
        lemma_place(after, j);
    }
    if after.contains(other) && other != x {
        let j = choose|j: int| 0 <= j < after.len() && after[j] == other;
        assert(s[j] == other);
    }
}

/// Where the element at place `k` is taken out, those before it keep their
/// places and those after it move up by one.
pub proof fn lemma_place_after_remove(s: Seq<u64>, k: int, other: u64)
    requires
        s.no_duplicates(),
        0 <= k < s.len(),
    ensures
        s.remove(k).no_duplicates(),
        !s.remove(k).contains(s[k]),
        s.contains(other) && other != s[k] ==> s.remove(k).contains(other) && s.remove(
            k,
        ).index_of(other) == (if s.index_of(other) < k {
            s.index_of(other)
        } else {
            s.index_of(other) - 1
        }),
        s.remove(k).contains(other) ==> s.contains(other) && other != s[k],
{
    lemma_remove_to_set(s, k);
    let after = s.remove(k);
    if s.contains(other) && other != s[k] {
        let j = s.index_of(other);
        assert(0 <= j < s.len() && s[j] == other);
        if j < k {
            assert(after[j] == other);
            lemma_place(after, j);
        } else {
            assert(after[j - 1] == other);
            lemma_place(after, j - 1);
        }
    }
    if after.contains(other) {
        let j = choose|j: int| 0 <= j < after.len() && after[j] == other;
        if j < k {
            assert(s[j] == other);
        } else {
            assert(s[j + 1] == other);
        }
    }
}

} // verus!
