use std::sync::Arc;

use vstd::prelude::*;

verus! {

/// A shared pointer whose identity is the allocation it points to.
#[derive(PartialEq, Eq, Clone, Debug)]
pub struct HashArc<T> {
    inner: Arc<T>,
}

impl<T> View for HashArc<T> {
    type V = T;

    closed spec fn view(&self) -> T {
        *self.inner
    }
}

impl<T> HashArc<T> {
    pub fn new(inner: T) -> (h: HashArc<T>)
        ensures
            h@ == inner,
    {
        HashArc { inner: Arc::new(inner) }
    }

    /// Another pointer to the same value.
    pub fn share(&self) -> (h: HashArc<T>)
        ensures
            h@ == self@,
    {
        HashArc { inner: self.inner.clone() }
    }

    /// The shared value.
    pub fn get(&self) -> (r: &T)
        ensures
            *r == self@,
    {
        &*self.inner
    }
}

/// A vector of slots that can be reserved ahead of being filled. Each slot is
/// either free or taken (masked); a taken slot holds its item once it is set.
pub struct Arena<T> {
    // Unlike a Vec<T>, capacity is the length of the vector, made of empty slots
    capacity: usize,
    mask: Vec<bool>,
    rules: Vec<Option<T>>,
}

/// The abstract state of an arena.
pub struct ArenaView<T> {
    pub capacity: nat,
    pub mask: Seq<bool>,
    pub items: Seq<Option<T>>,
}

impl<T> View for Arena<T> {
    type V = ArenaView<T>;

    closed spec fn view(&self) -> ArenaView<T> {
        ArenaView { capacity: self.capacity as nat, mask: self.mask@, items: self.rules@ }
    }
}

/// Every slot has a mark and an item place.
pub open spec fn arena_wf<T>(a: ArenaView<T>) -> bool {
    a.mask.len() == a.items.len() && a.capacity <= a.mask.len()
}

/// The slot `j` exists and is taken.
pub open spec fn slot_taken(mask: Seq<bool>, j: int) -> bool {
    0 <= j < mask.len() && mask[j]
}

/// The first slot at or after `index` that is free, or past the end.
pub open spec fn landing(mask: Seq<bool>, index: int) -> int
    decreases mask.len() - index,
{
    if 0 <= index < mask.len() && mask[index] {
        landing(mask, index + 1)
    } else {
        index
    }
}

/// What `get` reads at `index`: the item of a taken slot.
pub open spec fn arena_get<T>(a: ArenaView<T>, index: int) -> Option<T> {
    if 0 <= index < a.mask.len() && a.mask[index] {
        a.items[index]
    } else {
        None
    }
}

/// What `set` makes of the arena: the slot, where it exists, is taken and holds
/// `item`.
pub open spec fn arena_set<T>(a: ArenaView<T>, index: int, item: T) -> ArenaView<T> {
    if 0 <= index < a.items.len() {
        ArenaView {
            capacity: a.capacity,
            mask: a.mask.update(index, true),
            items: a.items.update(index, Some(item)),
        }
    } else {
        a
    }
}

/// What `reserve` makes of the arena: free slots are added for every index from
/// the capacity up to `size`, and the capacity becomes `size`.
pub open spec fn arena_reserve<T>(a: ArenaView<T>, size: nat) -> ArenaView<T> {
    let added: nat = if size > a.capacity {
        (size - a.capacity) as nat
    } else {
        0
    };
    ArenaView {
        capacity: size,
        mask: a.mask + Seq::new(added, |i: int| false),
        items: a.items + Seq::new(added, |i: int| None::<T>),
    }
}

/// What a push from `index` makes of the arena: room is reserved up to the
/// landing slot where it lies past the end, and that slot is taken and holds
/// `item`.
pub open spec fn arena_push<T>(a: ArenaView<T>, index: int, item: T) -> ArenaView<T> {
    let position = landing(a.mask, index);
    let room = if position < a.mask.len() {
        a
    } else {
        arena_reserve(a, (position + 1) as nat)
    };
    arena_set(room, position, item)
}

/// The items of the taken slots from `index` on, up to the first free slot.
pub open spec fn taken_prefix<T>(a: ArenaView<T>, index: int) -> Seq<Option<T>>
    decreases a.mask.len() - index,
{
    if 0 <= index < a.mask.len() && a.mask[index] {
        seq![a.items[index]] + taken_prefix(a, index + 1)
    } else {
        Seq::empty()
    }
}

/// Every taken slot from `index` on, up to the first free slot, holds an item.
pub open spec fn taken_prefix_filled<T>(a: ArenaView<T>, index: int) -> bool
    decreases a.mask.len() - index,
{
    if 0 <= index < a.mask.len() && a.mask[index] {
        a.items[index] is Some && taken_prefix_filled(a, index + 1)
    } else {
        true
    }
}

/// The items of a sequence of filled slots.
pub open spec fn unwrap_all<T>(s: Seq<Option<T>>) -> Seq<T> {
    s.map_values(|o: Option<T>| o->Some_0)
}

/// Reading a slot gives back what was set there.
pub proof fn law_get_after_set<T>(a: ArenaView<T>, index: int, item: T)
    requires
        0 <= index < a.items.len(),
        a.mask.len() == a.items.len(),
    ensures
        arena_get(arena_set(a, index, item), index) == Some(item),
{
}

/// Setting a slot leaves every other slot as it was.
pub proof fn law_set_keeps_others<T>(a: ArenaView<T>, index: int, other: int, item: T)
    requires
        other != index,
        a.mask.len() == a.items.len(),
    ensures
        arena_get(arena_set(a, index, item), other) == arena_get(a, other),
{
}

/// Every slot from `index` up to its landing slot is taken.
proof fn lemma_landing_run_taken(mask: Seq<bool>, index: int, j: int)
    requires
        0 <= index <= j < landing(mask, index),
    ensures
        0 <= j < mask.len(),
        mask[j],
    decreases mask.len() - index,
{
    if j > index {
        lemma_landing_run_taken(mask, index + 1, j);
    }
}

/// The landing slot of a push is free, no earlier slot from the starting index on
/// is free, and it is never before the starting index.
pub proof fn law_landing_is_first_free(mask: Seq<bool>, index: int)
    requires
        0 <= index,
    ensures
        index <= landing(mask, index),
        landing(mask, index) >= mask.len() || !mask[landing(mask, index)],
        forall|j: int| index <= j < landing(mask, index) ==> #[trigger] slot_taken(mask, j),
    decreases mask.len() - index,
{
    if 0 <= index < mask.len() && mask[index] {
        law_landing_is_first_free(mask, index + 1);
    }
    assert forall|j: int| index <= j < landing(mask, index) implies #[trigger] slot_taken(
        mask,
        j,
    ) by {
        lemma_landing_run_taken(mask, index, j);
    }
}

impl<T> Arena<T> {
    pub fn new() -> (a: Arena<T>)
        ensures
            arena_wf(a@),
            a@.capacity == 0,
            a@.mask == Seq::<bool>::empty(),
            a@.items == Seq::<Option<T>>::empty(),
    {
        Arena { capacity: 0, mask: Vec::new(), rules: Vec::new() }
    }

    pub fn reserve(&mut self, size: usize)
        requires
            arena_wf(old(self)@),
        ensures
            arena_wf(final(self)@),
            final(self)@ == arena_reserve(old(self)@, size as nat),
    {
        let mut mask: Vec<bool> = Vec::new();
        let mut rules: Vec<Option<T>> = Vec::new();
        std::mem::swap(&mut mask, &mut self.mask);
        std::mem::swap(&mut rules, &mut self.rules);
        let ghost m0 = mask@;
        let ghost r0 = rules@;
        let mut i = self.capacity;
        while i < size
            invariant
                self.capacity == old(self).capacity,
                old(self).capacity <= i <= size || (i == old(self).capacity && size < i),
                mask@ == m0 + Seq::new((i - old(self).capacity) as nat, |k: int| false),
                rules@ == r0 + Seq::new((i - old(self).capacity) as nat, |k: int| None::<T>),
                m0.len() == r0.len(),
            decreases size - i,
        {
            let ghost mb = mask@;
            let ghost rb = rules@;
            mask.push(false);
            rules.push(None);
            assert(mask@ =~= m0 + Seq::new((i + 1 - old(self).capacity) as nat, |k: int| false));
            assert(rules@ =~= r0 + Seq::new(
                (i + 1 - old(self).capacity) as nat,
                |k: int| None::<T>,
            ));
            i += 1;
        }
        proof {
            if size <= old(self).capacity {
                assert(mask@ =~= m0 + Seq::new(0, |k: int| false));
                assert(rules@ =~= r0 + Seq::new(0, |k: int| None::<T>));
            }
        }
        self.mask = mask;
        self.rules = rules;
        self.capacity = size;
    }

    // Should be used to reserve a spot for another element
    // An element MUST be inserted to this index before .finalize() or .get() are called on this index
    pub fn mask(&mut self, index: usize)
        requires
            arena_wf(old(self)@),
        ensures
            arena_wf(final(self)@),
            final(self)@.capacity == old(self)@.capacity,
            final(self)@.items == old(self)@.items,
            final(self)@.mask == if index < old(self)@.mask.len() {
                old(self)@.mask.update(index as int, true)
            } else {
                old(self)@.mask
            },
    {
        if index < self.mask.len() {
            self.mask.set(index, true);
        }
    }

    pub fn set(&mut self, index: usize, item: T)
        requires
            arena_wf(old(self)@),
        ensures
            arena_wf(final(self)@),
            final(self)@ == arena_set(old(self)@, index as int, item),
    {
        if index < self.rules.len() {
            self.rules.set(index, Some(item));
            self.mask(index);
        }
    }

    pub fn get(&self, index: usize) -> (r: Option<&T>)
        requires
            arena_wf(self@),
            index < self@.mask.len() && self@.mask[index as int] ==> self@.items[index as int] is Some,
        ensures
            match r {
                Some(item) => arena_get(self@, index as int) == Some(*item),
                None => arena_get(self@, index as int) is None,
            },
    {
        if index < self.mask.len() && self.mask[index] {
            match &self.rules[index] {
                Some(item) => Some(item),
                None => None,
            }
        } else {
            None
        }
    }

    pub fn push(&mut self, item: T) -> (position: usize)
        requires
            arena_wf(old(self)@),
            landing(old(self)@.mask, 0) < usize::MAX,
        ensures
            arena_wf(final(self)@),
            position == landing(old(self)@.mask, 0),
            final(self)@ == arena_push(old(self)@, 0, item),
            arena_get(final(self)@, position as int) == Some(item),
            forall|j: int| j != position ==> arena_get(final(self)@, j) == arena_get(old(self)@, j),
    {
        self.push_index(0, item)
    }

    pub fn push_index(&mut self, index: usize, item: T) -> (position: usize)
        requires
            arena_wf(old(self)@),
            landing(old(self)@.mask, index as int) < usize::MAX,
        ensures
            arena_wf(final(self)@),
            position == landing(old(self)@.mask, index as int),
            final(self)@ == arena_push(old(self)@, index as int, item),
            arena_get(final(self)@, position as int) == Some(item),
            forall|j: int| j != position ==> arena_get(final(self)@, j) == arena_get(old(self)@, j),
    {
        let position = self.push_index_landing_location(index);
        self.set(position, item);
        position
    }

    // Where would an element be put if we pushed at a specific index
    pub fn push_index_landing_location(&mut self, index: usize) -> (position: usize)
        requires
            arena_wf(old(self)@),
            landing(old(self)@.mask, index as int) < usize::MAX,
        ensures
            arena_wf(final(self)@),
            position == landing(old(self)@.mask, index as int),
            position < final(self)@.mask.len(),
            !final(self)@.mask[position as int],
            final(self)@ == if position < old(self)@.mask.len() {
                old(self)@
            } else {
                arena_reserve(old(self)@, (position + 1) as nat)
            },
    {
        proof {
            law_landing_is_first_free(self@.mask, index as int);
        }
        let mut i: usize = index;
        loop
            invariant
                self@ == old(self)@,
                arena_wf(self@),
                index <= i,
                landing(self@.mask, i as int) == landing(old(self)@.mask, index as int),
                landing(old(self)@.mask, index as int) < usize::MAX,
            decreases self@.mask.len() - i,
        {
            if i < self.mask.len() {
                if self.mask[i] {
                    i += 1;
                } else {
                    return i;
                }
            } else {
                self.reserve(i + 1);
                return i;
            }
        }
    }

    pub fn finalize(self) -> (items: Vec<T>)
        requires
            arena_wf(self@),
            taken_prefix_filled(self@, 0),
        ensures
            items@ == unwrap_all(taken_prefix(self@, 0)),
    {
        let ghost a = self@;
        let mut rules = self.rules;
        let mask = self.mask;
        let mut final_vec: Vec<T> = Vec::new();
        let mut index: usize = 0;
        proof {
            assert(unwrap_all(taken_prefix(a, 0)) =~= final_vec@ + unwrap_all(taken_prefix(a, 0)));
        }
        while index < mask.len() && mask[index]
            invariant
                mask@ == a.mask,
                rules@.len() == a.items.len(),
                a.mask.len() == a.items.len(),
                forall|k: int| index <= k < rules@.len() ==> rules@[k] == a.items[k],
                taken_prefix_filled(a, index as int),
                unwrap_all(taken_prefix(a, 0)) == final_vec@ + unwrap_all(taken_prefix(a, index as int)),
            decreases mask.len() - index,
        {
            let mut slot: Option<T> = None;
            std::mem::swap(&mut slot, &mut rules[index]);
            let ghost rest = taken_prefix(a, index + 1);
            match slot {
                Some(rule) => {
                    let ghost fb = final_vec@;
                    final_vec.push(rule);
                    proof {
                        assert(taken_prefix(a, index as int) == seq![a.items[index as int]] + rest);
                        assert(unwrap_all(seq![a.items[index as int]] + rest) =~= seq![rule] + unwrap_all(rest));
                        assert(fb + (seq![rule] + unwrap_all(rest)) =~= final_vec@ + unwrap_all(rest));
                    }
                },
                None => {
                    proof {
                        assert(false);
                    }
                },
            }
            index += 1;
        }
        proof {
            assert(unwrap_all(taken_prefix(a, index as int)) =~= Seq::<T>::empty());
            assert(final_vec@ + Seq::<T>::empty() =~= final_vec@);
        }
        final_vec
    }
}

/// The string with its first character in title case (see `capitalized`).
pub fn capitalize(string: String) -> (s: String)
    ensures
        s@ == capitalized(string@),
{
    crate::text::capitalize_str(string.as_str())
}

/// The string with its first character in title case and the rest unchanged.
pub open spec fn capitalized(s: Seq<char>) -> Seq<char> {
    if s.len() == 0 {
        Seq::empty()
    } else {
        crate::text::char_to_title(s[0]) + s.drop_first()
    }
}

} // verus!
