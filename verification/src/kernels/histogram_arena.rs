//! A pool of histogram slots that is allocated once, and the roles that its slots take.
use crate::error;
use crate::error::{ComputeError, Fault};
use crate::text;
use std::collections::HashMap;
use vstd::prelude::*;

verus! {

/// How many bytes a histogram cell takes.
pub const CELL_BYTES: usize = 8;

/// A pool of `num_slots` histogram buffers of type `H`, the slots of the parent, the smaller
/// and the larger child, and the slot of each leaf.
pub struct HistArena<H> {
    slots: Vec<H>,
    slot_len_elems: usize,
    num_slots: usize,
    device_allocations: usize,
    parent_idx: usize,
    smaller_idx: usize,
    larger_idx: usize,
    leaf_to_slot: HashMap<usize, usize>,
}

/// The buffers and roles of a pool.
#[verifier::ext_equal]
#[verifier::reject_recursive_types(H)]
pub struct ArenaState<H> {
    /// The buffers.
    pub slots: Seq<H>,
    /// How many cells a buffer has.
    pub slot_len: nat,
    /// How many buffers were ever allocated.
    pub allocations: nat,
    pub parent: int,
    pub smaller: int,
    pub larger: int,
    /// The slot of each leaf that has one.
    pub leaf_slots: Map<usize, usize>,
}

impl<H> View for HistArena<H> {
    type V = ArenaState<H>;

    closed spec fn view(&self) -> ArenaState<H> {
        ArenaState {
            slots: self.slots@,
            slot_len: self.slot_len_elems as nat,
            allocations: self.device_allocations as nat,
            parent: self.parent_idx as int,
            smaller: self.smaller_idx as int,
            larger: self.larger_idx as int,
            leaf_slots: self.leaf_to_slot@,
        }
    }
}

impl<H> ArenaState<H> {
    /// Every role and every leaf has a slot of the pool, and the pool holds exactly the buffers
    /// that were ever allocated.
    pub open spec fn wf(self) -> bool {
        &&& self.slots.len() >= 1
        &&& self.allocations == self.slots.len()
        &&& 0 <= self.parent < self.slots.len()
        &&& 0 <= self.smaller < self.slots.len()
        &&& 0 <= self.larger < self.slots.len()
        &&& forall|leaf: usize|
            #[trigger] self.leaf_slots.contains_key(leaf) ==> self.leaf_slots[leaf] < self.slots.len()
    }

    /// The slot behind `slot`, the first one behind the last.
    pub open spec fn next_slot(self, slot: int) -> int {
        if slot + 1 < self.slots.len() {
            slot + 1
        } else {
            0
        }
    }

    /// The roles after a rotation: the larger child takes the parent's buffer, the smaller one
    /// the next slot.
    pub open spec fn rotated(self) -> ArenaState<H> {
        ArenaState { larger: self.parent, smaller: self.next_slot(self.parent), ..self }
    }

    /// The roles and leaf slots after leaf `parent_leaf` was split: the larger child takes the
    /// parent's buffer, the smaller one the next slot.
    pub open spec fn swapped(self, parent_leaf: usize, smaller_leaf: usize, larger_leaf: usize) -> ArenaState<H> {
        let slot = self.leaf_slots[parent_leaf];
        let fresh = self.next_slot(slot as int);
        ArenaState {
            parent: slot as int,
            larger: slot as int,
            smaller: fresh,
            leaf_slots: self.leaf_slots.insert(larger_leaf, slot).insert(smaller_leaf, fresh as usize),
            ..self
        }
    }

    /// After a rotation the larger child has the parent's buffer, the smaller child another one,
    /// and no buffer was allocated or changed.
    pub proof fn rotation_does_not_alias(self)
        requires
            self.wf(),
            self.slots.len() >= 2,
        ensures
            self.rotated().wf(),
            self.rotated().larger == self.parent,
            self.rotated().parent == self.parent,
            self.rotated().smaller != self.parent,
            self.rotated().smaller != self.rotated().larger,
            self.rotated().slots == self.slots,
            self.rotated().allocations == self.allocations,
    {
    }

    /// After a swap the larger child has the parent's buffer, the smaller child another one, no
    /// buffer was allocated or changed, and every other leaf keeps its slot.
    pub proof fn swap_does_not_alias(self, parent_leaf: usize, smaller_leaf: usize, larger_leaf: usize)
        requires
            self.wf(),
            self.slots.len() >= 2,
            self.slots.len() <= usize::MAX,
            self.leaf_slots.contains_key(parent_leaf),
            smaller_leaf != larger_leaf,
        ensures
            ({
                let next = self.swapped(parent_leaf, smaller_leaf, larger_leaf);
                &&& next.wf()
                &&& next.leaf_slots[larger_leaf] == self.leaf_slots[parent_leaf]
                &&& next.leaf_slots[smaller_leaf] != next.leaf_slots[larger_leaf]
                &&& next.smaller != next.larger
                &&& next.slots == self.slots
                &&& next.allocations == self.allocations
                &&& forall|leaf: usize|
                    leaf != smaller_leaf && leaf != larger_leaf ==> (#[trigger] next.leaf_slots.contains_key(leaf)
                        <==> self.leaf_slots.contains_key(leaf))
                &&& forall|leaf: usize|
                    leaf != smaller_leaf && leaf != larger_leaf && self.leaf_slots.contains_key(leaf)
                        ==> #[trigger] next.leaf_slots[leaf] == self.leaf_slots[leaf]
            }),
    {
        let next = self.swapped(parent_leaf, smaller_leaf, larger_leaf);
        assert forall|leaf: usize| #[trigger] next.leaf_slots.contains_key(leaf) implies next.leaf_slots[leaf]
            < next.slots.len() by {
            if leaf != smaller_leaf && leaf != larger_leaf {
                assert(self.leaf_slots.contains_key(leaf));
            }
        }
    }
}

/// The fault of allocating a pool.
pub open spec fn new_fault(num_slots: usize, slot_len_elems: usize) -> Option<Fault> {
    if num_slots == 0 {
        Some(Fault::Runtime("HistArena::new: num_slots must be >= 1"@))
    } else if slot_len_elems == 0 {
        Some(Fault::Runtime("HistArena::new: slot_len_elems must be >= 1"@))
    } else if slot_len_elems * 8 > usize::MAX {
        Some(
            Fault::Runtime(
                "HistArena::new: slab byte length "@ + text::decimal(slot_len_elems as nat)
                    + " * 8 overflows usize"@,
            ),
        )
    } else {
        None
    }
}

/// The text of the fault of a pool with a single slot.
pub open spec fn single_slot_text(prefix: Seq<char>, num_slots: nat) -> Seq<char> {
    prefix + text::decimal(num_slots) + ")"@
}

impl<H> HistArena<H> {
    /// The pool is well formed.
    pub closed spec fn wf(&self) -> bool {
        &&& self@.wf()
        &&& self.num_slots == self.slots@.len()
    }

    /// The roles and slots of a well-formed pool are well formed.
    pub proof fn state_is_wf(&self)
        requires
            self.wf(),
        ensures
            self@.wf(),
    {
    }

    /// Allocate a pool of `num_slots` buffers of `slot_len_elems` cells, each by one call of
    /// `alloc` with its size in bytes. The parent takes slot 0, the smaller child slot 1 where
    /// there is one.
    pub fn new<F: Fn(usize) -> H>(num_slots: usize, slot_len_elems: usize, alloc: F) -> (r: Result<
        HistArena<H>,
        ComputeError,
    >)
        requires
            new_fault(num_slots, slot_len_elems) is None ==> call_requires(
                alloc,
                ((slot_len_elems * 8) as usize,),
            ),
        ensures
            error::fails_as(r, new_fault(num_slots, slot_len_elems)),
            r matches Ok(arena) ==> {
                &&& arena.wf()
                &&& arena@.slots.len() == num_slots
                &&& forall|i: int|
                    0 <= i < num_slots ==> call_ensures(
                        alloc,
                        ((slot_len_elems * 8) as usize,),
                        #[trigger] arena@.slots[i],
                    )
                &&& arena@.slot_len == slot_len_elems
                &&& arena@.allocations == num_slots
                &&& arena@.parent == 0
                &&& arena@.smaller == (if num_slots >= 2 { 1int } else { 0int })
                &&& arena@.larger == 0
                &&& arena@.leaf_slots == Map::<usize, usize>::empty()
            },
    {
        broadcast use vstd::std_specs::hash::group_hash_axioms;

        if num_slots == 0 {
            return Err(error::runtime_error("HistArena::new: num_slots must be >= 1"));
        }
        if slot_len_elems == 0 {
            return Err(error::runtime_error("HistArena::new: slot_len_elems must be >= 1"));
        }
        let slab_bytes: usize = match slot_len_elems.checked_mul(CELL_BYTES) {
            Some(bytes) => bytes,
            None => {
                let mut detail: String = "HistArena::new: slab byte length ".to_owned();
                text::push_decimal(&mut detail, slot_len_elems as u64);
                detail.append(" * 8 overflows usize");
                return Err(ComputeError::Runtime { detail });
            },
        };
        let mut slots: Vec<H> = Vec::with_capacity(num_slots);
        let mut device_allocations: usize = 0;
        while device_allocations < num_slots
            invariant
                device_allocations <= num_slots,
                slab_bytes == slot_len_elems * 8,
                call_requires(alloc, (slab_bytes,)),
                slots@.len() == device_allocations,
                forall|i: int|
                    0 <= i < slots@.len() ==> call_ensures(alloc, (slab_bytes,), #[trigger] slots@[i]),
            decreases num_slots - device_allocations,
        {
            slots.push(alloc(slab_bytes));
            device_allocations += 1;
        }
        Ok(
            HistArena {
                slots,
                slot_len_elems,
                num_slots,
                device_allocations,
                parent_idx: 0,
                smaller_idx: if num_slots >= 2 {
                    1
                } else {
                    0
                },
                larger_idx: 0,
                leaf_to_slot: HashMap::new(),
            },
        )
    }

    /// How many slots the pool has.
    pub fn num_slots(&self) -> (n: usize)
        requires
            self.wf(),
        ensures
            n == self@.slots.len(),
    {
        self.num_slots
    }

    /// How many cells a slot has.
    pub fn slot_len_elems(&self) -> (n: usize)
        ensures
            n == self@.slot_len,
    {
        self.slot_len_elems
    }

    /// How many buffers were ever allocated.
    pub fn device_allocations(&self) -> (n: usize)
        ensures
            n == self@.allocations,
    {
        self.device_allocations
    }

    /// The slot of the parent.
    pub fn parent_idx(&self) -> (i: usize)
        ensures
            i == self@.parent,
    {
        self.parent_idx
    }

    /// The slot of the smaller child.
    pub fn smaller_idx(&self) -> (i: usize)
        ensures
            i == self@.smaller,
    {
        self.smaller_idx
    }

    /// The slot of the larger child.
    pub fn larger_idx(&self) -> (i: usize)
        ensures
            i == self@.larger,
    {
        self.larger_idx
    }

    /// The buffer of the parent.
    pub fn parent_handle(&self) -> (h: &H)
        requires
            self.wf(),
        ensures
            *h == self@.slots[self@.parent],
    {
        &self.slots[self.parent_idx]
    }

    /// The buffer of the smaller child.
    pub fn smaller_handle(&self) -> (h: &H)
        requires
            self.wf(),
        ensures
            *h == self@.slots[self@.smaller],
    {
        &self.slots[self.smaller_idx]
    }

    /// The buffer of the larger child.
    pub fn larger_handle(&self) -> (h: &H)
        requires
            self.wf(),
        ensures
            *h == self@.slots[self@.larger],
    {
        &self.slots[self.larger_idx]
    }

    /// Rotate the roles for a subtraction: the larger child is derived in the parent's buffer,
    /// the smaller one is built in another. Only indices move.
    pub fn rotate(&mut self) -> (r: Result<(), ComputeError>)
        requires
            old(self).wf(),
        ensures
            final(self).wf(),
            error::fails_as(
                r,
                if old(self)@.slots.len() < 2 {
                    Some(
                        Fault::Runtime(
                            single_slot_text(
                                "HistArena::rotate: a non-aliasing smaller slot requires num_slots >= 2 (have "@,
                                old(self)@.slots.len(),
                            ),
                        ),
                    )
                } else {
                    None
                },
            ),
            r is Err ==> final(self)@ == old(self)@,
            r is Ok ==> final(self)@ == old(self)@.rotated(),
    {
        if self.num_slots < 2 {
            let mut detail: String =
                "HistArena::rotate: a non-aliasing smaller slot requires num_slots >= 2 (have ".to_owned();
            text::push_decimal(&mut detail, self.num_slots as u64);
            detail.append(")");
            return Err(ComputeError::Runtime { detail });
        }
        let ghost before = self@;
        self.larger_idx = self.parent_idx;
        self.smaller_idx = self.slot_after(self.parent_idx);
        proof {
            before.rotation_does_not_alias();
            assert(self@ =~= before.rotated());
        }
        Ok(())
    }

    fn slot_after(&self, slot: usize) -> (next: usize)
        requires
            self.num_slots == self.slots@.len(),
            slot < self.num_slots,
        ensures
            next == self@.next_slot(slot as int),
    {
        if slot + 1 < self.num_slots {
            slot + 1
        } else {
            0
        }
    }

    /// Give a leaf a slot.
    pub fn set_leaf_slot(&mut self, leaf: usize, slot: usize) -> (r: Result<(), ComputeError>)
        requires
            old(self).wf(),
        ensures
            final(self).wf(),
            error::fails_as(
                r,
                if slot >= old(self)@.slots.len() {
                    Some(
                        Fault::Runtime(
                            "HistArena::set_leaf_slot: slot "@ + text::decimal(slot as nat)
                                + " >= num_slots "@ + text::decimal(old(self)@.slots.len()),
                        ),
                    )
                } else {
                    None
                },
            ),
            r is Err ==> final(self)@ == old(self)@,
            r is Ok ==> final(self)@ == (ArenaState {
                leaf_slots: old(self)@.leaf_slots.insert(leaf, slot),
                ..old(self)@
            }),
    {
        broadcast use vstd::std_specs::hash::group_hash_axioms;

        if slot >= self.num_slots {
            let mut detail: String = "HistArena::set_leaf_slot: slot ".to_owned();
            text::push_decimal(&mut detail, slot as u64);
            detail.append(" >= num_slots ");
            text::push_decimal(&mut detail, self.num_slots as u64);
            return Err(ComputeError::Runtime { detail });
        }
        let ghost before = self@;
        self.leaf_to_slot.insert(leaf, slot);
        proof {
            assert forall|l: usize| #[trigger] self@.leaf_slots.contains_key(l) implies self@.leaf_slots[l]
                < self@.slots.len() by {
                if l != leaf {
                    assert(before.leaf_slots.contains_key(l));
                }
            }
        }
        Ok(())
    }

    /// The slot of a leaf, where it has one.
    pub fn leaf_slot(&self, leaf: usize) -> (r: Option<usize>)
        ensures
            match r {
                Some(slot) => self@.leaf_slots.contains_key(leaf) && slot == self@.leaf_slots[leaf],
                None => !self@.leaf_slots.contains_key(leaf),
            },
    {
        broadcast use vstd::std_specs::hash::group_hash_axioms;

        match self.leaf_to_slot.get(&leaf) {
            Some(slot) => Some(*slot),
            None => None,
        }
    }

    /// The buffer of a leaf that has a slot.
    pub fn leaf_handle(&self, leaf: usize) -> (h: &H)
        requires
            self.wf(),
            self@.leaf_slots.contains_key(leaf),
        ensures
            *h == self@.slots[self@.leaf_slots[leaf] as int],
    {
        match self.leaf_slot(leaf) {
            Some(slot) => &self.slots[slot],
            None => &self.slots[0],
        }
    }

    /// Move the slots of a split leaf to its children: the larger child takes the parent's
    /// buffer, the smaller one another. Only indices move.
    pub fn swap(
        &mut self,
        parent_leaf: usize,
        left_leaf: usize,
        right_leaf: usize,
        smaller_is_left: bool,
    ) -> (r: Result<(), ComputeError>)
        requires
            old(self).wf(),
        ensures
            final(self).wf(),
            error::fails_as(
                r,
                if old(self)@.slots.len() < 2 {
                    Some(
                        Fault::Runtime(
                            single_slot_text(
                                "HistArena::swap: a non-aliasing fresh slot requires num_slots >= 2 (have "@,
                                old(self)@.slots.len(),
                            ),
                        ),
                    )
                } else if !old(self)@.leaf_slots.contains_key(parent_leaf) {
                    Some(
                        Fault::Runtime(
                            "HistArena::swap: parent leaf "@ + text::decimal(parent_leaf as nat)
                                + " has no slot assignment"@,
                        ),
                    )
                } else {
                    None
                },
            ),
            r is Err ==> final(self)@ == old(self)@,
            r is Ok ==> final(self)@ == old(self)@.swapped(
                parent_leaf,
                if smaller_is_left { left_leaf } else { right_leaf },
                if smaller_is_left { right_leaf } else { left_leaf },
            ),
    {
        broadcast use vstd::std_specs::hash::group_hash_axioms;

        if self.num_slots < 2 {
            let mut detail: String =
                "HistArena::swap: a non-aliasing fresh slot requires num_slots >= 2 (have ".to_owned();
            text::push_decimal(&mut detail, self.num_slots as u64);
            detail.append(")");
            return Err(ComputeError::Runtime { detail });
        }
        let parent_slot: usize = match self.leaf_slot(parent_leaf) {
            Some(slot) => slot,
            None => {
                let mut detail: String = "HistArena::swap: parent leaf ".to_owned();
                text::push_decimal(&mut detail, parent_leaf as u64);
                detail.append(" has no slot assignment");
                return Err(ComputeError::Runtime { detail });
            },
        };
        let (smaller_leaf, larger_leaf): (usize, usize) = if smaller_is_left {
            (left_leaf, right_leaf)
        } else {
            (right_leaf, left_leaf)
        };
        let ghost before = self@;
        let fresh: usize = self.slot_after(parent_slot);
        self.leaf_to_slot.insert(larger_leaf, parent_slot);
        self.leaf_to_slot.insert(smaller_leaf, fresh);
        self.parent_idx = parent_slot;
        self.larger_idx = parent_slot;
        self.smaller_idx = fresh;
        proof {
            assert forall|l: usize| #[trigger] self@.leaf_slots.contains_key(l) implies self@.leaf_slots[l]
                < self@.slots.len() by {
                if l != larger_leaf && l != smaller_leaf {
                    assert(before.leaf_slots.contains_key(l));
                }
            }
        }
        Ok(())
    }
}

} // verus!
