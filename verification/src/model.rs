//! The tree as a mathematical value, and what each operation makes of it.
use vstd::prelude::*;
use crate::error::Error;
use crate::item::{has_offset, linked, resolved, ItemView};

verus! {

/// A place in a tree: the `n`th root or the `n`th child, counted in the order they were added.
pub enum Slot {
    Root(int),
    Child(int),
}

/// A [`Tree`] as a mathematical value.
#[verifier::ext_equal]
pub struct TreeView<T> {
    /// The number of entries the tree was created for.
    pub capacity: nat,
    /// The entries that are no deltas, oldest first.
    pub roots: Seq<ItemView<T>>,
    /// The entries that are deltas, oldest first.
    pub children: Seq<ItemView<T>>,
    /// The deltas whose base was not in the tree when they were added,
    /// each as the offset of its base and its index into `children`.
    pub pending: Seq<(u64, usize)>,
    /// The place of each entry, in the order in which the entries were added.
    pub inserted: Seq<Slot>,
}

impl<T> TreeView<T> {
    /// The number of entries.
    pub open spec fn len(self) -> nat {
        self.roots.len() + self.children.len()
    }

    /// Whether `slot` is the place of an entry.
    pub open spec fn holds(self, slot: Slot) -> bool {
        match slot {
            Slot::Root(i) => 0 <= i < self.roots.len(),
            Slot::Child(i) => 0 <= i < self.children.len(),
        }
    }

    /// The entry at `slot`.
    pub open spec fn item(self, slot: Slot) -> ItemView<T>
        recommends
            self.holds(slot),
    {
        match slot {
            Slot::Root(i) => self.roots[i],
            Slot::Child(i) => self.children[i],
        }
    }

    /// The entries as they are stored: the roots from the newest to the oldest,
    /// then the children from the oldest to the newest.
    pub open spec fn items(self) -> Seq<ItemView<T>> {
        self.roots.reverse() + self.children
    }

    /// The index into `items()` of the entry at `slot`.
    pub open spec fn index_of(self, slot: Slot) -> int
        recommends
            self.holds(slot),
    {
        match slot {
            Slot::Root(i) => self.roots.len() - 1 - i,
            Slot::Child(i) => self.roots.len() + i,
        }
    }

    /// The entry at `slot` is stored at the index of `slot`.
    pub proof fn lemma_stored_at(self, slot: Slot)
        requires
            self.holds(slot),
        ensures
            0 <= self.index_of(slot) < self.items().len(),
            self.items().len() == self.len(),
            self.items()[self.index_of(slot)] == self.item(slot),
    {
    }

    /// Whether an entry starts at `offset`.
    pub open spec fn contains_offset(self, offset: u64) -> bool {
        has_offset(self.roots, offset) || has_offset(self.children, offset)
    }

    /// The offset of the entry that was added last, if there is one.
    pub open spec fn last_offset(self) -> Option<u64> {
        if self.inserted.len() == 0 {
            None
        } else {
            Some(self.item(self.inserted.last()).offset)
        }
    }

    /// Why an entry at `offset` cannot be added, if it cannot.
    pub open spec fn refusal(self, offset: u64) -> Option<Error> {
        if self.last_offset() is Some && offset <= self.last_offset()->0 {
            Some(Error::IncreasingOffsetViolation { last: self.last_offset()->0, current: offset })
        } else if self.len() >= self.capacity {
            Some(Error::CapacityExceeded { declared: self.capacity as usize })
        } else {
            None
        }
    }

    /// The tree in which the entry that was added last ends at `offset`.
    pub open spec fn stamped(self, offset: u64) -> Self {
        if self.inserted.len() == 0 {
            self
        } else {
            match self.inserted.last() {
                Slot::Root(i) => TreeView {
                    roots: self.roots.update(i, self.roots[i].ending_at(offset)),
                    ..self
                },
                Slot::Child(i) => TreeView {
                    children: self.children.update(i, self.children[i].ending_at(offset)),
                    ..self
                },
            }
        }
    }

    /// The tree after a root at `offset` was added.
    pub open spec fn with_root(self, offset: u64, data: T) -> Self {
        let stamped = self.stamped(offset);
        TreeView {
            roots: stamped.roots.push(ItemView::fresh(offset, data)),
            inserted: self.inserted.push(Slot::Root(self.roots.len() as int)),
            ..stamped
        }
    }

    /// The tree after a delta at `offset` against the entry at `base_offset` was added:
    /// the delta is listed by its base, or kept as pending where no entry starts at `base_offset`.
    pub open spec fn with_child(self, base_offset: u64, offset: u64, data: T) -> Self {
        let stamped = self.stamped(offset);
        let child = self.children.len() as usize;
        let inserted = self.inserted.push(Slot::Child(self.children.len() as int));
        if self.contains_offset(base_offset) {
            TreeView {
                roots: linked(stamped.roots, base_offset, child),
                children: linked(stamped.children, base_offset, child).push(
                    ItemView::fresh(offset, data),
                ),
                inserted,
                ..stamped
            }
        } else {
            TreeView {
                children: stamped.children.push(ItemView::fresh(offset, data)),
                pending: self.pending.push((base_offset, child)),
                inserted,
                ..stamped
            }
        }
    }

    /// Whether the pending reference number `k` names a base that is not in the tree.
    pub open spec fn dangling(self, k: int) -> bool {
        0 <= k < self.pending.len() && !self.contains_offset(self.pending[k].0)
    }

    /// The tree after sealing: each pending child is listed by its base,
    /// and the newest entry ends at `pack_entries_end`.
    pub open spec fn sealed(self, pack_entries_end: u64) -> Self {
        TreeView {
            roots: resolved(self.roots, self.pending),
            children: resolved(self.children, self.pending),
            pending: Seq::empty(),
            ..self
        }.stamped(pack_entries_end)
    }

    /// Whether `base` is the base that the first dangling pending reference names, or
    /// nothing where none dangles.
    pub open spec fn first_dangling_is(self, base: Option<u64>) -> bool {
        match base {
            None => forall|k: int| 0 <= k < self.pending.len() ==> !self.dangling(k),
            Some(base_offset) => exists|k: int|
                {
                    &&& #[trigger] self.dangling(k)
                    &&& forall|j: int| 0 <= j < k ==> !self.dangling(j)
                    &&& base_offset == self.pending[k].0
                },
        }
    }

    /// Whether `outcome` is what sealing at `pack_entries_end` gives: the sealed tree, or the
    /// failure that names the base of the first pending reference that dangles.
    pub open spec fn seals_to(self, pack_entries_end: u64, outcome: Result<Self, Error>) -> bool {
        match outcome {
            Ok(sealed) => {
                &&& forall|k: int| 0 <= k < self.pending.len() ==> !self.dangling(k)
                &&& sealed == self.sealed(pack_entries_end)
            },
            Err(e) => exists|k: int|
                {
                    &&& #[trigger] self.dangling(k)
                    &&& forall|j: int| 0 <= j < k ==> !self.dangling(j)
                    &&& e == Error::DanglingBaseOffset { base_offset: self.pending[k].0 }
                },
        }
    }

    /// Each entry ends behind its start.
    pub open spec fn ends_behind_starts(self) -> bool {
        forall|slot: Slot| #[trigger]
            self.holds(slot) ==> self.item(slot).next_offset > self.item(slot).offset
    }

    /// Whether an entry that starts at `offset` lists `child`.
    pub open spec fn lists(self, offset: u64, child: usize) -> bool {
        exists|slot: Slot|
            #[trigger] self.holds(slot) && self.item(slot).offset == offset && self.item(
                slot,
            ).children.contains(child)
    }

    /// Whether the entry at `slot` lists a child at position `at` of its children.
    pub open spec fn lists_at(self, slot: Slot, at: int) -> bool {
        self.holds(slot) && 0 <= at < self.item(slot).children.len()
    }

    /// Each child is listed once: by one entry, at one position of its children.
    pub open spec fn is_forest(self) -> bool {
        &&& forall|slot: Slot, at: int| #[trigger]
            self.lists_at(slot, at) ==> self.item(slot).children[at] < self.children.len()
        &&& forall|slot: Slot, at: int, other: Slot, other_at: int|
            #[trigger] self.lists_at(slot, at) && #[trigger] self.lists_at(other, other_at)
                && self.item(slot).children[at] == self.item(other).children[other_at] ==> slot
                == other && at == other_at
        &&& forall|child: int| 0 <= child < self.children.len() ==> #[trigger] self.is_listed(child)
    }

    /// Whether some entry lists the child number `child`.
    pub open spec fn is_listed(self, child: int) -> bool {
        exists|slot: Slot, at: int| #[trigger]
            self.lists_at(slot, at) && self.item(slot).children[at] == child
    }

    /// The entries were added by growing offsets, each ends where the one added next starts,
    /// and `inserted` names each of them.
    pub open spec fn ordered(self) -> bool {
        &&& self.inserted.len() == self.len()
        &&& forall|k: int| 0 <= k < self.inserted.len() ==> self.holds(#[trigger] self.inserted[k])
        &&& forall|j: int, k: int|
            0 <= j < k < self.inserted.len() ==> self.item(#[trigger] self.inserted[j]).offset
                < self.item(#[trigger] self.inserted[k]).offset
        &&& forall|k: int|
            0 <= k < self.inserted.len() - 1 ==> self.item(#[trigger] self.inserted[k]).next_offset
                == self.item(self.inserted[k + 1]).offset
        &&& forall|slot: Slot| #[trigger] self.holds(slot) ==> self.inserted.contains(slot)
    }
}

} // verus!
