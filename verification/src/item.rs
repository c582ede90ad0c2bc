//! The entries of a tree, and what linking children to their bases does to them.
use vstd::prelude::*;

verus! {

/// An entry of the pack as stored in a [`Tree`].
#[derive(Debug, Clone, PartialEq, Eq)]
pub struct Item<T> {
    /// The offset into the pack at which the entry starts.
    pub offset: u64,
    /// The offset at which the entry that follows starts, that is the end of this one.
    pub next_offset: u64,
    /// What the user of the tree keeps with each entry.
    pub data: T,
    /// The entries that are deltas against this one, as indices into the children of the tree.
    pub children: Vec<usize>,
}

/// An [`Item`] as a mathematical value.
#[verifier::ext_equal]
pub struct ItemView<T> {
    pub offset: u64,
    pub next_offset: u64,
    pub data: T,
    pub children: Seq<usize>,
}

impl<T> View for Item<T> {
    type V = ItemView<T>;

    open spec fn view(&self) -> ItemView<T> {
        ItemView {
            offset: self.offset,
            next_offset: self.next_offset,
            data: self.data,
            children: self.children@,
        }
    }
}

impl<T> ItemView<T> {
    /// An entry that was just added: its end is not known yet and nothing depends on it.
    pub open spec fn fresh(offset: u64, data: T) -> Self {
        ItemView { offset, next_offset: 0, data, children: Seq::empty() }
    }

    /// The same entry, ending at `next_offset`.
    pub open spec fn ending_at(self, next_offset: u64) -> Self {
        ItemView { next_offset, ..self }
    }

    /// The same entry, with `child` as its newest dependant.
    pub open spec fn with_child(self, child: usize) -> Self {
        ItemView { children: self.children.push(child), ..self }
    }
}

/// The views of a sequence of items.
pub open spec fn item_views<T>(items: Seq<Item<T>>) -> Seq<ItemView<T>> {
    Seq::new(items.len(), |i: int| items[i]@)
}

/// Whether some item of `items` starts at `offset`.
pub open spec fn has_offset<T>(items: Seq<ItemView<T>>, offset: u64) -> bool {
    exists|i: int| 0 <= i < items.len() && #[trigger] items[i].offset == offset
}

/// Whether the offsets of `items` grow from each item to the next.
pub open spec fn ascending<T>(items: Seq<ItemView<T>>) -> bool {
    forall|i: int, j: int|
        0 <= i < j < items.len() ==> #[trigger] items[i].offset < #[trigger] items[j].offset
}

/// `items`, where each item that starts at `base_offset` has `child` as its newest dependant.
pub open spec fn linked<T>(items: Seq<ItemView<T>>, base_offset: u64, child: usize) -> Seq<ItemView<T>> {
    Seq::new(
        items.len(),
        |i: int| if items[i].offset == base_offset { items[i].with_child(child) } else { items[i] },
    )
}

/// The children among `pending` that wait for the entry at `base_offset`, in the order
/// in which they were added.
pub open spec fn waiting_for(pending: Seq<(u64, usize)>, base_offset: u64) -> Seq<usize>
    decreases pending.len(),
{
    if pending.len() == 0 {
        Seq::empty()
    } else {
        let earlier = waiting_for(pending.drop_last(), base_offset);
        if pending.last().0 == base_offset {
            earlier.push(pending.last().1)
        } else {
            earlier
        }
    }
}

/// `items`, where each item lists, after its own children, those that waited for it.
pub open spec fn resolved<T>(items: Seq<ItemView<T>>, pending: Seq<(u64, usize)>) -> Seq<ItemView<T>> {
    Seq::new(
        items.len(),
        |i: int|
            ItemView { children: items[i].children + waiting_for(pending, items[i].offset), ..items[i] },
    )
}

/// Listing the child of the pending reference number `k` with its base gives what
/// resolving one more pending reference gives.
pub(crate) proof fn lemma_resolved_next<T>(items: Seq<ItemView<T>>, pending: Seq<(u64, usize)>, k: int)
    requires
        0 <= k < pending.len(),
    ensures
        linked(resolved(items, pending.take(k)), pending[k].0, pending[k].1) == resolved(
            items,
            pending.take(k + 1),
        ),
{
    let next = pending.take(k + 1);
    assert(next.drop_last() =~= pending.take(k));
    assert(next.last() == pending[k]);
    assert forall|i: int| 0 <= i < items.len() implies #[trigger] linked(
        resolved(items, pending.take(k)),
        pending[k].0,
        pending[k].1,
    )[i] == resolved(items, next)[i] by {
        let waiting = waiting_for(pending.take(k), items[i].offset);
        if items[i].offset == pending[k].0 {
            assert(waiting_for(next, items[i].offset) == waiting.push(pending[k].1));
            assert(items[i].children + waiting.push(pending[k].1) =~= (items[i].children
                + waiting).push(pending[k].1));
        } else {
            assert(waiting_for(next, items[i].offset) == waiting);
        }
    }
    assert(linked(resolved(items, pending.take(k)), pending[k].0, pending[k].1) =~= resolved(
        items,
        next,
    ));
}

/// Resolving no pending reference changes nothing.
pub(crate) proof fn lemma_resolved_none<T>(items: Seq<ItemView<T>>)
    ensures
        resolved(items, Seq::<(u64, usize)>::empty()) == items,
{
    assert forall|i: int| 0 <= i < items.len() implies #[trigger] resolved(
        items,
        Seq::<(u64, usize)>::empty(),
    )[i] == items[i] by {
        assert(items[i].children + Seq::<usize>::empty() =~= items[i].children);
    }
    assert(resolved(items, Seq::<(u64, usize)>::empty()) =~= items);
}

/// The child of a pending reference is among those that wait for its base.
pub(crate) proof fn lemma_waiting_child(pending: Seq<(u64, usize)>, k: int)
    requires
        0 <= k < pending.len(),
    ensures
        waiting_for(pending, pending[k].0).contains(pending[k].1),
    decreases pending.len(),
{
    let earlier = waiting_for(pending.drop_last(), pending[k].0);
    if k == pending.len() - 1 {
        assert(waiting_for(pending, pending[k].0) == earlier.push(pending[k].1));
        assert(earlier.push(pending[k].1)[earlier.len() as int] == pending[k].1);
    } else {
        lemma_waiting_child(pending.drop_last(), k);
        let at = choose|at: int| 0 <= at < earlier.len() && earlier[at] == pending[k].1;
        if pending.last().0 == pending[k].0 {
            assert(earlier.push(pending.last().1)[at] == pending[k].1);
        }
    }
}

} // verus!
