//! The tree under construction: entries are added in the order of their pack offsets.
use vstd::prelude::*;
use std::collections::VecDeque;
use crate::error::Error;
use crate::item::{
    ascending, has_offset, item_views, lemma_resolved_next, lemma_resolved_none, resolved, Item,
};
use crate::model::{Slot, TreeView};
use crate::soundness::{
    added_below, lemma_empty_sound, lemma_forest, lemma_resolve_step, lemma_resolved_sound,
    lemma_held_one_way, lemma_resolving_facts, lemma_sealed, lemma_sound_facts, lemma_stamped_sound,
    lemma_with_child_sound, lemma_with_root_sound, link_of, relisted, resolving, sound, Link,
};

verus! {

/// A tree that is filled with the entries of a pack, in the order of their offsets.
///
/// Roots and children are kept apart: a root is an entry that is no delta, a child is a
/// delta against another entry. Items refer to their children by index.
pub struct Tree<T> {
    /// The roots in the order they were added.
    roots: Vec<Item<T>>,
    /// The children in the order they were added.
    children: Vec<Item<T>>,
    /// The number of entries that may be added.
    capacity: usize,
    /// The index of the newest entry among the stored items: roots are stored from the
    /// newest to the oldest, then the children from the oldest to the newest.
    last_index: usize,
    /// The base offset and the index of each child whose base was not there when it came.
    future_child_offsets: Vec<(u64, usize)>,
    /// The places of the entries in the order they were added.
    inserted: Ghost<Seq<Slot>>,
    /// Where each child is held.
    links: Ghost<Seq<Link>>,
}

impl<T> View for Tree<T> {
    type V = TreeView<T>;

    closed spec fn view(&self) -> TreeView<T> {
        TreeView {
            capacity: self.capacity as nat,
            roots: item_views(self.roots@),
            children: item_views(self.children@),
            pending: self.future_child_offsets@,
            inserted: self.inserted@,
        }
    }
}

impl<T> Tree<T> {
    /// Whether `last_index` is the index of the entry that was added last.
    spec fn newest_known(&self) -> bool {
        self@.len() > 0 ==> {
            &&& self.last_index as int == self@.index_of(self@.inserted.last())
            &&& self@.inserted.last() == (if self.last_index < self.roots@.len() {
                Slot::Root(self.roots@.len() - 1)
            } else {
                Slot::Child(self.children@.len() - 1)
            })
        }
    }

    /// What holds of every tree: the entries came by growing offsets and fit the capacity,
    /// and each child is held once, by the entry that lists it or by a pending reference.
    pub closed spec fn wf(&self) -> bool {
        sound(self@, self.links@) && self.newest_known()
    }

    /// Creates an empty tree for `num_objects` entries.
    pub fn with_capacity(num_objects: usize) -> (tree: Result<Self, Error>)
        ensures
            tree is Ok,
            tree->Ok_0.wf(),
            tree->Ok_0@ == (TreeView::<T> {
                capacity: num_objects as nat,
                roots: Seq::empty(),
                children: Seq::empty(),
                pending: Seq::empty(),
                inserted: Seq::empty(),
            }),
    {
        let tree = Tree {
            roots: Vec::new(),
            children: Vec::new(),
            capacity: num_objects,
            last_index: 0,
            future_child_offsets: Vec::new(),
            inserted: Ghost(Seq::empty()),
            links: Ghost(Seq::empty()),
        };
        proof {
            assert(tree@.roots =~= Seq::empty());
            assert(tree@.children =~= Seq::empty());
            lemma_empty_sound(tree@);
        }
        Ok(tree)
    }

    /// The number of entries that the tree was created for.
    pub fn capacity(&self) -> (capacity: usize)
        ensures
            capacity == self@.capacity,
    {
        self.capacity
    }

    /// The number of entries that were added.
    pub fn len(&self) -> (len: usize)
        requires
            self.wf(),
        ensures
            len == self@.len(),
    {
        proof {
            lemma_sound_facts(self@, self.links@);
        }
        self.roots.len() + self.children.len()
    }

    /// The number of roots that were added.
    pub fn num_roots(&self) -> (roots: usize)
        ensures
            roots == self@.roots.len(),
    {
        self.roots.len()
    }

    /// The number of children that wait for their base.
    pub fn num_pending(&self) -> (pending: usize)
        ensures
            pending == self@.pending.len(),
    {
        self.future_child_offsets.len()
    }

    /// The offset of the entry that was added last.
    fn newest_offset(&self) -> (offset: Option<u64>)
        requires
            self.wf(),
        ensures
            offset == self@.last_offset(),
    {
        proof {
            lemma_sound_facts(self@, self.links@);
        }
        if self.roots.len() == 0 && self.children.len() == 0 {
            None
        } else if self.last_index < self.roots.len() {
            Some(self.roots[self.roots.len() - 1 - self.last_index].offset)
        } else {
            Some(self.children[self.last_index - self.roots.len()].offset)
        }
    }

    /// Lets the entry that was added last end at `offset`.
    fn stamp_newest(&mut self, offset: u64)
        requires
            old(self).wf(),
        ensures
            final(self).wf(),
            final(self).links@ == old(self).links@,
            final(self).last_index == old(self).last_index,
            final(self)@ == old(self)@.stamped(offset),
    {
        proof {
            lemma_sound_facts(self@, self.links@);
            lemma_stamped_sound(self@, self.links@, offset);
        }
        if self.roots.len() == 0 && self.children.len() == 0 {
            return ;
        }
        if self.last_index < self.roots.len() {
            let at = self.roots.len() - 1 - self.last_index;
            self.roots[at].next_offset = offset;
            proof {
                assert(self@.roots =~= old(self)@.stamped(offset).roots);
                assert(self@.children =~= old(self)@.children);
            }
        } else {
            let at = self.last_index - self.roots.len();
            self.children[at].next_offset = offset;
            proof {
                assert(self@.children =~= old(self)@.stamped(offset).children);
                assert(self@.roots =~= old(self)@.roots);
            }
        }
    }

    /// Checks that `offset` is greater than the offset of the entry added last, and lets
    /// that entry end at `offset`. Fails and leaves the tree as it is where `offset` is
    /// not greater. Of an empty tree nothing is asked. This is the first that adding an
    /// entry at `offset` does.
    pub fn assert_is_incrementing_and_update_next_offset(&mut self, offset: u64) -> (r: Result<
        (),
        Error,
    >)
        requires
            old(self).wf(),
        ensures
            final(self).wf(),
            match r {
                Ok(_) => {
                    &&& old(self)@.last_offset() is Some ==> offset > old(self)@.last_offset()->0
                    &&& final(self)@ == old(self)@.stamped(offset)
                },
                Err(e) => {
                    &&& old(self)@.last_offset() is Some
                    &&& offset <= old(self)@.last_offset()->0
                    &&& e == (Error::IncreasingOffsetViolation {
                        last: old(self)@.last_offset()->0,
                        current: offset,
                    })
                    &&& final(self)@ == old(self)@
                },
            },
    {
        match self.newest_offset() {
            Some(last) if offset <= last => {
                return Err(Error::IncreasingOffsetViolation { last, current: offset });
            },
            _ => {},
        }
        self.stamp_newest(offset);
        Ok(())
    }

    /// Why an entry at `offset` cannot be added to a tree that is full.
    fn refusal_when_full(&self, offset: u64) -> (e: Error)
        requires
            self.wf(),
            self@.len() >= self@.capacity,
        ensures
            self@.refusal(offset) == Some(e),
    {
        match self.newest_offset() {
            Some(last) if offset <= last => Error::IncreasingOffsetViolation { last, current: offset },
            _ => Error::CapacityExceeded { declared: self.capacity },
        }
    }

    /// Adds a root at the pack `offset` and keeps `data` with it. A root is an entry that
    /// is no delta: others may depend on it, and it depends on none.
    pub fn add_root(&mut self, offset: u64, data: T) -> (r: Result<(), Error>)
        requires
            old(self).wf(),
        ensures
            final(self).wf(),
            match old(self)@.refusal(offset) {
                Some(e) => r == Err::<(), Error>(e) && final(self)@ == old(self)@,
                None => r == Ok::<(), Error>(()) && final(self)@ == old(self)@.with_root(offset, data),
            },
    {
        proof {
            lemma_sound_facts(self@, self.links@);
        }
        if self.roots.len() + self.children.len() >= self.capacity {
            return Err(self.refusal_when_full(offset));
        }
        match self.assert_is_incrementing_and_update_next_offset(offset) {
            Err(e) => {
                return Err(e);
            },
            Ok(_) => {},
        }
        let ghost stamped = self@;
        proof {
            lemma_stamped_sound(old(self)@, old(self).links@, offset);
        }
        self.last_index = 0;
        self.roots.push(Item { offset, next_offset: 0, data, children: Vec::new() });
        proof {
            self.inserted@ = self.inserted@.push(Slot::Root(old(self).roots@.len() as int));
            lemma_with_root_sound(old(self)@, old(self).links@, offset, data);
            lemma_held_one_way(stamped, self.links@, old(self).links@);
            assert(self@.roots =~= old(self)@.with_root(offset, data).roots);
            assert(self@.children =~= old(self)@.with_root(offset, data).children);
        }
        Ok(())
    }

    /// Adds a child at the pack `offset` and keeps `data` with it. A child is a delta against
    /// the entry at `base_offset`, which lists it from now on. Where no entry starts at
    /// `base_offset` yet, the child waits for its base until the tree is sealed.
    #[verifier::rlimit(40)]
    pub fn add_child(&mut self, base_offset: u64, offset: u64, data: T) -> (r: Result<(), Error>)
        requires
            old(self).wf(),
        ensures
            final(self).wf(),
            match old(self)@.refusal(offset) {
                Some(e) => r == Err::<(), Error>(e) && final(self)@ == old(self)@,
                None => r == Ok::<(), Error>(()) && final(self)@ == old(self)@.with_child(
                    base_offset,
                    offset,
                    data,
                ),
            },
    {
        proof {
            lemma_sound_facts(self@, self.links@);
        }
        if self.roots.len() + self.children.len() >= self.capacity {
            return Err(self.refusal_when_full(offset));
        }
        match self.assert_is_incrementing_and_update_next_offset(offset) {
            Err(e) => {
                return Err(e);
            },
            Ok(_) => {},
        }
        let ghost stamped = self@;
        let ghost parent: Option<Slot>;
        proof {
            lemma_sound_facts(self@, self.links@);
            lemma_stamped_sound(old(self)@, old(self).links@, offset);
            lemma_held_one_way(stamped, self.links@, old(self).links@);
        }
        let next_child_index = self.children.len();
        if let Some(i) = position_of(&self.children, base_offset) {
            self.children[i].children.push(next_child_index);
            proof {
                parent = Some(Slot::Child(i as int));
                assert(self@.children =~= stamped.children.update(
                    i as int,
                    stamped.children[i as int].with_child(next_child_index),
                ));
                assert(self@.roots =~= stamped.roots);
            }
        } else if let Some(i) = position_of(&self.roots, base_offset) {
            self.roots[i].children.push(next_child_index);
            proof {
                parent = Some(Slot::Root(i as int));
                assert(self@.roots =~= stamped.roots.update(
                    i as int,
                    stamped.roots[i as int].with_child(next_child_index),
                ));
                assert(self@.children =~= stamped.children);
            }
        } else {
            self.future_child_offsets.push((base_offset, next_child_index));
            proof {
                parent = None;
                assert(self@.roots =~= stamped.roots);
                assert(self@.children =~= stamped.children);
            }
        }
        self.last_index = self.roots.len() + self.children.len();
        self.children.push(Item { offset, next_offset: 0, data, children: Vec::new() });
        proof {
            let before = old(self)@;
            assert(parent is Some ==> before.holds(parent->0) && before.item(parent->0).offset
                == base_offset);
            assert(parent is None ==> !before.contains_offset(base_offset)) by {
                if has_offset(before.roots, base_offset) {
                    let j = choose|j: int|
                        0 <= j < before.roots.len() && #[trigger] before.roots[j].offset == base_offset;
                    assert(stamped.roots[j].offset == base_offset);
                }
                if has_offset(before.children, base_offset) {
                    let j = choose|j: int|
                        0 <= j < before.children.len() && #[trigger] before.children[j].offset
                            == base_offset;
                    assert(stamped.children[j].offset == base_offset);
                }
            }
            lemma_with_child_sound(before, old(self).links@, base_offset, offset, data, parent);
            self.inserted@ = self.inserted@.push(Slot::Child(next_child_index as int));
            self.links@ = self.links@.push(link_of(before, parent));
            let below = added_below(stamped, base_offset, offset, data, parent);
            assert(self@.roots =~= below.roots);
            assert(self@.children =~= below.children);
            assert(self@.pending =~= below.pending);
        }
        Ok(())
    }

    /// The base on which sealing would fail: the offset that the first child names as its
    /// base while no entry starts there. Nothing, if sealing would not fail. The tree stays
    /// as it is, so that asking again gives the same.
    pub fn dangling_base(&self) -> (base: Option<u64>)
        requires
            self.wf(),
        ensures
            self@.first_dangling_is(base),
    {
        proof {
            lemma_sound_facts(self@, self.links@);
        }
        let mut k: usize = 0;
        while k < self.future_child_offsets.len()
            invariant
                k <= self@.pending.len(),
                self@.pending == self.future_child_offsets@,
                ascending(self@.roots),
                ascending(self@.children),
                self@.roots == item_views(self.roots@),
                self@.children == item_views(self.children@),
                forall|j: int| 0 <= j < k ==> !self@.dangling(j),
            decreases self@.pending.len() - k,
        {
            let base_offset = self.future_child_offsets[k].0;
            match position_of(&self.children, base_offset) {
                Some(i) => {
                    proof {
                        assert(self@.children[i as int].offset == base_offset);
                    }
                },
                None => match position_of(&self.roots, base_offset) {
                    Some(i) => {
                        proof {
                            assert(self@.roots[i as int].offset == base_offset);
                        }
                    },
                    None => {
                        proof {
                            assert(self@.dangling(k as int));
                        }
                        return Some(base_offset);
                    },
                },
            }
            k += 1;
        }
        None
    }

    /// Lists each pending child with its base, then lets the newest entry end at
    /// `pack_entries_end`, where the entries of the pack end. Fails on the first pending
    /// child whose base is not in the tree, and then leaves the tree as it is, so that
    /// trying again fails in the same way. This is what sealing does to the tree.
    #[verifier::rlimit(40)]
    pub fn set_pack_entries_end_and_resolve_ref_offsets(&mut self, pack_entries_end: u64) -> (r: Result<
        (),
        Error,
    >)
        requires
            old(self).wf(),
        ensures
            final(self).wf(),
            r is Err ==> final(self)@ == old(self)@,
            old(self)@.seals_to(
                pack_entries_end,
                match r {
                    Ok(_) => Ok(final(self)@),
                    Err(e) => Err(e),
                },
            ),
            r is Ok ==> {
                &&& final(self)@.len() > 0 ==> final(self)@.item(
                    final(self)@.inserted.last(),
                ).next_offset == pack_entries_end
                &&& forall|k: int|
                    0 <= k < final(self)@.inserted.len() - 1 ==> final(self)@.item(
                        #[trigger] final(self)@.inserted[k],
                    ).next_offset > final(self)@.item(final(self)@.inserted[k]).offset
                &&& (old(self)@.last_offset() is Some ==> pack_entries_end > old(
                    self,
                )@.last_offset()->0) ==> final(self)@.ends_behind_starts()
                &&& forall|k: int|
                    0 <= k < old(self)@.pending.len() ==> final(self)@.lists(
                        (#[trigger] old(self)@.pending[k]).0,
                        old(self)@.pending[k].1,
                    )
            },
    {
        match self.dangling_base() {
            Some(base_offset) => {
                return Err(Error::DanglingBaseOffset { base_offset });
            },
            None => {},
        }
        let ghost start = self@;
        let count = self.future_child_offsets.len();
        let mut k: usize = 0;
        proof {
            lemma_sound_facts(start, self.links@);
            lemma_resolved_none(start.roots);
            lemma_resolved_none(start.children);
            assert(start.pending.take(0) =~= Seq::<(u64, usize)>::empty());
        }
        while k < count
            invariant
                k <= count,
                count == start.pending.len(),
                start == old(self)@,
                self@.pending == start.pending,
                self@.capacity == start.capacity,
                self@.inserted == start.inserted,
                self@.roots == resolved(start.roots, start.pending.take(k as int)),
                self@.children == resolved(start.children, start.pending.take(k as int)),
                resolving(self@, self.links@, k as int),
                self.last_index == old(self).last_index,
                forall|j: int| 0 <= j < count ==> !start.dangling(j),
            decreases count - k,
        {
            let (base_offset, child_index) = self.future_child_offsets[k];
            let ghost before = self@;
            let ghost parent: Slot;
            proof {
                lemma_resolving_facts(before, self.links@, k as int);
            }
            if let Some(i) = position_of(&self.children, base_offset) {
                self.children[i].children.push(child_index);
                proof {
                    parent = Slot::Child(i as int);
                    assert(before.children[i as int].offset == base_offset);
                    assert(start.children[i as int].offset == base_offset);
                    assert(self@.roots =~= before.roots);
                    assert(self@.children =~= relisted(before, k as int, parent).children);
                }
            } else if let Some(i) = position_of(&self.roots, base_offset) {
                self.roots[i].children.push(child_index);
                proof {
                    parent = Slot::Root(i as int);
                    assert(before.roots[i as int].offset == base_offset);
                    assert(start.roots[i as int].offset == base_offset);
                    assert(self@.children =~= before.children);
                    assert(self@.roots =~= relisted(before, k as int, parent).roots);
                }
            } else {
                proof {
                    assert(!start.dangling(k as int));
                    if has_offset(start.roots, base_offset) {
                        let i = choose|i: int|
                            0 <= i < start.roots.len() && #[trigger] start.roots[i].offset == base_offset;
                        assert(before.roots[i].offset == base_offset);
                    }
                    if has_offset(start.children, base_offset) {
                        let i = choose|i: int|
                            0 <= i < start.children.len() && #[trigger] start.children[i].offset
                                == base_offset;
                        assert(before.children[i].offset == base_offset);
                    }
                    assert(false);
                }
                return Err(Error::DanglingBaseOffset { base_offset });
            }
            proof {
                assert(start.contains_offset(base_offset));
                lemma_resolve_step(before, self.links@, k as int, parent);
                self.links@ = self.links@.update(
                    child_index as int,
                    Link::Listed { parent, at: before.item(parent).children.len() as int },
                );
                assert(self@ == relisted(before, k as int, parent));
                lemma_resolved_next(start.roots, start.pending, k as int);
                lemma_resolved_next(start.children, start.pending, k as int);
            }
            k += 1;
        }
        proof {
            lemma_resolved_sound(self@, self.links@);
        }
        self.future_child_offsets.clear();
        proof {
            assert(start.pending.take(count as int) =~= start.pending);
            assert(self@.pending =~= Seq::<(u64, usize)>::empty());
        }
        self.stamp_newest(pack_entries_end);
        proof {
            lemma_sound_facts(self@, self.links@);
            lemma_sealed(start, old(self).links@, self.links@, pack_entries_end);
            if start.len() > 0 {
                assert(self@.item(self@.inserted.last()).offset == start.last_offset()->0);
            }
        }
        Ok(())
    }

    /// The entries of a tree were added by growing offsets and are no more than the tree was
    /// created for: `inserted` names each entry once, and from each to the one added after it
    /// the offset grows. Each entry but the newest ends where the one added after it starts.
    /// The roots and the children are each in the order of their offsets.
    pub proof fn lemma_added_by_growing_offsets(&self)
        requires
            self.wf(),
        ensures
            self@.ordered(),
            self@.len() <= self@.capacity,
            ascending(self@.roots),
            ascending(self@.children),
    {
        lemma_sound_facts(self@, self.links@);
    }

    /// A tree in which no child waits for its base is a forest: each child is listed once,
    /// by one entry at one position of its children.
    pub proof fn lemma_is_forest(&self)
        requires
            self.wf(),
            self@.pending.len() == 0,
        ensures
            self@.is_forest(),
    {
        lemma_forest(self@, self.links@);
    }

    /// Gives up the tree for its items as they are stored: the roots from the newest to
    /// the oldest, then the children from the oldest to the newest.
    pub fn into_items(self) -> (items: VecDeque<Item<T>>)
        ensures
            item_views(items@) == self@.items(),
    {
        proof {
            lemma_views_of_stored(self.roots@, self.children@);
        }
        stored_order(self.roots, self.children)
    }

    /// Seals the tree once the last entry was added: each child that waited for
    /// its base is listed by it, and the newest entry ends at `pack_entries_end`, where
    /// the entries of the pack end. Fails if a child names a base that is no entry.
    #[verifier::rlimit(40)]
    pub fn seal(self, pack_entries_end: u64) -> (r: Result<SealedTree<T>, Error>)
        requires
            self.wf(),
        ensures
            self@.seals_to(pack_entries_end, outcome(r)),
            r matches Ok(sealed) ==> {
                &&& sealed.wf()
                &&& sealed@.len() > 0 ==> sealed@.item(sealed@.inserted.last()).next_offset
                    == pack_entries_end
                &&& forall|k: int|
                    0 <= k < sealed@.inserted.len() - 1 ==> sealed@.item(
                        #[trigger] sealed@.inserted[k],
                    ).next_offset > sealed@.item(sealed@.inserted[k]).offset
                &&& (self@.last_offset() is Some ==> pack_entries_end > self@.last_offset()->0)
                    ==> sealed@.ends_behind_starts()
                &&& forall|k: int|
                    0 <= k < self@.pending.len() ==> sealed@.lists(
                        (#[trigger] self@.pending[k]).0,
                        self@.pending[k].1,
                    )
            },
    {
        let mut tree = self;
        match tree.set_pack_entries_end_and_resolve_ref_offsets(pack_entries_end) {
            Ok(_) => Ok(SealedTree { tree }),
            Err(e) => Err(e),
        }
    }
}

/// Moves the roots, newest first, and then the children, oldest first, into one sequence.
fn stored_order<T>(roots: Vec<Item<T>>, children: Vec<Item<T>>) -> (items: VecDeque<Item<T>>)
    ensures
        items@ == roots@.reverse() + children@,
{
    let mut items: VecDeque<Item<T>> = VecDeque::new();
    for root in it: roots
        invariant
            it.seq() == roots@,
            items@ == roots@.take(it.index()).reverse(),
    {
        items.push_front(root);
        proof {
            assert(roots@.take(it.index() + 1).reverse() =~= seq![root] + roots@.take(
                it.index(),
            ).reverse());
        }
    }
    proof {
        assert(roots@.take(roots@.len() as int) =~= roots@);
    }
    let ghost front = items@;
    for child in it: children
        invariant
            it.seq() == children@,
            items@ == front + children@.take(it.index()),
    {
        items.push_back(child);
        proof {
            assert(children@.take(it.index() + 1) =~= children@.take(it.index()).push(child));
        }
    }
    proof {
        assert(children@.take(children@.len() as int) =~= children@);
    }
    items
}

/// The views of the stored items are the views of the roots, newest first, and then
/// the views of the children.
proof fn lemma_views_of_stored<T>(roots: Seq<Item<T>>, children: Seq<Item<T>>)
    ensures
        item_views(roots.reverse() + children) == item_views(roots).reverse() + item_views(children),
{
    assert(item_views(roots.reverse() + children) =~= item_views(roots).reverse() + item_views(
        children,
    ));
}

/// The view of the sealed tree, or the failure.
pub open spec fn outcome<T>(r: Result<SealedTree<T>, Error>) -> Result<TreeView<T>, Error> {
    match r {
        Ok(sealed) => Ok(sealed@),
        Err(e) => Err(e),
    }
}

/// A tree to which no entry can be added any more: each child is listed by its base.
pub struct SealedTree<T> {
    tree: Tree<T>,
}

impl<T> View for SealedTree<T> {
    type V = TreeView<T>;

    closed spec fn view(&self) -> TreeView<T> {
        self.tree@
    }
}

impl<T> SealedTree<T> {
    /// What holds of every sealed tree: it is a tree in which no child waits for its base.
    pub closed spec fn wf(&self) -> bool {
        self.tree.wf() && self.tree@.pending.len() == 0
    }

    /// The entries of a sealed tree were added by growing offsets: `inserted` names each
    /// entry once, and from each to the one added after it the offset grows. Each entry
    /// but the newest ends where the one added after it starts. The roots and the children
    /// are each in the order of their offsets.
    pub proof fn lemma_added_by_growing_offsets(&self)
        requires
            self.wf(),
        ensures
            self@.ordered(),
            ascending(self@.roots),
            ascending(self@.children),
    {
        self.tree.lemma_added_by_growing_offsets();
    }

    /// A sealed tree is a forest: no child waits for its base, and each child is listed
    /// once, by one entry at one position of its children. The roots and the children
    /// are each in the order of their offsets.
    pub proof fn lemma_is_forest(&self)
        requires
            self.wf(),
        ensures
            self@.pending.len() == 0,
            self@.is_forest(),
            ascending(self@.roots),
            ascending(self@.children),
    {
        self.tree.lemma_is_forest();
        self.tree.lemma_added_by_growing_offsets();
    }

    /// Gives up the tree for its items as they are stored: the roots from the newest to
    /// the oldest, then the children from the oldest to the newest.
    pub fn into_items(self) -> (items: VecDeque<Item<T>>)
        ensures
            item_views(items@) == self@.items(),
    {
        self.tree.into_items()
    }

    /// The number of entries.
    pub fn len(&self) -> (len: usize)
        requires
            self.wf(),
        ensures
            len == self@.len(),
    {
        self.tree.len()
    }

    /// The number of roots.
    pub fn num_roots(&self) -> (roots: usize)
        ensures
            roots == self@.roots.len(),
    {
        self.tree.num_roots()
    }

    /// Gives up the tree for its roots and its children, each in the order they were added.
    pub(crate) fn into_parts(self) -> (parts: (Vec<Item<T>>, Vec<Item<T>>))
        requires
            self.wf(),
        ensures
            item_views(parts.0@) == self@.roots,
            item_views(parts.1@) == self@.children,
            parts.0@.len() + parts.1@.len() <= usize::MAX,
    {
        proof {
            lemma_sound_facts(self.tree@, self.tree.links@);
        }
        (self.tree.roots, self.tree.children)
    }
}

/// The index of the item of `items` that starts at `offset`.
fn position_of<T>(items: &Vec<Item<T>>, offset: u64) -> (found: Option<usize>)
    requires
        ascending(item_views(items@)),
    ensures
        match found {
            Some(i) => i < items@.len() && items@[i as int].offset == offset,
            None => !has_offset(item_views(items@), offset),
        },
{
    let mut lo: usize = 0;
    let mut hi: usize = items.len();
    while lo < hi
        invariant
            lo <= hi <= items@.len(),
            ascending(item_views(items@)),
            forall|i: int| 0 <= i < lo ==> (#[trigger] item_views(items@)[i]).offset < offset,
            forall|i: int| hi <= i < items@.len() ==> (#[trigger] item_views(items@)[i]).offset > offset,
        decreases hi - lo,
    {
        let mid: usize = lo + (hi - lo) / 2;
        let at: u64 = items[mid].offset;
        assert(item_views(items@)[mid as int].offset == at);
        if at == offset {
            return Some(mid);
        } else if at < offset {
            lo = mid + 1;
        } else {
            hi = mid;
        }
    }
    None
}

} // verus!
