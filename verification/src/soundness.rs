//! What holds of every tree, and why each operation keeps it.
use vstd::prelude::*;
use crate::item::{ascending, has_offset, linked, resolved, ItemView};
use crate::model::{Slot, TreeView};

verus! {

/// How a child of the tree is held: by the entry that lists it, or by a pending reference.
pub enum Link {
    /// `parent` lists the child at position `at` of its children.
    Listed { parent: Slot, at: int },
    /// The pending reference number `at` names the child.
    Pending { at: int },
}

/// Each child is held once: by one list of children, or by one of the pending references
/// from number `from` on. The pending references before `from` hold nothing any more.
pub closed spec fn held_from<T>(tree: TreeView<T>, links: Seq<Link>, from: int) -> bool {
    &&& links.len() == tree.children.len()
    &&& forall|c: int|
        0 <= c < links.len() ==> match #[trigger] links[c] {
            Link::Listed { parent, at } => {
                &&& tree.holds(parent)
                &&& 0 <= at < tree.item(parent).children.len()
                &&& tree.item(parent).children[at] == c
            },
            Link::Pending { at } => from <= at < tree.pending.len() && tree.pending[at].1 == c,
        }
    &&& forall|i: int, at: int|
        0 <= i < tree.roots.len() && 0 <= at < tree.roots[i].children.len() ==> {
            &&& (#[trigger] tree.roots[i].children[at]) < links.len()
            &&& links[tree.roots[i].children[at] as int] == Link::Listed { parent: Slot::Root(i), at }
        }
    &&& forall|i: int, at: int|
        0 <= i < tree.children.len() && 0 <= at < tree.children[i].children.len() ==> {
            &&& (#[trigger] tree.children[i].children[at]) < links.len()
            &&& links[tree.children[i].children[at] as int] == Link::Listed { parent: Slot::Child(i), at }
        }
    &&& forall|at: int|
        from <= at < tree.pending.len() ==> {
            &&& (#[trigger] tree.pending[at]).1 < links.len()
            &&& links[tree.pending[at].1 as int] == Link::Pending { at }
        }
}

/// Each child is held once: by one list of children, or by one pending reference.
pub closed spec fn held_once<T>(tree: TreeView<T>, links: Seq<Link>) -> bool {
    held_from(tree, links, 0)
}

/// The entries fit the capacity and came by growing offsets, so that no two start at the
/// same offset and the newest starts last.
pub closed spec fn arranged<T>(tree: TreeView<T>) -> bool {
    &&& tree.len() <= tree.capacity
    &&& tree.ordered()
    &&& ascending(tree.roots)
    &&& ascending(tree.children)
    &&& forall|i: int, j: int|
        0 <= i < tree.roots.len() && 0 <= j < tree.children.len() ==> (#[trigger] tree.roots[i]).offset
            != (#[trigger] tree.children[j]).offset
    &&& forall|slot: Slot| #[trigger]
        tree.holds(slot) ==> tree.item(slot).offset <= tree.item(tree.inserted.last()).offset
}

/// What holds of the entries of every tree, whatever its representation.
pub closed spec fn sound<T>(tree: TreeView<T>, links: Seq<Link>) -> bool {
    arranged(tree) && held_once(tree, links)
}

/// What holds of a tree while it is sealed, when the pending references before number
/// `from` are resolved.
pub closed spec fn resolving<T>(tree: TreeView<T>, links: Seq<Link>, from: int) -> bool {
    arranged(tree) && held_from(tree, links, from)
}

/// A tree without entries is sound.
pub(crate) proof fn lemma_empty_sound<T>(tree: TreeView<T>)
    requires
        tree.roots.len() == 0,
        tree.children.len() == 0,
        tree.pending.len() == 0,
        tree.inserted.len() == 0,
    ensures
        sound(tree, Seq::<Link>::empty()),
{
}

/// What a sound tree is known for outside this file.
pub(crate) proof fn lemma_sound_facts<T>(tree: TreeView<T>, links: Seq<Link>)
    requires
        sound(tree, links),
    ensures
        resolving(tree, links, 0),
        links.len() == tree.children.len(),
        ascending(tree.roots),
        ascending(tree.children),
        tree.ordered(),
        tree.len() <= tree.capacity,
        tree.len() > 0 ==> tree.holds(tree.inserted.last()),
{
    if tree.len() > 0 {
        assert(tree.holds(tree.inserted[tree.inserted.len() - 1]));
    }
}

/// What a tree is known for while it is sealed.
pub(crate) proof fn lemma_resolving_facts<T>(tree: TreeView<T>, links: Seq<Link>, from: int)
    requires
        resolving(tree, links, from),
    ensures
        ascending(tree.roots),
        ascending(tree.children),
        tree.ordered(),
{
}

/// Once each pending reference is resolved, the tree without them is sound.
pub(crate) proof fn lemma_resolved_sound<T>(tree: TreeView<T>, links: Seq<Link>)
    requires
        resolving(tree, links, tree.pending.len() as int),
    ensures
        sound(TreeView { pending: Seq::empty(), ..tree }, links),
{
    let after = TreeView { pending: Seq::<(u64, usize)>::empty(), ..tree };
    lemma_relisted_arranged(tree, after);
    assert forall|c: int| 0 <= c < links.len() implies match #[trigger] links[c] {
        Link::Listed { parent, at } => {
            &&& after.holds(parent)
            &&& 0 <= at < after.item(parent).children.len()
            &&& after.item(parent).children[at] == c
        },
        Link::Pending { at } => 0 <= at < after.pending.len() && after.pending[at].1 == c,
    } by {
        match links[c] {
            Link::Listed { parent, at } => {
                assert(tree.holds(parent));
            },
            Link::Pending { at } => {},
        }
    }
}

/// Listing the child of the pending reference number `k` with `parent`, the entry
/// at its base, keeps what holds while a tree is sealed.
pub(crate) proof fn lemma_resolve_step<T>(tree: TreeView<T>, links: Seq<Link>, k: int, parent: Slot)
    requires
        resolving(tree, links, k),
        0 <= k < tree.pending.len(),
        tree.holds(parent),
        tree.item(parent).offset == tree.pending[k].0,
    ensures
        resolving(
            relisted(tree, k, parent),
            links.update(
                tree.pending[k].1 as int,
                Link::Listed { parent, at: tree.item(parent).children.len() as int },
            ),
            k + 1,
        ),
        relisted(tree, k, parent).roots == linked(tree.roots, tree.pending[k].0, tree.pending[k].1),
        relisted(tree, k, parent).children == linked(
            tree.children,
            tree.pending[k].0,
            tree.pending[k].1,
        ),
{
    let after = relisted(tree, k, parent);
    lemma_linked_tree(tree, tree.pending[k].0, tree.pending[k].1, Some(parent));
    assert(after.roots =~= linked(tree.roots, tree.pending[k].0, tree.pending[k].1));
    assert(after.children =~= linked(tree.children, tree.pending[k].0, tree.pending[k].1));
    lemma_relisted_arranged(tree, after);
    lemma_resolve_held(tree, after, links, k, parent);
}

/// `tree`, where `parent` lists the child of the pending reference number `k` as its newest.
pub(crate) open spec fn relisted<T>(tree: TreeView<T>, k: int, parent: Slot) -> TreeView<T> {
    match parent {
        Slot::Root(i) => TreeView {
            roots: tree.roots.update(i, tree.roots[i].with_child(tree.pending[k].1)),
            ..tree
        },
        Slot::Child(i) => TreeView {
            children: tree.children.update(i, tree.children[i].with_child(tree.pending[k].1)),
            ..tree
        },
    }
}

/// Letting the newest entry end somewhere keeps a tree sound.
pub(crate) proof fn lemma_stamped_sound<T>(tree: TreeView<T>, links: Seq<Link>, offset: u64)
    requires
        sound(tree, links),
    ensures
        sound(tree.stamped(offset), links),
        tree.stamped(offset).len() == tree.len(),
        tree.stamped(offset).last_offset() == tree.last_offset(),
{
    let after = tree.stamped(offset);
    if tree.inserted.len() > 0 {
        let last = tree.inserted.last();
        assert(tree.holds(last));
        assert forall|slot: Slot| tree.holds(slot) implies after.item(slot).offset == tree.item(
            slot,
        ).offset && after.item(slot).children == tree.item(slot).children && (slot != last
            ==> after.item(slot) == tree.item(slot)) by {}
        assert forall|slot: Slot| #[trigger] after.holds(slot) implies tree.holds(slot) by {}
        assert forall|k: int| 0 <= k < after.inserted.len() - 1 implies after.item(
            #[trigger] after.inserted[k],
        ).next_offset == after.item(after.inserted[k + 1]).offset by {
            assert(tree.holds(tree.inserted[k]));
            assert(tree.holds(tree.inserted[k + 1]));
            assert(tree.item(tree.inserted[k]).offset < tree.item(last).offset);
        }
    }
}

/// `after` is `tree` with one more entry at `added`, which starts at `offset`:
/// the entries of `tree` are where they were and start where they did, and
/// the one that was the newest now ends at `offset`.
pub(crate) closed spec fn grown<T>(tree: TreeView<T>, after: TreeView<T>, added: Slot, offset: u64) -> bool {
    &&& tree.len() < tree.capacity
    &&& tree.last_offset() is Some ==> offset > tree.last_offset()->0
    &&& after.capacity == tree.capacity
    &&& after.inserted == tree.inserted.push(added)
    &&& match added {
        Slot::Root(i) => i == tree.roots.len() && after.roots.len() == i + 1 && after.children.len()
            == tree.children.len(),
        Slot::Child(i) => i == tree.children.len() && after.children.len() == i + 1
            && after.roots.len() == tree.roots.len(),
    }
    &&& after.item(added).offset == offset
    &&& forall|slot: Slot| #[trigger]
        tree.holds(slot) ==> {
            &&& after.item(slot).offset == tree.item(slot).offset
            &&& after.item(slot).next_offset == if slot == tree.inserted.last() {
                offset
            } else {
                tree.item(slot).next_offset
            }
        }
}

/// A tree that has grown by an entry is arranged as it was before.
#[verifier::rlimit(40)]
pub(crate) proof fn lemma_grown_arranged<T>(tree: TreeView<T>, after: TreeView<T>, added: Slot, offset: u64)
    requires
        arranged(tree),
        grown(tree, after, added, offset),
    ensures
        arranged(after),
{
    assert(after.inserted.last() == added);
    assert forall|slot: Slot| #[trigger] after.holds(slot) && slot != added implies tree.holds(slot)
        && after.item(slot).offset < offset by {
        assert(tree.holds(slot));
    }
    assert forall|k: int| 0 <= k < after.inserted.len() implies after.holds(
        #[trigger] after.inserted[k],
    ) by {
        if k < tree.inserted.len() {
            assert(tree.holds(tree.inserted[k]));
        }
    }
    assert forall|j: int, k: int| 0 <= j < k < after.inserted.len() implies after.item(
        #[trigger] after.inserted[j],
    ).offset < after.item(#[trigger] after.inserted[k]).offset by {
        assert(tree.holds(tree.inserted[j]));
        if k < tree.inserted.len() {
            assert(tree.holds(tree.inserted[k]));
        }
    }
    assert forall|k: int| 0 <= k < after.inserted.len() - 1 implies after.item(
        #[trigger] after.inserted[k],
    ).next_offset == after.item(after.inserted[k + 1]).offset by {
        assert(tree.holds(tree.inserted[k]));
        if k + 1 < tree.inserted.len() {
            assert(tree.holds(tree.inserted[k + 1]));
            assert(tree.item(tree.inserted[k]).offset < tree.item(tree.inserted.last()).offset);
        }
    }
    assert forall|slot: Slot| #[trigger] after.holds(slot) implies after.inserted.contains(slot) by {
        if slot == added {
            assert(after.inserted[after.inserted.len() - 1] == slot);
        } else {
            assert(tree.holds(slot));
            let k = choose|k: int| 0 <= k < tree.inserted.len() && tree.inserted[k] == slot;
            assert(after.inserted[k] == slot);
        }
    }
    assert(after.ordered());
    assert forall|i: int, j: int| 0 <= i < j < after.roots.len() implies (
    #[trigger] after.roots[i]).offset < (#[trigger] after.roots[j]).offset by {
        assert(after.holds(Slot::Root(i)));
        assert(after.holds(Slot::Root(j)));
        if added != Slot::Root(j) {
            assert(tree.holds(Slot::Root(i)) && tree.holds(Slot::Root(j)));
        }
    }
    assert forall|i: int, j: int| 0 <= i < j < after.children.len() implies (
    #[trigger] after.children[i]).offset < (#[trigger] after.children[j]).offset by {
        assert(after.holds(Slot::Child(i)));
        assert(after.holds(Slot::Child(j)));
        if added != Slot::Child(j) {
            assert(tree.holds(Slot::Child(i)) && tree.holds(Slot::Child(j)));
        }
    }
    assert forall|i: int, j: int| 0 <= i < after.roots.len() && 0 <= j < after.children.len() implies (
    #[trigger] after.roots[i]).offset != (#[trigger] after.children[j]).offset by {
        assert(after.holds(Slot::Root(i)));
        assert(after.holds(Slot::Child(j)));
        if added != Slot::Root(i) && added != Slot::Child(j) {
            assert(tree.holds(Slot::Root(i)) && tree.holds(Slot::Child(j)));
        }
    }
}

/// `after` has the entries of `tree` and one more, which lists no child, and the children
/// that the entries list are those they listed in `tree`, but for `child`, the child
/// that was added, where `parent` is given: it is the newest of those that `parent` lists.
pub(crate) closed spec fn lists_kept<T>(
    tree: TreeView<T>,
    after: TreeView<T>,
    added: Slot,
    parent: Option<Slot>,
) -> bool {
    let child = tree.children.len() as usize;
    &&& after.roots.len() >= tree.roots.len()
    &&& after.children.len() >= tree.children.len()
    &&& after.len() == tree.len() + 1
    &&& after.holds(added) && !tree.holds(added)
    &&& after.item(added).children.len() == 0
    &&& forall|slot: Slot| #[trigger]
        tree.holds(slot) ==> after.item(slot).children == if parent == Some(slot) {
            tree.item(slot).children.push(child)
        } else {
            tree.item(slot).children
        }
}

/// The link of a child that is added: to the entry that lists it, or to the pending
/// reference that names it.
pub(crate) closed spec fn link_of<T>(tree: TreeView<T>, parent: Option<Slot>) -> Link {
    match parent {
        Some(slot) => Link::Listed { parent: slot, at: tree.item(slot).children.len() as int },
        None => Link::Pending { at: tree.pending.len() as int },
    }
}

/// Adding a root keeps each child held once.
pub(crate) proof fn lemma_root_added_held<T>(tree: TreeView<T>, after: TreeView<T>, links: Seq<Link>)
    requires
        held_once(tree, links),
        lists_kept(tree, after, Slot::Root(tree.roots.len() as int), None),
        after.pending == tree.pending,
    ensures
        held_once(after, links),
{
    assert forall|c: int| 0 <= c < links.len() implies match #[trigger] links[c] {
        Link::Listed { parent, at } => {
            &&& after.holds(parent)
            &&& 0 <= at < after.item(parent).children.len()
            &&& after.item(parent).children[at] == c
        },
        Link::Pending { at } => 0 <= at < after.pending.len() && after.pending[at].1 == c,
    } by {
        match links[c] {
            Link::Listed { parent, at } => {
                assert(tree.holds(parent));
            },
            Link::Pending { at } => {},
        }
    }
    assert forall|i: int, at: int|
        0 <= i < after.roots.len() && 0 <= at < after.roots[i].children.len() implies {
        &&& (#[trigger] after.roots[i].children[at]) < links.len()
        &&& links[after.roots[i].children[at] as int] == Link::Listed { parent: Slot::Root(i), at }
    } by {
        assert(after.holds(Slot::Root(i)));
        if i < tree.roots.len() {
            assert(tree.holds(Slot::Root(i)));
            assert(tree.roots[i].children[at] < links.len());
        }
    }
    assert forall|i: int, at: int|
        0 <= i < after.children.len() && 0 <= at < after.children[i].children.len() implies {
        &&& (#[trigger] after.children[i].children[at]) < links.len()
        &&& links[after.children[i].children[at] as int] == Link::Listed { parent: Slot::Child(i), at }
    } by {
        assert(tree.holds(Slot::Child(i)));
        assert(tree.children[i].children[at] < links.len());
    }
}

/// Adding a child keeps each child held once, the new one by its link.
#[verifier::rlimit(40)]
pub(crate) proof fn lemma_child_added_held<T>(
    tree: TreeView<T>,
    after: TreeView<T>,
    links: Seq<Link>,
    parent: Option<Slot>,
    base_offset: u64,
)
    requires
        held_once(tree, links),
        tree.children.len() < usize::MAX,
        lists_kept(tree, after, Slot::Child(tree.children.len() as int), parent),
        match parent {
            Some(slot) => tree.holds(slot) && after.pending == tree.pending,
            None => after.pending == tree.pending.push((base_offset, tree.children.len() as usize)),
        },
    ensures
        held_once(after, links.push(link_of(tree, parent))),
{
    let after_links = links.push(link_of(tree, parent));
    assert forall|c: int| 0 <= c < after_links.len() implies match #[trigger] after_links[c] {
        Link::Listed { parent, at } => {
            &&& after.holds(parent)
            &&& 0 <= at < after.item(parent).children.len()
            &&& after.item(parent).children[at] == c
        },
        Link::Pending { at } => 0 <= at < after.pending.len() && after.pending[at].1 == c,
    } by {
        if c < links.len() {
            match links[c] {
                Link::Listed { parent, at } => {
                    assert(tree.holds(parent));
                },
                Link::Pending { at } => {},
            }
        } else {
            match parent {
                Some(slot) => {
                    assert(tree.holds(slot));
                },
                None => {},
            }
        }
    }
    assert forall|i: int, at: int|
        0 <= i < after.roots.len() && 0 <= at < after.roots[i].children.len() implies {
        &&& (#[trigger] after.roots[i].children[at]) < after_links.len()
        &&& after_links[after.roots[i].children[at] as int] == Link::Listed { parent: Slot::Root(i), at }
    } by {
        assert(tree.holds(Slot::Root(i)));
        if at < tree.roots[i].children.len() {
            assert(tree.roots[i].children[at] < links.len());
        }
    }
    assert forall|i: int, at: int|
        0 <= i < after.children.len() && 0 <= at < after.children[i].children.len() implies {
        &&& (#[trigger] after.children[i].children[at]) < after_links.len()
        &&& after_links[after.children[i].children[at] as int] == Link::Listed {
            parent: Slot::Child(i),
            at,
        }
    } by {
        if i < tree.children.len() {
            assert(tree.holds(Slot::Child(i)));
            if at < tree.children[i].children.len() {
                assert(tree.children[i].children[at] < links.len());
            }
        } else {
            assert(after.item(Slot::Child(tree.children.len() as int)).children.len() == 0);
        }
    }
    assert forall|at: int| 0 <= at < after.pending.len() implies {
        &&& (#[trigger] after.pending[at]).1 < after_links.len()
        &&& after_links[after.pending[at].1 as int] == Link::Pending { at }
    } by {
        if at < tree.pending.len() {
            assert(tree.pending[at].1 < links.len());
        }
    }
}

/// In a tree that is arranged, at most one entry starts at a given offset.
pub(crate) proof fn lemma_one_per_offset<T>(tree: TreeView<T>, slot: Slot, other: Slot)
    requires
        arranged(tree),
        tree.holds(slot),
        tree.holds(other),
        tree.item(slot).offset == tree.item(other).offset,
    ensures
        slot == other,
{
}

/// What linking to `base_offset` does to a tree that is arranged: the entry that starts
/// there lists `child` as its newest, and nothing else changes.
#[verifier::rlimit(40)]
pub(crate) proof fn lemma_linked_tree<T>(
    tree: TreeView<T>,
    base_offset: u64,
    child: usize,
    parent: Option<Slot>,
)
    requires
        arranged(tree),
        match parent {
            Some(slot) => tree.holds(slot) && tree.item(slot).offset == base_offset,
            None => !tree.contains_offset(base_offset),
        },
    ensures
        parent is Some <==> tree.contains_offset(base_offset),
        linked(tree.roots, base_offset, child).len() == tree.roots.len(),
        linked(tree.children, base_offset, child).len() == tree.children.len(),
        forall|i: int|
            0 <= i < tree.roots.len() ==> #[trigger] linked(tree.roots, base_offset, child)[i] == if parent
                == Some(Slot::Root(i)) {
                tree.roots[i].with_child(child)
            } else {
                tree.roots[i]
            },
        forall|i: int|
            0 <= i < tree.children.len() ==> #[trigger] linked(tree.children, base_offset, child)[i]
                == if parent == Some(Slot::Child(i)) {
                tree.children[i].with_child(child)
            } else {
                tree.children[i]
            },
{
    match parent {
        Some(Slot::Root(at)) => {
            assert(tree.roots[at].offset == base_offset);
        },
        Some(Slot::Child(at)) => {
            assert(tree.children[at].offset == base_offset);
        },
        None => {},
    }
    assert forall|i: int| 0 <= i < tree.roots.len() implies #[trigger] linked(
        tree.roots,
        base_offset,
        child,
    )[i] == if parent == Some(Slot::Root(i)) {
        tree.roots[i].with_child(child)
    } else {
        tree.roots[i]
    } by {
        if tree.roots[i].offset == base_offset {
            assert(has_offset(tree.roots, base_offset));
            assert(tree.holds(Slot::Root(i)));
            lemma_one_per_offset(tree, Slot::Root(i), parent->0);
        }
    }
    assert forall|i: int| 0 <= i < tree.children.len() implies #[trigger] linked(
        tree.children,
        base_offset,
        child,
    )[i] == if parent == Some(Slot::Child(i)) {
        tree.children[i].with_child(child)
    } else {
        tree.children[i]
    } by {
        if tree.children[i].offset == base_offset {
            assert(has_offset(tree.children, base_offset));
            assert(tree.holds(Slot::Child(i)));
            lemma_one_per_offset(tree, Slot::Child(i), parent->0);
        }
    }
}

/// Adding a root that the tree does not refuse keeps it sound.
pub(crate) proof fn lemma_with_root_sound<T>(tree: TreeView<T>, links: Seq<Link>, offset: u64, data: T)
    requires
        sound(tree, links),
        tree.refusal(offset) is None,
    ensures
        sound(tree.with_root(offset, data), links),
{
    let after = tree.with_root(offset, data);
    let added = Slot::Root(tree.roots.len() as int);
    if tree.inserted.len() > 0 {
        assert(tree.holds(tree.inserted.last()));
    }
    assert(grown(tree, after, added, offset));
    lemma_grown_arranged(tree, after, added, offset);
    assert(lists_kept(tree, after, added, None));
    lemma_root_added_held(tree, after, links);
}

/// `tree` with one more child, which starts at `offset`: `parent` lists it where it is
/// given, and else the child waits for the entry at `base_offset`.
pub(crate) open spec fn added_below<T>(
    tree: TreeView<T>,
    base_offset: u64,
    offset: u64,
    data: T,
    parent: Option<Slot>,
) -> TreeView<T> {
    let child = tree.children.len() as usize;
    let fresh = ItemView::fresh(offset, data);
    let inserted = tree.inserted.push(Slot::Child(tree.children.len() as int));
    match parent {
        Some(Slot::Root(i)) => TreeView {
            roots: tree.roots.update(i, tree.roots[i].with_child(child)),
            children: tree.children.push(fresh),
            inserted,
            ..tree
        },
        Some(Slot::Child(i)) => TreeView {
            children: tree.children.update(i, tree.children[i].with_child(child)).push(fresh),
            inserted,
            ..tree
        },
        None => TreeView {
            children: tree.children.push(fresh),
            pending: tree.pending.push((base_offset, child)),
            inserted,
            ..tree
        },
    }
}

/// Adding a child that the tree does not refuse keeps it sound.
#[verifier::rlimit(40)]
pub(crate) proof fn lemma_with_child_sound<T>(
    tree: TreeView<T>,
    links: Seq<Link>,
    base_offset: u64,
    offset: u64,
    data: T,
    parent: Option<Slot>,
)
    requires
        sound(tree, links),
        tree.refusal(offset) is None,
        tree.children.len() < usize::MAX,
        match parent {
            Some(slot) => tree.holds(slot) && tree.item(slot).offset == base_offset,
            None => !tree.contains_offset(base_offset),
        },
    ensures
        sound(tree.with_child(base_offset, offset, data), links.push(link_of(tree, parent))),
        tree.with_child(base_offset, offset, data) == added_below(
            tree.stamped(offset),
            base_offset,
            offset,
            data,
            parent,
        ),
{
    lemma_stamped_sound(tree, links, offset);
    let stamped = tree.stamped(offset);
    let after = tree.with_child(base_offset, offset, data);
    let child = tree.children.len() as usize;
    let added = Slot::Child(tree.children.len() as int);
    if tree.inserted.len() > 0 {
        assert(tree.holds(tree.inserted.last()));
    }
    assert forall|slot: Slot| #[trigger] tree.holds(slot) implies stamped.holds(slot) && stamped.item(
        slot,
    ).offset == tree.item(slot).offset && stamped.item(slot).children == tree.item(slot).children
        && stamped.item(slot).next_offset == if slot == tree.inserted.last() {
        offset
    } else {
        tree.item(slot).next_offset
    } by {}
    assert(parent is Some ==> stamped.holds(parent->0) && stamped.item(parent->0).offset == base_offset);
    assert(tree.contains_offset(base_offset) == stamped.contains_offset(base_offset)) by {
        if has_offset(tree.roots, base_offset) {
            let i = choose|i: int|
                0 <= i < tree.roots.len() && #[trigger] tree.roots[i].offset == base_offset;
            assert(tree.holds(Slot::Root(i)));
            assert(stamped.roots[i].offset == base_offset);
        }
        if has_offset(tree.children, base_offset) {
            let i = choose|i: int|
                0 <= i < tree.children.len() && #[trigger] tree.children[i].offset == base_offset;
            assert(tree.holds(Slot::Child(i)));
            assert(stamped.children[i].offset == base_offset);
        }
        if has_offset(stamped.roots, base_offset) {
            let i = choose|i: int|
                0 <= i < stamped.roots.len() && #[trigger] stamped.roots[i].offset == base_offset;
            assert(tree.holds(Slot::Root(i)));
            assert(tree.roots[i].offset == base_offset);
        }
        if has_offset(stamped.children, base_offset) {
            let i = choose|i: int|
                0 <= i < stamped.children.len() && #[trigger] stamped.children[i].offset == base_offset;
            assert(tree.holds(Slot::Child(i)));
            assert(tree.children[i].offset == base_offset);
        }
    }
    lemma_linked_tree(stamped, base_offset, child, parent);
    assert forall|slot: Slot| #[trigger] tree.holds(slot) implies after.item(slot).offset == tree.item(
        slot,
    ).offset && after.item(slot).next_offset == stamped.item(slot).next_offset && after.item(
        slot,
    ).children == if parent == Some(slot) {
        tree.item(slot).children.push(child)
    } else {
        tree.item(slot).children
    } by {
        match slot {
            Slot::Root(i) => {
                assert(after.roots[i] == if parent == Some(slot) {
                    stamped.roots[i].with_child(child)
                } else {
                    stamped.roots[i]
                });
            },
            Slot::Child(i) => {
                assert(after.children[i] == if parent == Some(slot) {
                    stamped.children[i].with_child(child)
                } else {
                    stamped.children[i]
                });
            },
        }
    }
    assert(grown(tree, after, added, offset));
    lemma_grown_arranged(tree, after, added, offset);
    assert(lists_kept(tree, after, added, parent));
    lemma_child_added_held(tree, after, links, parent, base_offset);
    let below = added_below(stamped, base_offset, offset, data, parent);
    assert(after.roots =~= below.roots);
    assert(after.children =~= below.children);
    assert(after.pending =~= below.pending);
    assert(after.inserted =~= below.inserted);
}

/// A tree whose entries list other children than before is arranged as it was.
#[verifier::rlimit(40)]
pub(crate) proof fn lemma_relisted_arranged<T>(tree: TreeView<T>, after: TreeView<T>)
    requires
        arranged(tree),
        after.capacity == tree.capacity,
        after.inserted == tree.inserted,
        after.roots.len() == tree.roots.len(),
        after.children.len() == tree.children.len(),
        forall|slot: Slot| #[trigger]
            tree.holds(slot) ==> after.item(slot).offset == tree.item(slot).offset && after.item(
                slot,
            ).next_offset == tree.item(slot).next_offset,
    ensures
        arranged(after),
{
    assert forall|slot: Slot| #[trigger] after.holds(slot) implies tree.holds(slot) by {}
    assert forall|k: int| 0 <= k < after.inserted.len() implies after.holds(
        #[trigger] after.inserted[k],
    ) by {
        assert(tree.holds(tree.inserted[k]));
    }
    assert forall|j: int, k: int| 0 <= j < k < after.inserted.len() implies after.item(
        #[trigger] after.inserted[j],
    ).offset < after.item(#[trigger] after.inserted[k]).offset by {
        assert(tree.holds(tree.inserted[j]));
        assert(tree.holds(tree.inserted[k]));
    }
    assert forall|k: int| 0 <= k < after.inserted.len() - 1 implies after.item(
        #[trigger] after.inserted[k],
    ).next_offset == after.item(after.inserted[k + 1]).offset by {
        assert(tree.holds(tree.inserted[k]));
        assert(tree.holds(tree.inserted[k + 1]));
    }
    assert forall|slot: Slot| #[trigger] after.holds(slot) implies after.inserted.contains(slot) by {
        assert(tree.holds(slot));
    }
    assert(after.ordered());
    assert forall|i: int, j: int| 0 <= i < j < after.roots.len() implies (
    #[trigger] after.roots[i]).offset < (#[trigger] after.roots[j]).offset by {
        assert(tree.holds(Slot::Root(i)) && tree.holds(Slot::Root(j)));
    }
    assert forall|i: int, j: int| 0 <= i < j < after.children.len() implies (
    #[trigger] after.children[i]).offset < (#[trigger] after.children[j]).offset by {
        assert(tree.holds(Slot::Child(i)) && tree.holds(Slot::Child(j)));
    }
    assert forall|i: int, j: int| 0 <= i < after.roots.len() && 0 <= j < after.children.len() implies (
    #[trigger] after.roots[i]).offset != (#[trigger] after.children[j]).offset by {
        assert(tree.holds(Slot::Root(i)) && tree.holds(Slot::Child(j)));
    }
    assert forall|slot: Slot| #[trigger] after.holds(slot) implies after.item(slot).offset <= after.item(
        after.inserted.last(),
    ).offset by {
        assert(tree.holds(slot));
        assert(tree.holds(tree.inserted.last()));
    }
}

/// Listing the child of the pending reference number `k` with its base lets it be held
/// by that list, and leaves the other children where they are held.
#[verifier::rlimit(40)]
pub(crate) proof fn lemma_resolve_held<T>(
    tree: TreeView<T>,
    after: TreeView<T>,
    links: Seq<Link>,
    k: int,
    parent: Slot,
)
    requires
        held_from(tree, links, k),
        0 <= k < tree.pending.len(),
        tree.holds(parent),
        after.pending == tree.pending,
        after.roots.len() == tree.roots.len(),
        after.children.len() == tree.children.len(),
        forall|slot: Slot| #[trigger]
            tree.holds(slot) ==> after.item(slot).children == if slot == parent {
                tree.item(slot).children.push(tree.pending[k].1)
            } else {
                tree.item(slot).children
            },
    ensures
        held_from(
            after,
            links.update(
                tree.pending[k].1 as int,
                Link::Listed { parent, at: tree.item(parent).children.len() as int },
            ),
            k + 1,
        ),
{
    let child = tree.pending[k].1;
    let after_links = links.update(
        child as int,
        Link::Listed { parent, at: tree.item(parent).children.len() as int },
    );
    assert(links[child as int] == Link::Pending { at: k });
    assert forall|c: int| 0 <= c < after_links.len() implies match #[trigger] after_links[c] {
        Link::Listed { parent, at } => {
            &&& after.holds(parent)
            &&& 0 <= at < after.item(parent).children.len()
            &&& after.item(parent).children[at] == c
        },
        Link::Pending { at } => k + 1 <= at < after.pending.len() && after.pending[at].1 == c,
    } by {
        if c != child {
            match links[c] {
                Link::Listed { parent, at } => {
                    assert(tree.holds(parent));
                },
                Link::Pending { at } => {
                    assert(tree.pending[at].1 == c);
                },
            }
        }
    }
    assert forall|i: int, at: int|
        0 <= i < after.roots.len() && 0 <= at < after.roots[i].children.len() implies {
        &&& (#[trigger] after.roots[i].children[at]) < after_links.len()
        &&& after_links[after.roots[i].children[at] as int] == Link::Listed { parent: Slot::Root(i), at }
    } by {
        assert(tree.holds(Slot::Root(i)));
        if at < tree.roots[i].children.len() {
            assert(tree.roots[i].children[at] < links.len());
            assert(links[tree.roots[i].children[at] as int] == Link::Listed {
                parent: Slot::Root(i),
                at,
            });
        }
    }
    assert forall|i: int, at: int|
        0 <= i < after.children.len() && 0 <= at < after.children[i].children.len() implies {
        &&& (#[trigger] after.children[i].children[at]) < after_links.len()
        &&& after_links[after.children[i].children[at] as int] == Link::Listed {
            parent: Slot::Child(i),
            at,
        }
    } by {
        assert(tree.holds(Slot::Child(i)));
        if at < tree.children[i].children.len() {
            assert(tree.children[i].children[at] < links.len());
            assert(links[tree.children[i].children[at] as int] == Link::Listed {
                parent: Slot::Child(i),
                at,
            });
        }
    }
    assert forall|at: int| k + 1 <= at < after.pending.len() implies {
        &&& (#[trigger] after.pending[at]).1 < after_links.len()
        &&& after_links[after.pending[at].1 as int] == Link::Pending { at }
    } by {
        assert(tree.pending[at].1 < links.len());
        assert(links[tree.pending[at].1 as int] == Link::Pending { at });
    }
}

/// What sealing gives: the newest entry ends where the entries end, each other entry ends
/// where the next one starts, and each child that waited is listed by its base.
#[verifier::rlimit(40)]
pub(crate) proof fn lemma_sealed<T>(
    tree: TreeView<T>,
    held: Seq<Link>,
    links: Seq<Link>,
    pack_entries_end: u64,
)
    requires
        sound(tree, held),
        sound(tree.sealed(pack_entries_end), links),
        forall|k: int| 0 <= k < tree.pending.len() ==> !tree.dangling(k),
    ensures
        ({
            let sealed = tree.sealed(pack_entries_end);
            &&& sealed.len() > 0 ==> sealed.item(sealed.inserted.last()).next_offset == pack_entries_end
            &&& forall|k: int|
                0 <= k < sealed.inserted.len() - 1 ==> sealed.item(
                    #[trigger] sealed.inserted[k],
                ).next_offset > sealed.item(sealed.inserted[k]).offset
            &&& (sealed.len() > 0 ==> pack_entries_end > sealed.item(sealed.inserted.last()).offset)
                ==> sealed.ends_behind_starts()
            &&& forall|k: int|
                0 <= k < tree.pending.len() ==> sealed.lists(
                    (#[trigger] tree.pending[k]).0,
                    tree.pending[k].1,
                )
        }),
{
    let sealed = tree.sealed(pack_entries_end);
    let listed = TreeView {
        roots: resolved(tree.roots, tree.pending),
        children: resolved(tree.children, tree.pending),
        pending: Seq::empty(),
        ..tree
    };
    assert(sealed == listed.stamped(pack_entries_end));
    if tree.len() > 0 {
        assert(tree.holds(tree.inserted[tree.inserted.len() - 1]));
        assert(sealed.inserted == listed.inserted);
        assert(sealed.inserted.len() == sealed.len());
        assert(sealed.roots.len() == listed.roots.len());
        assert(sealed.children.len() == listed.children.len());
        assert(sealed.holds(sealed.inserted[sealed.inserted.len() - 1]));
        assert(listed.holds(listed.inserted.last()));
        assert(sealed.item(sealed.inserted.last()).next_offset == pack_entries_end);
    }
    assert forall|slot: Slot| #[trigger] sealed.holds(slot) implies listed.holds(slot) && sealed.item(
        slot,
    ).children == listed.item(slot).children && sealed.item(slot).offset == listed.item(slot).offset by {}
    assert forall|k: int| 0 <= k < sealed.inserted.len() - 1 implies sealed.item(
        #[trigger] sealed.inserted[k],
    ).next_offset > sealed.item(sealed.inserted[k]).offset by {
        assert(sealed.holds(sealed.inserted[k + 1]));
    }
    if sealed.len() > 0 ==> pack_entries_end > sealed.item(sealed.inserted.last()).offset {
        assert forall|slot: Slot| #[trigger] sealed.holds(slot) implies sealed.item(slot).next_offset
            > sealed.item(slot).offset by {
            assert(sealed.inserted.contains(slot));
            let k = choose|k: int| 0 <= k < sealed.inserted.len() && sealed.inserted[k] == slot;
            if k == sealed.inserted.len() - 1 {
                assert(slot == sealed.inserted.last());
            } else {
                assert(sealed.item(sealed.inserted[k]).next_offset > sealed.item(
                    sealed.inserted[k],
                ).offset);
            }
        }
    }
    assert forall|k: int| 0 <= k < tree.pending.len() implies sealed.lists(
        (#[trigger] tree.pending[k]).0,
        tree.pending[k].1,
    ) by {
        let base = tree.pending[k].0;
        assert(!tree.dangling(k));
        crate::item::lemma_waiting_child(tree.pending, k);
        let waiting = crate::item::waiting_for(tree.pending, base);
        let at = choose|at: int| 0 <= at < waiting.len() && waiting[at] == tree.pending[k].1;
        if has_offset(tree.roots, base) {
            let i = choose|i: int| 0 <= i < tree.roots.len() && #[trigger] tree.roots[i].offset == base;
            let slot = Slot::Root(i);
            assert(sealed.holds(slot));
            assert(listed.roots[i].children == tree.roots[i].children + waiting);
            assert(sealed.item(slot).children == tree.roots[i].children + waiting);
            assert(sealed.item(slot).children[tree.roots[i].children.len() + at] == tree.pending[k].1);
        } else {
            let i = choose|i: int|
                0 <= i < tree.children.len() && #[trigger] tree.children[i].offset == base;
            let slot = Slot::Child(i);
            assert(sealed.holds(slot));
            assert(listed.children[i].children == tree.children[i].children + waiting);
            assert(sealed.item(slot).children == tree.children[i].children + waiting);
            assert(sealed.item(slot).children[tree.children[i].children.len() + at]
                == tree.pending[k].1);
        }
    }
}

/// In a sound tree in which no child waits for its base, each child is listed once.
pub(crate) proof fn lemma_forest<T>(tree: TreeView<T>, links: Seq<Link>)
    requires
        sound(tree, links),
        tree.pending.len() == 0,
    ensures
        tree.is_forest(),
{
    assert forall|slot: Slot, at: int| #[trigger] tree.lists_at(slot, at) implies tree.item(
        slot,
    ).children[at] < links.len() && links[tree.item(slot).children[at] as int] == (Link::Listed {
        parent: slot,
        at,
    }) by {
        match slot {
            Slot::Root(i) => {
                assert(tree.roots[i].children[at] < links.len());
            },
            Slot::Child(i) => {
                assert(tree.children[i].children[at] < links.len());
            },
        }
    }
    assert forall|child: int| 0 <= child < tree.children.len() implies #[trigger] tree.is_listed(
        child,
    ) by {
        match links[child] {
            Link::Listed { parent, at } => {
                assert(tree.lists_at(parent, at) && tree.item(parent).children[at] == child);
            },
            Link::Pending { at } => {},
        }
    }
}

/// The entries of a sound tree tell how each child is held: there is one way only.
pub(crate) proof fn lemma_held_one_way<T>(tree: TreeView<T>, links: Seq<Link>, others: Seq<Link>)
    requires
        sound(tree, links),
        sound(tree, others),
    ensures
        links == others,
{
    assert forall|c: int| 0 <= c < links.len() implies links[c] == others[c] by {
        match links[c] {
            Link::Listed { parent, at } => {
                match parent {
                    Slot::Root(i) => {
                        assert(tree.roots[i].children[at] == c);
                    },
                    Slot::Child(i) => {
                        assert(tree.children[i].children[at] == c);
                    },
                }
            },
            Link::Pending { at } => {
                assert(tree.pending[at].1 == c);
            },
        }
    }
    assert(links =~= others);
}

} // verus!
