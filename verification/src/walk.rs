//! The order in which the entries of a sealed tree are handed out.
//!
//! Each root is followed by the entries that depend on it: its first child, what depends
//! on that child, its second child, and so on. An entry is handed out by moving it out of
//! the tree, so none is handed out twice.
use vstd::prelude::*;
use crate::item::ItemView;
use crate::model::TreeView;

verus! {

/// An entry as it is handed out, as a mathematical value.
#[verifier::ext_equal]
pub struct NodeView<T> {
    /// The index of the entry among the stored items: the roots come first, from the
    /// newest to the oldest, then the children from the oldest to the newest.
    pub index: int,
    /// The number of bases between the entry and its root.
    pub level: nat,
    /// The place of the base of the entry among the nodes of its chunk, unless the entry
    /// is a root.
    pub base: Option<int>,
    /// The entry.
    pub item: ItemView<T>,
}

/// The entries that a walk has handed out, and the children it has left in the tree.
#[verifier::ext_equal]
pub struct Walk<T> {
    /// The entries in the order in which they were handed out.
    pub nodes: Seq<NodeView<T>>,
    /// For each child, the child if it is still in the tree.
    pub left: Seq<Option<ItemView<T>>>,
}

/// The children of a tree before any was handed out.
pub open spec fn all_left<T>(children: Seq<ItemView<T>>) -> Seq<Option<ItemView<T>>> {
    Seq::new(children.len(), |i: int| Some(children[i]))
}

/// Hands out the child number `child`, if it is still there, and then what depends on it,
/// down to `fuel` levels. The child comes to stand at place `at` of its chunk, and its base
/// stands at place `base`. The children are stored behind `roots_len` roots.
pub open spec fn walk_child<T>(
    left: Seq<Option<ItemView<T>>>,
    roots_len: nat,
    child: int,
    level: nat,
    fuel: nat,
    base: int,
    at: int,
) -> Walk<T>
    decreases fuel, 0nat,
{
    if fuel == 0 || child < 0 || child >= left.len() || left[child] is None {
        Walk { nodes: Seq::empty(), left }
    } else {
        let item = left[child]->0;
        let below = walk_children(
            left.update(child, None),
            roots_len,
            item.children,
            0,
            level + 1,
            (fuel - 1) as nat,
            at,
            at + 1,
        );
        Walk {
            nodes: seq![NodeView { index: roots_len + child, level, base: Some(base), item }]
                + below.nodes,
            left: below.left,
        }
    }
}

/// Hands out, one after the other, the children that `kids` lists from position `from` on,
/// each followed by what depends on it. The first comes to stand at place `at` of its chunk,
/// and the base of these children stands at place `base`.
pub open spec fn walk_children<T>(
    left: Seq<Option<ItemView<T>>>,
    roots_len: nat,
    kids: Seq<usize>,
    from: int,
    level: nat,
    fuel: nat,
    base: int,
    at: int,
) -> Walk<T>
    decreases fuel, kids.len() - from + 1,
{
    if from < 0 || from >= kids.len() {
        Walk { nodes: Seq::empty(), left }
    } else {
        let first = walk_child(left, roots_len, kids[from] as int, level, fuel, base, at);
        let rest = walk_children(
            first.left,
            roots_len,
            kids,
            from + 1,
            level,
            fuel,
            base,
            at + first.nodes.len(),
        );
        Walk { nodes: first.nodes + rest.nodes, left: rest.left }
    }
}

/// Hands out the roots that are stored from index `from` up to index `to`, each followed
/// by what depends on it. The first root comes to stand at place `at` of its chunk.
pub open spec fn walk_roots<T>(
    stored_roots: Seq<ItemView<T>>,
    left: Seq<Option<ItemView<T>>>,
    from: int,
    to: int,
    at: int,
) -> Walk<T>
    decreases to - from,
{
    if from < 0 || from >= to {
        Walk { nodes: Seq::empty(), left }
    } else {
        let root = stored_roots[from];
        let below = walk_children(
            left,
            stored_roots.len(),
            root.children,
            0,
            1,
            left.len(),
            at,
            at + 1,
        );
        let rest = walk_roots(stored_roots, below.left, from + 1, to, at + 1 + below.nodes.len());
        Walk {
            nodes: seq![NodeView { index: from, level: 0, base: None, item: root }] + below.nodes
                + rest.nodes,
            left: rest.left,
        }
    }
}

/// The index behind the last root of the chunk that starts with the root at index `from`.
pub open spec fn chunk_end(roots_len: nat, from: int, size: nat) -> int {
    if from + size < roots_len {
        from + size
    } else {
        roots_len as int
    }
}

/// The chunks of `size` roots each, from the root that is stored at index `from` on.
/// The last chunk has the roots that remain.
pub open spec fn chunks_from<T>(
    stored_roots: Seq<ItemView<T>>,
    left: Seq<Option<ItemView<T>>>,
    from: int,
    size: nat,
) -> Seq<Seq<NodeView<T>>>
    decreases stored_roots.len() - from,
{
    if from < 0 || from >= stored_roots.len() || size == 0 {
        Seq::empty()
    } else {
        let to = chunk_end(stored_roots.len(), from, size);
        let chunk = walk_roots(stored_roots, left, from, to, 0);
        seq![chunk.nodes] + chunks_from(stored_roots, chunk.left, to, size)
    }
}

/// The chunks in which the entries of `tree` are handed out, of `size` roots each: the
/// roots in the order in which they are stored, each followed by what depends on it.
pub open spec fn chunks_of<T>(tree: TreeView<T>, size: nat) -> Seq<Seq<NodeView<T>>> {
    chunks_from(tree.roots.reverse(), all_left(tree.children), 0, size)
}

} // verus!
