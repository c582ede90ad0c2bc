//! Handing out the entries of a sealed tree in chunks.
use vstd::prelude::*;
use crate::frames::{
    advanced, frames_to_do, left_to_do, lemma_frame_done, lemma_frame_hands_out, lemma_frame_passes,
    lemma_frames_to_do, lemma_less_to_do, walk_frames, within, Frame,
};
use crate::item::{item_views, Item};
use crate::partition::{
    bases_first, distinct, handed, joined, lemma_bases_come_first, lemma_chunks_part_the_entries,
    rooted,
};
use crate::tree::SealedTree;
use crate::walk::{
    all_left, chunk_end, chunks_from, chunks_of, walk_child, walk_children, walk_roots, NodeView,
};

verus! {

/// An entry of the pack as it is handed out of a sealed tree.
#[derive(Debug, Clone, PartialEq, Eq)]
pub struct Node<T> {
    /// The index of the entry among the items as the tree stored them.
    pub index: usize,
    /// The number of bases between the entry and its root: 0 for a root.
    pub level: usize,
    /// The place of the base of the entry among the nodes of its chunk, unless the entry
    /// is a root.
    pub base: Option<usize>,
    /// The entry.
    pub item: Item<T>,
}

impl<T> View for Node<T> {
    type V = NodeView<T>;

    open spec fn view(&self) -> NodeView<T> {
        NodeView {
            index: self.index as int,
            level: self.level as nat,
            base: match self.base {
                Some(base) => Some(base as int),
                None => None,
            },
            item: self.item@,
        }
    }
}

impl<T> Node<T> {
    /// Where the entry starts in the pack.
    pub fn offset(&self) -> (offset: u64)
        ensures
            offset == self@.item.offset,
    {
        self.item.offset
    }

    /// The bytes of the pack that hold the entry: from where it starts up to where the
    /// next entry starts.
    pub fn entry_slice(&self) -> (slice: core::ops::Range<u64>)
        ensures
            slice.start == self@.item.offset,
            slice.end == self@.item.next_offset,
    {
        self.item.offset..self.item.next_offset
    }

    /// What the user keeps with the entry, to be changed in place.
    pub fn data(&mut self) -> (data: &mut T)
        ensures
            *data == old(self).item.data,
            *final(self) == (Node { item: Item { data: *final(data), ..old(self).item }, ..*old(self) }),
    {
        &mut self.item.data
    }
}

/// Some roots that were stored one after the other, with all that depends on them. Each
/// entry comes after its base.
#[derive(Debug, Clone, PartialEq, Eq)]
pub struct Chunk<T> {
    /// The entries: each root is followed by what depends on it.
    pub nodes: Vec<Node<T>>,
}

/// The views of nodes.
pub open spec fn node_views<T>(nodes: Seq<Node<T>>) -> Seq<NodeView<T>> {
    Seq::new(nodes.len(), |i: int| nodes[i]@)
}

/// The views of the nodes of chunks.
pub open spec fn chunk_views<T>(chunks: Seq<Chunk<T>>) -> Seq<Seq<NodeView<T>>> {
    Seq::new(chunks.len(), |i: int| node_views(chunks[i].nodes@))
}

/// The views of the children that are left.
pub open spec fn left_views<T>(left: Seq<Option<Item<T>>>) -> Seq<Option<crate::item::ItemView<T>>> {
    Seq::new(
        left.len(),
        |i: int|
            match left[i] {
                Some(item) => Some(item@),
                None => None,
            },
    )
}

/// A base whose children are being handed out.
struct Open {
    /// The place of the base among the nodes of its chunk.
    node: usize,
    /// The position in the children of the base of the child that is handed out next.
    next: usize,
}

/// Whether `frames` are the bases in `open`: each is one of `nodes` with the children that
/// it lists, of which the next is within or just behind them.
spec fn open_frames<T>(open: Seq<Open>, frames: Seq<Frame>, nodes: Seq<Node<T>>) -> bool {
    &&& frames.len() == open.len()
    &&& forall|i: int|
        0 <= i < open.len() ==> {
            &&& (#[trigger] open[i]).node < nodes.len()
            &&& frames[i].kids == nodes[open[i].node as int].item.children@
            &&& frames[i].next == open[i].next
            &&& frames[i].base == open[i].node
            &&& open[i].next <= frames[i].kids.len()
        }
}

/// Hands out what depends on the root at `parent` of `nodes`: each child that it lists
/// and that is still in `left`, followed by what depends on that child. The bases whose
/// children are being handed out are kept in a stack, the deepest last.
#[verifier::rlimit(40)]
fn walk_below<T>(
    left: &mut Vec<Option<Item<T>>>,
    roots_len: usize,
    nodes: &mut Vec<Node<T>>,
    parent: usize,
    fuel: usize,
)
    requires
        parent < old(nodes)@.len(),
        roots_len + old(left)@.len() <= usize::MAX,
        fuel < usize::MAX,
    ensures
        ({
            let walk = walk_children(
                left_views(old(left)@),
                roots_len as nat,
                old(nodes)@[parent as int].item.children@,
                0,
                1,
                fuel as nat,
                parent as int,
                old(nodes)@.len() as int,
            );
            &&& node_views(final(nodes)@) == node_views(old(nodes)@) + walk.nodes
            &&& left_views(final(left)@) == walk.left
            &&& final(left)@.len() == old(left)@.len()
        }),
{
    let ghost goal = walk_children(
        left_views(left@),
        roots_len as nat,
        nodes@[parent as int].item.children@,
        0,
        1,
        fuel as nat,
        parent as int,
        nodes@.len() as int,
    );
    let mut open: Vec<Open> = Vec::new();
    open.push(Open { node: parent, next: 0 });
    let ghost mut frames: Seq<Frame> = seq![
        Frame { kids: nodes@[parent as int].item.children@, next: 0, base: parent as int },
    ];
    proof {
        assert(frames.drop_last() =~= Seq::<Frame>::empty());
        assert(frames.last() == frames[0]);
        assert(goal.nodes + Seq::<NodeView<T>>::empty() =~= goal.nodes);
        let start = walk_frames(
            left_views(left@),
            roots_len as nat,
            frames,
            fuel as nat,
            nodes@.len() as int,
        );
        assert((fuel + 1 - frames.len()) as nat == fuel);
        let rest = walk_frames(
            goal.left,
            roots_len as nat,
            frames.drop_last(),
            fuel as nat,
            (nodes@.len() + goal.nodes.len()) as int,
        );
        assert(rest.nodes =~= Seq::<NodeView<T>>::empty() && rest.left == goal.left);
        assert(frames.last().kids == nodes@[parent as int].item.children@);
        assert(start.nodes == goal.nodes + rest.nodes);
        assert(start.nodes =~= goal.nodes);
        assert(start.left == goal.left);
        assert(frames_to_do(frames.drop_last()) == 0);
    }
    while open.len() > 0
        invariant
            open_frames(open@, frames, nodes@),
            open@.len() <= fuel + 1,
            fuel < usize::MAX,
            left@.len() == old(left)@.len(),
            roots_len + left@.len() <= usize::MAX,
            node_views(old(nodes)@) + goal.nodes == node_views(nodes@) + walk_frames(
                left_views(left@),
                roots_len as nat,
                frames,
                fuel as nat,
                nodes@.len() as int,
            ).nodes,
            goal.left == walk_frames(
                left_views(left@),
                roots_len as nat,
                frames,
                fuel as nat,
                nodes@.len() as int,
            ).left,
            frames_to_do(frames) >= 0,
        decreases left_to_do(left_views(left@)) + frames_to_do(frames),
    {
        let depth = open.len() - 1;
        let node = open[depth].node;
        let next = open[depth].next;
        let ghost before = left_views(left@);
        let ghost had = node_views(nodes@);
        let ghost top = frames.last();
        let ghost above = frames.drop_last();
        proof {
            assert(frames.last() == frames[depth as int]);
            assert(frames_to_do(frames) == frames_to_do(above) + 1 + top.kids.len() - top.next);
            assert(within(above)) by {
                assert forall|i: int| 0 <= i < above.len() implies 0 <= (#[trigger] above[i]).next
                    <= above[i].kids.len() by {
                    assert(above[i] == frames[i]);
                    assert(open@[i].next <= frames[i].kids.len());
                }
            }
            lemma_frames_to_do(above);
        }
        if next >= nodes[node].item.children.len() {
            open.pop();
            proof {
                lemma_frame_done(before, roots_len as nat, frames, fuel as nat, nodes@.len() as int);
                frames = frames.drop_last();
            }
            continue ;
        }
        let child = nodes[node].item.children[next];
        open[depth].next = next + 1;
        if depth < fuel && child < left.len() {
            match left[child].take() {
                Some(item) => {
                    let at_node = nodes.len();
                    proof {
                        assert(left_views(left@) =~= before.update(child as int, None));
                        assert(before[child as int] == Some(item@));
                        lemma_frame_hands_out(
                            before,
                            roots_len as nat,
                            frames,
                            fuel as nat,
                            nodes@.len() as int,
                        );
                        lemma_less_to_do(before, child as int);
                    }
                    nodes.push(
                        Node { index: roots_len + child, level: depth + 1, base: Some(node), item },
                    );
                    open.push(Open { node: at_node, next: 0 });
                    proof {
                        let handed = NodeView {
                            index: roots_len + child,
                            level: (depth + 1) as nat,
                            base: Some(node as int),
                            item: item@,
                        };
                        assert(node_views(nodes@) =~= had + seq![handed]);
                        frames = frames.drop_last().push(advanced(top)).push(
                            Frame { kids: item@.children, next: 0, base: at_node as int },
                        );
                        let below = walk_frames(
                            left_views(left@),
                            roots_len as nat,
                            frames,
                            fuel as nat,
                            nodes@.len() as int,
                        );
                        assert(had + (seq![handed] + below.nodes) =~= (had + seq![handed])
                            + below.nodes);
                        let waiting = above.push(advanced(top));
                        assert(frames.drop_last() =~= waiting);
                        assert(waiting.drop_last() =~= above);
                        assert(waiting.last() == advanced(top));
                        assert(frames_to_do(waiting) == frames_to_do(above) + 1 + top.kids.len() - (
                        top.next + 1));
                        assert(frames_to_do(frames) == frames_to_do(waiting) + 1 + item@.children.len());
                    }
                    continue ;
                },
                None => {
                    proof {
                        assert(left_views(left@) =~= before);
                    }
                },
            }
        }
        proof {
            lemma_frame_passes(before, roots_len as nat, frames, fuel as nat, nodes@.len() as int);
            frames = above.push(advanced(top));
            assert(frames.drop_last() =~= above);
            assert(frames.last() == advanced(top));
            assert(frames_to_do(frames) == frames_to_do(above) + 1 + top.kids.len() - (top.next + 1));
        }
    }
    proof {
        assert(frames =~= Seq::<Frame>::empty());
        assert(node_views(nodes@) + Seq::<NodeView<T>>::empty() =~= node_views(nodes@));
    }
}

/// Wraps each child, so that it can be moved out of the tree.
fn all_there<T>(children: Vec<Item<T>>) -> (left: Vec<Option<Item<T>>>)
    ensures
        left_views(left@) == all_left(item_views(children@)),
        left@.len() == children@.len(),
{
    let mut left: Vec<Option<Item<T>>> = Vec::new();
    for child in it: children
        invariant
            it.seq() == children@,
            left@.len() == it.index(),
            forall|k: int| 0 <= k < it.index() ==> left@[k] == Some(children@[k]),
    {
        left.push(Some(child));
    }
    proof {
        assert(left_views(left@) =~= all_left(item_views(children@)));
    }
    left
}

impl<T> SealedTree<T> {
    /// Hands out the entries of the tree in chunks of `desired_size` roots each; the last
    /// chunk has the roots that remain. A chunk holds its roots in the order in which they
    /// are stored, each followed by all that depends on it, so that each entry comes after
    /// its base. No entry is in two chunks: the chunks can be worked on independently.
    #[verifier::rlimit(40)]
    pub fn into_chunks(self, desired_size: usize) -> (chunks: Vec<Chunk<T>>)
        requires
            self.wf(),
            desired_size > 0,
        ensures
            chunk_views(chunks@) == chunks_of(self@, desired_size as nat),
            distinct(joined(chunk_views(chunks@))),
            rooted(self@) ==> forall|index: int|
                0 <= index < self@.len() ==> #[trigger] handed(joined(chunk_views(chunks@)), index),
            forall|c: int|
                0 <= c < chunks@.len() ==> bases_first(
                    #[trigger] chunk_views(chunks@)[c],
                    self@.roots.len(),
                ),
    {
        proof {
            lemma_chunks_part_the_entries(self@, desired_size as nat);
            lemma_bases_come_first(self@, desired_size as nat);
        }
        let (mut roots, children) = self.into_parts();
        let ghost added = roots@;
        let ghost stored = item_views(roots@).reverse();
        let ghost goal = chunks_of(self@, desired_size as nat);
        let roots_len = roots.len();
        let mut left = all_there(children);
        let mut chunks: Vec<Chunk<T>> = Vec::new();
        let mut from: usize = 0;
        proof {
            assert(chunk_views(chunks@) =~= Seq::<Seq<NodeView<T>>>::empty());
            assert(Seq::<Seq<NodeView<T>>>::empty() + goal =~= goal);
        }
        while from < roots_len
            invariant
                from <= roots_len,
                desired_size > 0,
                roots_len == added.len(),
                stored == item_views(added).reverse(),
                roots@ == added.take(roots_len - from),
                roots_len + left@.len() <= usize::MAX,
                goal == chunk_views(chunks@) + chunks_from(
                    stored,
                    left_views(left@),
                    from as int,
                    desired_size as nat,
                ),
            decreases roots_len - from,
        {
            let to = if roots_len - from > desired_size {
                from + desired_size
            } else {
                roots_len
            };
            let ghost start = left_views(left@);
            let ghost chunk = walk_roots(stored, start, from as int, to as int, 0);
            let mut nodes: Vec<Node<T>> = Vec::new();
            let mut at = from;
            proof {
                assert(to == chunk_end(stored.len(), from as int, desired_size as nat));
                assert(node_views(nodes@) =~= Seq::<NodeView<T>>::empty());
                assert(Seq::<NodeView<T>>::empty() + chunk.nodes =~= chunk.nodes);
            }
            while at < to
                invariant
                    from <= at <= to <= roots_len,
                    roots_len == added.len(),
                    stored == item_views(added).reverse(),
                    roots@ == added.take(roots_len - at),
                    roots_len + left@.len() <= usize::MAX,
                    left@.len() == start.len(),
                    chunk.nodes == node_views(nodes@) + walk_roots(
                        stored,
                        left_views(left@),
                        at as int,
                        to as int,
                        nodes@.len() as int,
                    ).nodes,
                    chunk.left == walk_roots(
                        stored,
                        left_views(left@),
                        at as int,
                        to as int,
                        nodes@.len() as int,
                    ).left,
                decreases to - at,
            {
                let ghost had = node_views(nodes@);
                let ghost before = left_views(left@);
                match roots.pop() {
                    Some(root) => {
                        let at_node = nodes.len();
                        let fuel = left.len();
                        proof {
                            assert(root == added[roots_len - at - 1]);
                            assert(stored[at as int] == root@);
                            assert(roots@ =~= added.take(roots_len - (at + 1)));
                        }
                        nodes.push(Node { index: at, level: 0, base: None, item: root });
                        walk_below(&mut left, roots_len, &mut nodes, at_node, fuel);
                        proof {
                            let below = walk_children(
                                before,
                                stored.len(),
                                root@.children,
                                0,
                                1,
                                before.len(),
                                had.len() as int,
                                (had.len() + 1) as int,
                            );
                            let first = seq![
                                NodeView { index: at as int, level: 0, base: None, item: root@ },
                            ];
                            let rest = walk_roots(
                                stored,
                                below.left,
                                at + 1,
                                to as int,
                                (had.len() + 1 + below.nodes.len()) as int,
                            );
                            assert(node_views(nodes@) =~= had + first + below.nodes);
                            assert(had + (first + below.nodes + rest.nodes) =~= (had + first
                                + below.nodes) + rest.nodes);
                        }
                    },
                    None => {},
                }
                at += 1;
            }
            proof {
                assert(node_views(nodes@) + Seq::<NodeView<T>>::empty() =~= node_views(nodes@));
                let done = chunk_views(chunks@);
                let rest = chunks_from(stored, chunk.left, to as int, desired_size as nat);
                assert(done + (seq![chunk.nodes] + rest) =~= done.push(chunk.nodes) + rest);
            }
            let ghost done = chunk_views(chunks@);
            chunks.push(Chunk { nodes });
            proof {
                assert(chunk_views(chunks@) =~= done.push(chunk.nodes));
            }
            from = to;
        }
        proof {
            assert(chunk_views(chunks@) + Seq::<Seq<NodeView<T>>>::empty() =~= chunk_views(chunks@));
        }
        chunks
    }
}

} // verus!
