//! Why the chunks part the entries of a tree: no entry is handed out twice, and where each
//! child depends on a root, each entry is handed out.
use vstd::prelude::*;
use crate::item::{ascending, ItemView};
use crate::model::{Slot, TreeView};
use crate::walk::{
    all_left, chunk_end, chunks_from, chunks_of, walk_child, walk_children, walk_roots, NodeView, Walk,
};

verus! {

/// Of the children that were in the tree `before`, each is as it was or is gone `after`.
pub open spec fn kept_or_taken<T>(
    before: Seq<Option<ItemView<T>>>,
    after: Seq<Option<ItemView<T>>>,
) -> bool {
    &&& after.len() == before.len()
    &&& forall|c: int| 0 <= c < before.len() ==> (#[trigger] after[c]) == before[c] || after[c] is None
}

/// Whether the child number `c` was in the tree `before` and is gone `after`.
pub open spec fn taken<T>(
    before: Seq<Option<ItemView<T>>>,
    after: Seq<Option<ItemView<T>>>,
    c: int,
) -> bool {
    0 <= c < before.len() && before[c] is Some && after[c] is None
}

/// Whether the entry that is stored at `index` is among `nodes`.
pub open spec fn handed<T>(nodes: Seq<NodeView<T>>, index: int) -> bool {
    exists|p: int| 0 <= p < nodes.len() && (#[trigger] nodes[p]).index == index
}

/// Whether no two of `nodes` are stored at the same index.
pub open spec fn distinct<T>(nodes: Seq<NodeView<T>>) -> bool {
    forall|p: int, q: int|
        0 <= p < q < nodes.len() ==> (#[trigger] nodes[p]).index != (#[trigger] nodes[q]).index
}

/// The walk has handed out the children that it has taken from the tree, each once.
pub open spec fn hands_out_taken<T>(
    before: Seq<Option<ItemView<T>>>,
    walk: Walk<T>,
    roots_len: nat,
) -> bool {
    &&& kept_or_taken(before, walk.left)
    &&& forall|p: int|
        0 <= p < walk.nodes.len() ==> taken(
            before,
            walk.left,
            (#[trigger] walk.nodes[p]).index - roots_len,
        ) && before[walk.nodes[p].index - roots_len] == Some(walk.nodes[p].item)
    &&& forall|c: int| #[trigger] taken(before, walk.left, c) ==> handed(walk.nodes, roots_len + c)
    &&& distinct(walk.nodes)
}

/// A walk that hands out nothing has handed out what it has taken.
pub(crate) proof fn lemma_nothing_taken<T>(left: Seq<Option<ItemView<T>>>, roots_len: nat)
    ensures
        hands_out_taken(left, Walk { nodes: Seq::<NodeView<T>>::empty(), left }, roots_len),
{
}

/// Two walks, one after the other, hand out what they have taken.
#[verifier::rlimit(40)]
pub(crate) proof fn lemma_walks_joined<T>(
    before: Seq<Option<ItemView<T>>>,
    first: Walk<T>,
    second: Walk<T>,
    roots_len: nat,
)
    requires
        hands_out_taken(before, first, roots_len),
        hands_out_taken(first.left, second, roots_len),
    ensures
        hands_out_taken(before, Walk { nodes: first.nodes + second.nodes, left: second.left }, roots_len),
{
    let both = Walk { nodes: first.nodes + second.nodes, left: second.left };
    assert forall|c: int| 0 <= c < before.len() implies (#[trigger] both.left[c]) == before[c]
        || both.left[c] is None by {
        assert(first.left[c] == before[c] || first.left[c] is None);
    }
    assert forall|p: int| 0 <= p < both.nodes.len() implies taken(
        before,
        both.left,
        (#[trigger] both.nodes[p]).index - roots_len,
    ) && before[both.nodes[p].index - roots_len] == Some(both.nodes[p].item) by {
        if p < first.nodes.len() {
            assert(both.nodes[p] == first.nodes[p]);
            let c = first.nodes[p].index - roots_len;
            assert(taken(before, first.left, c));
            assert(second.left[c] == first.left[c] || second.left[c] is None);
        } else {
            assert(both.nodes[p] == second.nodes[p - first.nodes.len()]);
            let c = second.nodes[p - first.nodes.len()].index - roots_len;
            assert(taken(first.left, second.left, c));
            assert(first.left[c] == before[c] || first.left[c] is None);
        }
    }
    assert forall|c: int| #[trigger] taken(before, both.left, c) implies handed(
        both.nodes,
        roots_len + c,
    ) by {
        assert(first.left[c] == before[c] || first.left[c] is None);
        if first.left[c] is None {
            assert(taken(before, first.left, c));
            let p = choose|p: int|
                0 <= p < first.nodes.len() && (#[trigger] first.nodes[p]).index == roots_len + c;
            assert(both.nodes[p].index == roots_len + c);
        } else {
            assert(taken(first.left, second.left, c));
            let p = choose|p: int|
                0 <= p < second.nodes.len() && (#[trigger] second.nodes[p]).index == roots_len + c;
            assert(both.nodes[first.nodes.len() + p].index == roots_len + c);
        }
    }
    assert forall|p: int, q: int| 0 <= p < q < both.nodes.len() implies (
    #[trigger] both.nodes[p]).index != (#[trigger] both.nodes[q]).index by {
        if q < first.nodes.len() {
            assert(both.nodes[p] == first.nodes[p] && both.nodes[q] == first.nodes[q]);
        } else if p >= first.nodes.len() {
            assert(both.nodes[p] == second.nodes[p - first.nodes.len()]);
            assert(both.nodes[q] == second.nodes[q - first.nodes.len()]);
        } else {
            assert(both.nodes[p] == first.nodes[p]);
            assert(both.nodes[q] == second.nodes[q - first.nodes.len()]);
            assert(taken(before, first.left, first.nodes[p].index - roots_len));
            assert(taken(
                first.left,
                second.left,
                second.nodes[q - first.nodes.len()].index - roots_len,
            ));
        }
    }
}

/// The walk from a child hands out what it takes.
pub(crate) proof fn lemma_walk_child<T>(
    left: Seq<Option<ItemView<T>>>,
    roots_len: nat,
    child: int,
    level: nat,
    fuel: nat,
    base: int,
    at: int,
)
    ensures
        hands_out_taken(left, walk_child(left, roots_len, child, level, fuel, base, at), roots_len),
    decreases fuel, 0nat,
{
    if fuel == 0 || child < 0 || child >= left.len() || left[child] is None {
        lemma_nothing_taken(left, roots_len);
    } else {
        let item = left[child]->0;
        let gone = left.update(child, None);
        let node = NodeView { index: roots_len + child, level, base: Some(base), item };
        let first = Walk { nodes: seq![node], left: gone };
        let below = walk_children(
            gone,
            roots_len,
            item.children,
            0,
            level + 1,
            (fuel - 1) as nat,
            at,
            at + 1,
        );
        lemma_walk_children(
            gone,
            roots_len,
            item.children,
            0,
            level + 1,
            (fuel - 1) as nat,
            at,
            at + 1,
        );
        assert(hands_out_taken(left, first, roots_len)) by {
            assert forall|c: int| #[trigger] taken(left, first.left, c) implies handed(
                first.nodes,
                roots_len + c,
            ) by {
                assert(c == child);
                assert(first.nodes[0].index == roots_len + c);
            }
        }
        lemma_walks_joined(left, first, below, roots_len);
    }
}

/// The walk from the children of an entry hands out what it takes.
pub(crate) proof fn lemma_walk_children<T>(
    left: Seq<Option<ItemView<T>>>,
    roots_len: nat,
    kids: Seq<usize>,
    from: int,
    level: nat,
    fuel: nat,
    base: int,
    at: int,
)
    ensures
        hands_out_taken(left, walk_children(left, roots_len, kids, from, level, fuel, base, at), roots_len),
    decreases fuel, kids.len() - from + 1,
{
    if from < 0 || from >= kids.len() {
        lemma_nothing_taken(left, roots_len);
    } else {
        let first = walk_child(left, roots_len, kids[from] as int, level, fuel, base, at);
        let rest = walk_children(
            first.left,
            roots_len,
            kids,
            from + 1,
            level,
            fuel,
            base,
            at + first.nodes.len(),
        );
        lemma_walk_child(left, roots_len, kids[from] as int, level, fuel, base, at);
        lemma_walk_children(
            first.left,
            roots_len,
            kids,
            from + 1,
            level,
            fuel,
            base,
            at + first.nodes.len(),
        );
        lemma_walks_joined(left, first, rest, roots_len);
    }
}

/// The nodes of chunks, one chunk after the other.
pub open spec fn joined<T>(chunks: Seq<Seq<NodeView<T>>>) -> Seq<NodeView<T>>
    decreases chunks.len(),
{
    if chunks.len() == 0 {
        Seq::empty()
    } else {
        chunks[0] + joined(chunks.skip(1))
    }
}

/// The children that are left in the tree once the chunks from the root at `from` on are
/// handed out.
pub open spec fn left_after<T>(
    stored_roots: Seq<ItemView<T>>,
    left: Seq<Option<ItemView<T>>>,
    from: int,
    size: nat,
) -> Seq<Option<ItemView<T>>>
    decreases stored_roots.len() - from,
{
    if from < 0 || from >= stored_roots.len() || size == 0 {
        left
    } else {
        let to = chunk_end(stored_roots.len(), from, size);
        left_after(stored_roots, walk_roots(stored_roots, left, from, to, 0).left, to, size)
    }
}

/// The walk has handed out the roots that are stored from `from` up to `to` and the
/// children that it has taken from the tree, each once and as the tree held it.
pub open spec fn hands_out<T>(
    before: Seq<Option<ItemView<T>>>,
    walk: Walk<T>,
    stored_roots: Seq<ItemView<T>>,
    from: int,
    to: int,
) -> bool {
    &&& kept_or_taken(before, walk.left)
    &&& forall|p: int|
        0 <= p < walk.nodes.len() ==> if (#[trigger] walk.nodes[p]).index < stored_roots.len() {
            from <= walk.nodes[p].index < to && walk.nodes[p].item == stored_roots[walk.nodes[p].index]
        } else {
            taken(before, walk.left, walk.nodes[p].index - stored_roots.len()) && before[walk.nodes[p].index
                - stored_roots.len()] == Some(walk.nodes[p].item)
        }
    &&& forall|c: int| #[trigger]
        taken(before, walk.left, c) ==> handed(walk.nodes, stored_roots.len() + c)
    &&& forall|s: int| from <= s < to ==> #[trigger] handed(walk.nodes, s)
    &&& distinct(walk.nodes)
}

/// A walk that hands out children alone hands out no root.
pub(crate) proof fn lemma_no_root<T>(
    before: Seq<Option<ItemView<T>>>,
    walk: Walk<T>,
    stored_roots: Seq<ItemView<T>>,
    at: int,
)
    requires
        hands_out_taken(before, walk, stored_roots.len()),
    ensures
        hands_out(before, walk, stored_roots, at, at),
{
    assert forall|p: int| 0 <= p < walk.nodes.len() implies (#[trigger] walk.nodes[p]).index
        >= stored_roots.len() by {
        assert(taken(before, walk.left, walk.nodes[p].index - stored_roots.len()));
    }
}

/// Two walks, one after the other, hand out the roots of both and the children that they
/// have taken.
#[verifier::rlimit(40)]
pub(crate) proof fn lemma_hands_out_joined<T>(
    before: Seq<Option<ItemView<T>>>,
    first: Walk<T>,
    second: Walk<T>,
    stored_roots: Seq<ItemView<T>>,
    from: int,
    mid: int,
    to: int,
)
    requires
        0 <= from <= mid <= to <= stored_roots.len(),
        hands_out(before, first, stored_roots, from, mid),
        hands_out(first.left, second, stored_roots, mid, to),
    ensures
        hands_out(
            before,
            Walk { nodes: first.nodes + second.nodes, left: second.left },
            stored_roots,
            from,
            to,
        ),
{
    let roots_len = stored_roots.len();
    let both = Walk { nodes: first.nodes + second.nodes, left: second.left };
    assert forall|c: int| 0 <= c < before.len() implies (#[trigger] both.left[c]) == before[c]
        || both.left[c] is None by {
        assert(first.left[c] == before[c] || first.left[c] is None);
    }
    assert forall|p: int| 0 <= p < both.nodes.len() implies if (#[trigger] both.nodes[p]).index
        < roots_len {
        from <= both.nodes[p].index < to && both.nodes[p].item == stored_roots[both.nodes[p].index]
    } else {
        taken(before, both.left, both.nodes[p].index - roots_len) && before[both.nodes[p].index
            - roots_len] == Some(both.nodes[p].item)
    } by {
        if p < first.nodes.len() {
            assert(both.nodes[p] == first.nodes[p]);
            if first.nodes[p].index >= roots_len {
                let c = first.nodes[p].index - roots_len;
                assert(taken(before, first.left, c));
                assert(second.left[c] == first.left[c] || second.left[c] is None);
            }
        } else {
            assert(both.nodes[p] == second.nodes[p - first.nodes.len()]);
            if both.nodes[p].index >= roots_len {
                let c = second.nodes[p - first.nodes.len()].index - roots_len;
                assert(taken(first.left, second.left, c));
                assert(first.left[c] == before[c] || first.left[c] is None);
            }
        }
    }
    assert forall|c: int| #[trigger] taken(before, both.left, c) implies handed(
        both.nodes,
        roots_len + c,
    ) by {
        assert(first.left[c] == before[c] || first.left[c] is None);
        if first.left[c] is None {
            assert(taken(before, first.left, c));
            let p = choose|p: int|
                0 <= p < first.nodes.len() && (#[trigger] first.nodes[p]).index == roots_len + c;
            assert(both.nodes[p].index == roots_len + c);
        } else {
            assert(taken(first.left, second.left, c));
            let p = choose|p: int|
                0 <= p < second.nodes.len() && (#[trigger] second.nodes[p]).index == roots_len + c;
            assert(both.nodes[first.nodes.len() + p].index == roots_len + c);
        }
    }
    assert forall|s: int| from <= s < to implies #[trigger] handed(both.nodes, s) by {
        if s < mid {
            assert(handed(first.nodes, s));
            let p = choose|p: int| 0 <= p < first.nodes.len() && (#[trigger] first.nodes[p]).index == s;
            assert(both.nodes[p].index == s);
        } else {
            assert(handed(second.nodes, s));
            let p = choose|p: int|
                0 <= p < second.nodes.len() && (#[trigger] second.nodes[p]).index == s;
            assert(both.nodes[first.nodes.len() + p].index == s);
        }
    }
    assert forall|p: int, q: int| 0 <= p < q < both.nodes.len() implies (
    #[trigger] both.nodes[p]).index != (#[trigger] both.nodes[q]).index by {
        if q < first.nodes.len() {
            assert(both.nodes[p] == first.nodes[p] && both.nodes[q] == first.nodes[q]);
        } else if p >= first.nodes.len() {
            assert(both.nodes[p] == second.nodes[p - first.nodes.len()]);
            assert(both.nodes[q] == second.nodes[q - first.nodes.len()]);
        } else {
            let one = first.nodes[p];
            let other = second.nodes[q - first.nodes.len()];
            assert(both.nodes[p] == one);
            assert(both.nodes[q] == other);
            if one.index >= roots_len && other.index >= roots_len {
                assert(taken(before, first.left, one.index - roots_len));
                assert(taken(first.left, second.left, other.index - roots_len));
            }
        }
    }
}

/// The walk from some roots hands out these roots and what it takes.
pub(crate) proof fn lemma_walk_roots<T>(
    stored_roots: Seq<ItemView<T>>,
    left: Seq<Option<ItemView<T>>>,
    from: int,
    to: int,
    at: int,
)
    requires
        0 <= from <= to <= stored_roots.len(),
    ensures
        hands_out(left, walk_roots(stored_roots, left, from, to, at), stored_roots, from, to),
    decreases to - from,
{
    let roots_len = stored_roots.len();
    if from >= to {
        lemma_nothing_taken(left, roots_len);
        lemma_no_root(left, Walk { nodes: Seq::<NodeView<T>>::empty(), left }, stored_roots, from);
    } else {
        let root = stored_roots[from];
        let node = NodeView { index: from, level: 0, base: None, item: root };
        let first = Walk { nodes: seq![node], left };
        let below = walk_children(left, roots_len, root.children, 0, 1, left.len(), at, at + 1);
        let rest = walk_roots(stored_roots, below.left, from + 1, to, at + 1 + below.nodes.len());
        assert(hands_out(left, first, stored_roots, from, from + 1)) by {
            assert(first.nodes[0].index == from);
        }
        lemma_walk_children(left, roots_len, root.children, 0, 1, left.len(), at, at + 1);
        lemma_no_root(left, below, stored_roots, from + 1);
        lemma_hands_out_joined(left, first, below, stored_roots, from, from + 1, from + 1);
        lemma_walk_roots(stored_roots, below.left, from + 1, to, at + 1 + below.nodes.len());
        let head = Walk { nodes: first.nodes + below.nodes, left: below.left };
        lemma_hands_out_joined(left, head, rest, stored_roots, from, from + 1, to);
        assert(walk_roots(stored_roots, left, from, to, at).nodes =~= head.nodes + rest.nodes);
    }
}

/// The chunks hand out each root from `from` on and the children that they take, each once.
pub(crate) proof fn lemma_chunks_from<T>(
    stored_roots: Seq<ItemView<T>>,
    left: Seq<Option<ItemView<T>>>,
    from: int,
    size: nat,
)
    requires
        0 <= from <= stored_roots.len(),
        size > 0,
    ensures
        hands_out(
            left,
            Walk {
                nodes: joined(chunks_from(stored_roots, left, from, size)),
                left: left_after(stored_roots, left, from, size),
            },
            stored_roots,
            from,
            stored_roots.len() as int,
        ),
    decreases stored_roots.len() - from,
{
    let roots_len = stored_roots.len();
    if from >= roots_len {
        lemma_nothing_taken(left, roots_len);
        lemma_no_root(left, Walk { nodes: Seq::<NodeView<T>>::empty(), left }, stored_roots, from);
    } else {
        let to = chunk_end(roots_len, from, size);
        let chunk = walk_roots(stored_roots, left, from, to, 0);
        let rest = chunks_from(stored_roots, chunk.left, to, size);
        lemma_walk_roots(stored_roots, left, from, to, 0);
        lemma_chunks_from(stored_roots, chunk.left, to, size);
        let others = Walk { nodes: joined(rest), left: left_after(stored_roots, chunk.left, to, size) };
        lemma_hands_out_joined(left, chunk, others, stored_roots, from, to, roots_len as int);
        assert((seq![chunk.nodes] + rest).skip(1) =~= rest);
        assert(joined(chunks_from(stored_roots, left, from, size)) == chunk.nodes + joined(rest));
    }
}

/// The number of children that are left in the tree.
pub open spec fn remaining<T>(left: Seq<Option<ItemView<T>>>) -> nat
    decreases left.len(),
{
    if left.len() == 0 {
        0
    } else {
        remaining(left.drop_last()) + if left.last() is Some {
            1nat
        } else {
            0nat
        }
    }
}

/// Taking a child leaves one child less.
pub(crate) proof fn lemma_one_less<T>(left: Seq<Option<ItemView<T>>>, child: int)
    requires
        0 <= child < left.len(),
        left[child] is Some,
    ensures
        remaining(left.update(child, None)) + 1 == remaining(left),
    decreases left.len(),
{
    let gone = left.update(child, None);
    if child == left.len() - 1 {
        assert(gone.drop_last() =~= left.drop_last());
    } else {
        lemma_one_less(left.drop_last(), child);
        assert(gone.drop_last() =~= left.drop_last().update(child, None));
    }
}

/// Where children are kept or taken, no more are left than before.
pub(crate) proof fn lemma_no_more_left<T>(before: Seq<Option<ItemView<T>>>, after: Seq<Option<ItemView<T>>>)
    requires
        kept_or_taken(before, after),
    ensures
        remaining(after) <= remaining(before),
    decreases before.len(),
{
    if before.len() > 0 {
        assert(after.last() == before.last() || after.last() is None);
        assert forall|c: int| 0 <= c < before.drop_last().len() implies (
        #[trigger] after.drop_last()[c]) == before.drop_last()[c] || after.drop_last()[c] is None by {
            assert(after[c] == before[c] || after[c] is None);
        }
        lemma_no_more_left(before.drop_last(), after.drop_last());
    }
}

/// Whether the children that `kids` lists from position `from` on are gone.
pub open spec fn gone<T>(left: Seq<Option<ItemView<T>>>, kids: Seq<usize>, from: int) -> bool {
    forall|at: int|
        from <= at < kids.len() && kids[at] < left.len() ==> left[#[trigger] kids[at] as int] is None
}

/// Whether the children of each child that was taken are gone as well.
pub open spec fn taken_with_children<T>(
    before: Seq<Option<ItemView<T>>>,
    after: Seq<Option<ItemView<T>>>,
) -> bool {
    forall|c: int| #[trigger] taken(before, after, c) ==> gone(after, before[c]->0.children, 0)
}

/// What was taken with its children stays so when more is taken.
pub(crate) proof fn lemma_taken_further<T>(
    before: Seq<Option<ItemView<T>>>,
    between: Seq<Option<ItemView<T>>>,
    after: Seq<Option<ItemView<T>>>,
)
    requires
        kept_or_taken(before, between),
        kept_or_taken(between, after),
        taken_with_children(before, between),
        taken_with_children(between, after),
    ensures
        kept_or_taken(before, after),
        taken_with_children(before, after),
{
    assert forall|c: int| 0 <= c < before.len() implies (#[trigger] after[c]) == before[c]
        || after[c] is None by {
        assert(between[c] == before[c] || between[c] is None);
    }
    assert forall|c: int| #[trigger] taken(before, after, c) implies gone(
        after,
        before[c]->0.children,
        0,
    ) by {
        let kids = before[c]->0.children;
        assert(between[c] == before[c] || between[c] is None);
        if between[c] is None {
            assert(taken(before, between, c));
            assert forall|at: int| 0 <= at < kids.len() && kids[at] < after.len() implies after[
            #[trigger] kids[at] as int] is None by {
                assert(between[kids[at] as int] is None);
                assert(after[kids[at] as int] == between[kids[at] as int] || after[kids[at] as int]
                    is None);
            }
        } else {
            assert(taken(between, after, c));
        }
    }
}

/// With fuel for each child that is left, the walk from a child takes the child, and with
/// each child that it takes the children of that child.
#[verifier::rlimit(40)]
pub(crate) proof fn lemma_child_done<T>(
    left: Seq<Option<ItemView<T>>>,
    roots_len: nat,
    child: int,
    level: nat,
    fuel: nat,
    base: int,
    at: int,
)
    requires
        fuel >= remaining(left),
    ensures
        ({
            let walk = walk_child(left, roots_len, child, level, fuel, base, at);
            &&& kept_or_taken(left, walk.left)
            &&& taken_with_children(left, walk.left)
            &&& 0 <= child < left.len() ==> walk.left[child] is None
        }),
    decreases fuel, 0nat,
{
    lemma_walk_child(left, roots_len, child, level, fuel, base, at);
    if 0 <= child < left.len() && left[child] is Some {
        lemma_one_less(left, child);
        let item = left[child]->0;
        let without = left.update(child, None);
        let below = walk_children(
            without,
            roots_len,
            item.children,
            0,
            level + 1,
            (fuel - 1) as nat,
            at,
            at + 1,
        );
        lemma_children_done(
            without,
            roots_len,
            item.children,
            0,
            level + 1,
            (fuel - 1) as nat,
            at,
            at + 1,
        );
        assert(below.left[child] is None) by {
            assert(below.left[child] == without[child] || below.left[child] is None);
        }
        assert forall|c: int| #[trigger] taken(left, below.left, c) implies gone(
            below.left,
            left[c]->0.children,
            0,
        ) by {
            if c != child {
                assert(taken(without, below.left, c));
            }
        }
    }
}

/// With fuel for each child that is left, the walk from the children of an entry takes
/// these children, and with each child that it takes the children of that child.
#[verifier::rlimit(40)]
pub(crate) proof fn lemma_children_done<T>(
    left: Seq<Option<ItemView<T>>>,
    roots_len: nat,
    kids: Seq<usize>,
    from: int,
    level: nat,
    fuel: nat,
    base: int,
    at: int,
)
    requires
        fuel >= remaining(left),
        0 <= from,
    ensures
        ({
            let walk = walk_children(left, roots_len, kids, from, level, fuel, base, at);
            &&& kept_or_taken(left, walk.left)
            &&& taken_with_children(left, walk.left)
            &&& gone(walk.left, kids, from)
        }),
    decreases fuel, kids.len() - from + 1,
{
    lemma_walk_children(left, roots_len, kids, from, level, fuel, base, at);
    if from < kids.len() {
        let first = walk_child(left, roots_len, kids[from] as int, level, fuel, base, at);
        let rest = walk_children(
            first.left,
            roots_len,
            kids,
            from + 1,
            level,
            fuel,
            base,
            at + first.nodes.len(),
        );
        lemma_child_done(left, roots_len, kids[from] as int, level, fuel, base, at);
        lemma_no_more_left(left, first.left);
        lemma_children_done(
            first.left,
            roots_len,
            kids,
            from + 1,
            level,
            fuel,
            base,
            at + first.nodes.len(),
        );
        lemma_taken_further(left, first.left, rest.left);
        assert forall|at: int| from <= at < kids.len() && kids[at] < rest.left.len() implies rest.left[
        #[trigger] kids[at] as int] is None by {
            if at == from {
                assert(rest.left[kids[at] as int] == first.left[kids[at] as int]
                    || rest.left[kids[at] as int] is None);
            }
        }
    }
}

/// No more children are left than the tree has.
pub(crate) proof fn lemma_remaining_bound<T>(left: Seq<Option<ItemView<T>>>)
    ensures
        remaining(left) <= left.len(),
    decreases left.len(),
{
    if left.len() > 0 {
        lemma_remaining_bound(left.drop_last());
    }
}

/// Whether the children of each root that is stored from `from` up to `to` are gone.
pub open spec fn roots_done<T>(
    stored_roots: Seq<ItemView<T>>,
    left: Seq<Option<ItemView<T>>>,
    from: int,
    to: int,
) -> bool {
    forall|s: int| from <= s < to ==> gone(left, (#[trigger] stored_roots[s]).children, 0)
}

/// Children that are gone stay gone when more is taken.
pub(crate) proof fn lemma_gone_further<T>(
    between: Seq<Option<ItemView<T>>>,
    after: Seq<Option<ItemView<T>>>,
    kids: Seq<usize>,
)
    requires
        kept_or_taken(between, after),
        gone(between, kids, 0),
    ensures
        gone(after, kids, 0),
{
    assert forall|at: int| 0 <= at < kids.len() && kids[at] < after.len() implies after[
    #[trigger] kids[at] as int] is None by {
        assert(between[kids[at] as int] is None);
        assert(after[kids[at] as int] == between[kids[at] as int] || after[kids[at] as int] is None);
    }
}

/// The walk from some roots takes the children of these roots, and with each child that
/// it takes the children of that child.
pub(crate) proof fn lemma_roots_done<T>(
    stored_roots: Seq<ItemView<T>>,
    left: Seq<Option<ItemView<T>>>,
    from: int,
    to: int,
    at: int,
)
    requires
        0 <= from <= to <= stored_roots.len(),
    ensures
        ({
            let walk = walk_roots(stored_roots, left, from, to, at);
            &&& kept_or_taken(left, walk.left)
            &&& taken_with_children(left, walk.left)
            &&& roots_done(stored_roots, walk.left, from, to)
        }),
    decreases to - from,
{
    if from < to {
        let root = stored_roots[from];
        let below = walk_children(
            left,
            stored_roots.len(),
            root.children,
            0,
            1,
            left.len(),
            at,
            at + 1,
        );
        let rest = walk_roots(stored_roots, below.left, from + 1, to, at + 1 + below.nodes.len());
        lemma_remaining_bound(left);
        lemma_children_done(left, stored_roots.len(), root.children, 0, 1, left.len(), at, at + 1);
        lemma_roots_done(stored_roots, below.left, from + 1, to, at + 1 + below.nodes.len());
        lemma_taken_further(left, below.left, rest.left);
        lemma_gone_further(below.left, rest.left, root.children);
    }
}

/// The chunks take the children of each root from `from` on, and with each child that
/// they take the children of that child.
pub(crate) proof fn lemma_chunks_done<T>(
    stored_roots: Seq<ItemView<T>>,
    left: Seq<Option<ItemView<T>>>,
    from: int,
    size: nat,
)
    requires
        0 <= from <= stored_roots.len(),
        size > 0,
    ensures
        ({
            let after = left_after(stored_roots, left, from, size);
            &&& kept_or_taken(left, after)
            &&& taken_with_children(left, after)
            &&& roots_done(stored_roots, after, from, stored_roots.len() as int)
        }),
    decreases stored_roots.len() - from,
{
    if from < stored_roots.len() {
        let to = chunk_end(stored_roots.len(), from, size);
        let chunk = walk_roots(stored_roots, left, from, to, 0);
        let after = left_after(stored_roots, chunk.left, to, size);
        lemma_roots_done(stored_roots, left, from, to, 0);
        lemma_chunks_done(stored_roots, chunk.left, to, size);
        lemma_taken_further(left, chunk.left, after);
        assert forall|s: int| from <= s < stored_roots.len() implies gone(
            after,
            (#[trigger] stored_roots[s]).children,
            0,
        ) by {
            if s < to {
                lemma_gone_further(chunk.left, after, stored_roots[s].children);
            }
        }
    }
}

/// Whether the child number `child` depends on a root: a root lists it, or a child lists it
/// that depends on a root by fewer than `fuel` steps.
pub open spec fn hangs_on_root<T>(tree: TreeView<T>, child: int, fuel: nat) -> bool
    decreases fuel,
{
    fuel > 0 && exists|slot: Slot, at: int|
        #![trigger tree.lists_at(slot, at)]
        tree.lists_at(slot, at) && tree.item(slot).children[at] == child && match slot {
            Slot::Root(_) => true,
            Slot::Child(parent) => hangs_on_root(tree, parent, (fuel - 1) as nat),
        }
}

/// Whether each child depends on a root, so that the entries are a forest with the roots at its top.
pub open spec fn rooted<T>(tree: TreeView<T>) -> bool {
    forall|child: int|
        0 <= child < tree.children.len() ==> #[trigger] hangs_on_root(tree, child, tree.children.len())
}

/// A child that depends on a root is gone once the chunks are handed out.
proof fn lemma_hanging_child_gone<T>(
    tree: TreeView<T>,
    after: Seq<Option<ItemView<T>>>,
    child: int,
    fuel: nat,
)
    requires
        0 <= child < tree.children.len(),
        hangs_on_root(tree, child, fuel),
        kept_or_taken(all_left(tree.children), after),
        taken_with_children(all_left(tree.children), after),
        roots_done(tree.roots.reverse(), after, 0, tree.roots.len() as int),
    ensures
        after[child] is None,
    decreases fuel,
{
    let (slot, at) = choose|slot: Slot, at: int|
        #![trigger tree.lists_at(slot, at)]
        tree.lists_at(slot, at) && tree.item(slot).children[at] == child && match slot {
            Slot::Root(_) => true,
            Slot::Child(parent) => hangs_on_root(tree, parent, (fuel - 1) as nat),
        };
    match slot {
        Slot::Root(i) => {
            let stored = tree.roots.reverse();
            let s = tree.roots.len() - 1 - i;
            assert(stored[s] == tree.roots[i]);
            assert(gone(after, stored[s].children, 0));
            assert(after[tree.roots[i].children[at] as int] is None);
        },
        Slot::Child(parent) => {
            lemma_hanging_child_gone(tree, after, parent, (fuel - 1) as nat);
            assert(taken(all_left(tree.children), after, parent));
            assert(gone(after, tree.children[parent].children, 0));
            assert(after[tree.children[parent].children[at] as int] is None);
        },
    }
}

/// The indices at which `nodes` are stored.
pub open spec fn indices<T>(nodes: Seq<NodeView<T>>) -> Seq<int> {
    Seq::new(nodes.len(), |p: int| nodes[p].index)
}

/// Nodes that are stored at each of the indices below `total`, each at another one, are
/// `total` nodes.
proof fn lemma_as_many_as_indices<T>(nodes: Seq<NodeView<T>>, total: nat)
    requires
        distinct(nodes),
        forall|p: int| 0 <= p < nodes.len() ==> 0 <= (#[trigger] nodes[p]).index < total,
        forall|index: int| 0 <= index < total ==> #[trigger] handed(nodes, index),
    ensures
        nodes.len() == total,
{
    let all = indices(nodes);
    assert(all.no_duplicates());
    all.unique_seq_to_set();
    vstd::set_lib::lemma_int_range(0, total as int);
    assert forall|index: int| all.to_set().contains(index) <==> vstd::set_lib::set_int_range(
        0,
        total as int,
    ).contains(index) by {
        if all.to_set().contains(index) {
            let p = choose|p: int| 0 <= p < all.len() && all[p] == index;
            assert(nodes[p].index == index);
        }
        if 0 <= index < total {
            assert(handed(nodes, index));
            let p = choose|p: int| 0 <= p < nodes.len() && (#[trigger] nodes[p]).index == index;
            assert(all[p] == index);
        }
    }
    assert(all.to_set() =~= vstd::set_lib::set_int_range(0, total as int));
}

/// The chunks part the entries of a tree. No entry is in two chunks or twice in one, and
/// each entry that is handed out is as the tree stored it. Each root is handed out, and
/// where each child depends on a root, each entry of the tree is handed out, so that
/// there are as many nodes as entries.
pub proof fn lemma_chunks_part_the_entries<T>(tree: TreeView<T>, size: nat)
    requires
        size > 0,
    ensures
        ({
            let nodes = joined(chunks_of(tree, size));
            &&& distinct(nodes)
            &&& forall|p: int|
                0 <= p < nodes.len() ==> 0 <= (#[trigger] nodes[p]).index < tree.len() && nodes[p].item
                    == tree.items()[nodes[p].index]
            &&& forall|index: int| 0 <= index < tree.roots.len() ==> #[trigger] handed(nodes, index)
            &&& rooted(tree) ==> nodes.len() == tree.len() && forall|index: int|
                0 <= index < tree.len() ==> #[trigger] handed(nodes, index)
        }),
{
    let stored = tree.roots.reverse();
    let before = all_left(tree.children);
    let nodes = joined(chunks_of(tree, size));
    let after = left_after(stored, before, 0, size);
    lemma_chunks_from(stored, before, 0, size);
    lemma_chunks_done(stored, before, 0, size);
    assert forall|p: int| 0 <= p < nodes.len() implies 0 <= (#[trigger] nodes[p]).index < tree.len()
        && nodes[p].item == tree.items()[nodes[p].index] by {
        if nodes[p].index >= stored.len() {
            assert(taken(before, after, nodes[p].index - stored.len()));
        }
    }
    if rooted(tree) {
        assert forall|index: int| 0 <= index < tree.len() implies #[trigger] handed(nodes, index) by {
            if index >= tree.roots.len() {
                let child = index - tree.roots.len();
                assert(hangs_on_root(tree, child, tree.children.len()));
                lemma_hanging_child_gone(tree, after, child, tree.children.len());
                assert(taken(before, after, child));
            }
        }
        lemma_as_many_as_indices(nodes, tree.len());
    }
}

/// Whether `node` lists the child that is stored at `index`, behind `roots_len` roots.
pub open spec fn lists_child<T>(node: NodeView<T>, roots_len: nat, index: int) -> bool {
    exists|k: int| 0 <= k < node.item.children.len() && #[trigger] node.item.children[k] == index - roots_len
}

/// Each of `nodes` is a root, or it comes after its base: the base is among `nodes`, which
/// stand from place `at` of their chunk on, it lists the node, and the node is one level
/// below it.
pub open spec fn bases_within<T>(nodes: Seq<NodeView<T>>, roots_len: nat, at: int) -> bool {
    forall|p: int|
        0 <= p < nodes.len() ==> match (#[trigger] nodes[p]).base {
            None => nodes[p].level == 0 && nodes[p].index < roots_len,
            Some(b) => {
                &&& nodes[p].index >= roots_len
                &&& at <= b < at + p
                &&& nodes[b - at].level + 1 == nodes[p].level
                &&& lists_child(nodes[b - at], roots_len, nodes[p].index)
            },
        }
}

/// In a chunk each entry comes after its base: each node that is no root names the place
/// of its base, which is before the node, lists it, and is one level above it.
pub open spec fn bases_first<T>(nodes: Seq<NodeView<T>>, roots_len: nat) -> bool {
    bases_within(nodes, roots_len, 0)
}

/// Each of `nodes`, which stand from place `at` on, comes after its base. Its base is among
/// `nodes`, or it stands at place `base` before them: then the node is on `level`, and
/// `kids` lists it at position `from` or later.
spec fn based<T>(
    nodes: Seq<NodeView<T>>,
    roots_len: nat,
    at: int,
    base: int,
    level: nat,
    kids: Seq<usize>,
    from: int,
) -> bool {
    forall|p: int|
        0 <= p < nodes.len() ==> (#[trigger] nodes[p]).base is Some && nodes[p].index >= roots_len && {
            let b = nodes[p].base->0;
            if b == base {
                nodes[p].level == level && exists|k: int|
                    from <= k < kids.len() && #[trigger] kids[k] == nodes[p].index - roots_len
            } else {
                &&& at <= b < at + p
                &&& nodes[b - at].level + 1 == nodes[p].level
                &&& lists_child(nodes[b - at], roots_len, nodes[p].index)
            }
        }
}

/// What is handed out from a child comes after its base.
#[verifier::rlimit(40)]
proof fn lemma_child_based<T>(
    left: Seq<Option<ItemView<T>>>,
    roots_len: nat,
    kids: Seq<usize>,
    from: int,
    level: nat,
    fuel: nat,
    base: int,
    at: int,
)
    requires
        base < at,
        0 <= from < kids.len(),
    ensures
        based(
            walk_child(left, roots_len, kids[from] as int, level, fuel, base, at).nodes,
            roots_len,
            at,
            base,
            level,
            kids,
            from,
        ),
    decreases fuel, 0nat,
{
    let child = kids[from] as int;
    let nodes = walk_child(left, roots_len, child, level, fuel, base, at).nodes;
    if !(fuel == 0 || child < 0 || child >= left.len() || left[child] is None) {
        let item = left[child]->0;
        let node = NodeView { index: roots_len + child, level, base: Some(base), item };
        let below = walk_children(
            left.update(child, None),
            roots_len,
            item.children,
            0,
            level + 1,
            (fuel - 1) as nat,
            at,
            at + 1,
        ).nodes;
        lemma_children_based(
            left.update(child, None),
            roots_len,
            item.children,
            0,
            level + 1,
            (fuel - 1) as nat,
            at,
            at + 1,
        );
        assert(nodes == seq![node] + below);
        assert forall|p: int| 0 <= p < nodes.len() implies (#[trigger] nodes[p]).base is Some
            && nodes[p].index >= roots_len && {
            let b = nodes[p].base->0;
            if b == base {
                nodes[p].level == level && exists|k: int|
                    from <= k < kids.len() && #[trigger] kids[k] == nodes[p].index - roots_len
            } else {
                &&& at <= b < at + p
                &&& nodes[b - at].level + 1 == nodes[p].level
                &&& lists_child(nodes[b - at], roots_len, nodes[p].index)
            }
        } by {
            if p == 0 {
                assert(kids[from] == nodes[p].index - roots_len);
            } else {
                let q = p - 1;
                assert(nodes[p] == below[q]);
                let b = below[q].base->0;
                if b == at {
                    assert(nodes[0] == node);
                    let k = choose|k: int|
                        0 <= k < item.children.len() && #[trigger] item.children[k] == below[q].index
                            - roots_len;
                    assert(node.item.children[k] == nodes[p].index - roots_len);
                } else {
                    assert(nodes[b - at] == below[b - (at + 1)]);
                }
            }
        }
    }
}

/// What is handed out from the children of an entry comes after its base.
#[verifier::rlimit(40)]
proof fn lemma_children_based<T>(
    left: Seq<Option<ItemView<T>>>,
    roots_len: nat,
    kids: Seq<usize>,
    from: int,
    level: nat,
    fuel: nat,
    base: int,
    at: int,
)
    requires
        base < at,
        0 <= from,
    ensures
        based(
            walk_children(left, roots_len, kids, from, level, fuel, base, at).nodes,
            roots_len,
            at,
            base,
            level,
            kids,
            from,
        ),
    decreases fuel, kids.len() - from + 1,
{
    let nodes = walk_children(left, roots_len, kids, from, level, fuel, base, at).nodes;
    if from < kids.len() {
        let first = walk_child(left, roots_len, kids[from] as int, level, fuel, base, at);
        let further = at + first.nodes.len();
        let rest = walk_children(first.left, roots_len, kids, from + 1, level, fuel, base, further).nodes;
        lemma_child_based(left, roots_len, kids, from, level, fuel, base, at);
        lemma_children_based(first.left, roots_len, kids, from + 1, level, fuel, base, further);
        assert(nodes == first.nodes + rest);
        assert forall|p: int| 0 <= p < nodes.len() implies (#[trigger] nodes[p]).base is Some
            && nodes[p].index >= roots_len && {
            let b = nodes[p].base->0;
            if b == base {
                nodes[p].level == level && exists|k: int|
                    from <= k < kids.len() && #[trigger] kids[k] == nodes[p].index - roots_len
            } else {
                &&& at <= b < at + p
                &&& nodes[b - at].level + 1 == nodes[p].level
                &&& lists_child(nodes[b - at], roots_len, nodes[p].index)
            }
        } by {
            if p < first.nodes.len() {
                assert(nodes[p] == first.nodes[p]);
                let b = first.nodes[p].base->0;
                if b != base {
                    assert(nodes[b - at] == first.nodes[b - at]);
                }
            } else {
                let q = p - first.nodes.len();
                assert(nodes[p] == rest[q]);
                let b = rest[q].base->0;
                if b == base {
                    let k = choose|k: int|
                        from + 1 <= k < kids.len() && #[trigger] kids[k] == rest[q].index - roots_len;
                    assert(kids[k] == nodes[p].index - roots_len);
                } else {
                    assert(nodes[b - at] == rest[b - further]);
                }
            }
        }
    }
}

/// What is handed out from some roots comes after its base.
#[verifier::rlimit(40)]
proof fn lemma_roots_based<T>(
    stored_roots: Seq<ItemView<T>>,
    left: Seq<Option<ItemView<T>>>,
    from: int,
    to: int,
    at: int,
)
    requires
        0 <= from <= to <= stored_roots.len(),
    ensures
        bases_within(walk_roots(stored_roots, left, from, to, at).nodes, stored_roots.len(), at),
    decreases to - from,
{
    let roots_len = stored_roots.len();
    let nodes = walk_roots(stored_roots, left, from, to, at).nodes;
    if from < to {
        let root = stored_roots[from];
        let node = NodeView { index: from, level: 0, base: None, item: root };
        let walk = walk_children(left, roots_len, root.children, 0, 1, left.len(), at, at + 1);
        let below = walk.nodes;
        let further = at + 1 + below.len();
        let rest = walk_roots(stored_roots, walk.left, from + 1, to, further).nodes;
        lemma_children_based(left, roots_len, root.children, 0, 1, left.len(), at, at + 1);
        lemma_roots_based(stored_roots, walk.left, from + 1, to, further);
        assert(nodes == seq![node] + below + rest);
        assert forall|p: int| 0 <= p < nodes.len() implies match (#[trigger] nodes[p]).base {
            None => nodes[p].level == 0 && nodes[p].index < roots_len,
            Some(b) => {
                &&& nodes[p].index >= roots_len
                &&& at <= b < at + p
                &&& nodes[b - at].level + 1 == nodes[p].level
                &&& lists_child(nodes[b - at], roots_len, nodes[p].index)
            },
        } by {
            if p == 0 {
            } else if p < 1 + below.len() {
                let q = p - 1;
                assert(nodes[p] == below[q]);
                let b = below[q].base->0;
                if b == at {
                    assert(nodes[0] == node);
                    let k = choose|k: int|
                        0 <= k < root.children.len() && #[trigger] root.children[k] == below[q].index
                            - roots_len;
                    assert(node.item.children[k] == nodes[p].index - roots_len);
                } else {
                    assert(nodes[b - at] == below[b - (at + 1)]);
                }
            } else {
                let q = p - 1 - below.len();
                assert(nodes[p] == rest[q]);
                match rest[q].base {
                    Some(b) => {
                        assert(nodes[b - at] == rest[b - further]);
                    },
                    None => {},
                }
            }
        }
    }
}

/// In each chunk from the root at `from` on, each entry comes after its base.
proof fn lemma_chunks_based<T>(
    stored_roots: Seq<ItemView<T>>,
    left: Seq<Option<ItemView<T>>>,
    from: int,
    size: nat,
)
    requires
        0 <= from <= stored_roots.len(),
        size > 0,
    ensures
        forall|c: int|
            0 <= c < chunks_from(stored_roots, left, from, size).len() ==> bases_first(
                #[trigger] chunks_from(stored_roots, left, from, size)[c],
                stored_roots.len(),
            ),
    decreases stored_roots.len() - from,
{
    if from < stored_roots.len() {
        let to = chunk_end(stored_roots.len(), from, size);
        let chunk = walk_roots(stored_roots, left, from, to, 0);
        let rest = chunks_from(stored_roots, chunk.left, to, size);
        lemma_roots_based(stored_roots, left, from, to, 0);
        lemma_chunks_based(stored_roots, chunk.left, to, size);
        assert forall|c: int|
            0 <= c < chunks_from(stored_roots, left, from, size).len() implies bases_first(
            #[trigger] chunks_from(stored_roots, left, from, size)[c],
            stored_roots.len(),
        ) by {
            if c > 0 {
                assert(chunks_from(stored_roots, left, from, size)[c] == rest[c - 1]);
            }
        }
    }
}

/// In each chunk each entry comes after its base: a node that is no root names the place
/// of its base in the chunk, which is before its own, and the base lists the node and is
/// one level above it.
pub proof fn lemma_bases_come_first<T>(tree: TreeView<T>, size: nat)
    requires
        size > 0,
    ensures
        forall|c: int|
            0 <= c < chunks_of(tree, size).len() ==> bases_first(
                #[trigger] chunks_of(tree, size)[c],
                tree.roots.len(),
            ),
{
    lemma_chunks_based(tree.roots.reverse(), all_left(tree.children), 0, size);
}

/// Whether each child starts behind the entry that lists it: no delta comes before its base.
pub open spec fn bases_start_earlier<T>(tree: TreeView<T>) -> bool {
    forall|slot: Slot, at: int| #[trigger]
        tree.lists_at(slot, at) && tree.item(slot).children[at] < tree.children.len() ==> tree.item(
            slot,
        ).offset < tree.children[tree.item(slot).children[at] as int].offset
}

/// A child that depends on a root by some steps depends on it by more steps as well.
proof fn lemma_hangs_with_more_fuel<T>(tree: TreeView<T>, child: int, fuel: nat, more: nat)
    requires
        hangs_on_root(tree, child, fuel),
        fuel <= more,
    ensures
        hangs_on_root(tree, child, more),
    decreases fuel,
{
    let (slot, at) = choose|slot: Slot, at: int|
        #![trigger tree.lists_at(slot, at)]
        tree.lists_at(slot, at) && tree.item(slot).children[at] == child && match slot {
            Slot::Root(_) => true,
            Slot::Child(parent) => hangs_on_root(tree, parent, (fuel - 1) as nat),
        };
    match slot {
        Slot::Root(_) => {},
        Slot::Child(parent) => {
            lemma_hangs_with_more_fuel(tree, parent, (fuel - 1) as nat, (more - 1) as nat);
        },
    }
    assert(tree.lists_at(slot, at));
}

/// Where no delta comes before its base, each child depends on a root by no more steps
/// than children were added before it.
proof fn lemma_earlier_bases_lead_to_root<T>(tree: TreeView<T>, child: int)
    requires
        tree.is_forest(),
        ascending(tree.children),
        bases_start_earlier(tree),
        0 <= child < tree.children.len(),
    ensures
        hangs_on_root(tree, child, (child + 1) as nat),
    decreases child,
{
    assert(tree.is_listed(child));
    let (slot, at) = choose|slot: Slot, at: int| #[trigger]
        tree.lists_at(slot, at) && tree.item(slot).children[at] == child;
    match slot {
        Slot::Root(_) => {},
        Slot::Child(parent) => {
            assert(tree.children[parent].offset < tree.children[child].offset);
            lemma_earlier_bases_lead_to_root(tree, parent);
            lemma_hangs_with_more_fuel(tree, parent, (parent + 1) as nat, child as nat);
        },
    }
    assert(tree.lists_at(slot, at));
}

/// In a sealed tree in which no delta comes before its base, each child depends on a root.
pub proof fn lemma_rooted_by_earlier_bases<T>(tree: TreeView<T>)
    requires
        tree.is_forest(),
        ascending(tree.children),
        bases_start_earlier(tree),
    ensures
        rooted(tree),
{
    assert forall|child: int| 0 <= child < tree.children.len() implies #[trigger] hangs_on_root(
        tree,
        child,
        tree.children.len(),
    ) by {
        lemma_earlier_bases_lead_to_root(tree, child);
        lemma_hangs_with_more_fuel(tree, child, (child + 1) as nat, tree.children.len());
    }
}

} // verus!
