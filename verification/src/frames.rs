//! The walk below a root without recursion: the bases whose children are being handed out
//! are kept in a stack.
use vstd::prelude::*;
use crate::item::ItemView;
use crate::walk::{walk_child, walk_children, NodeView, Walk};

verus! {

/// A base whose children are being handed out.
pub struct Frame {
    /// The children that the base lists.
    pub kids: Seq<usize>,
    /// The position in `kids` of the child that is handed out next.
    pub next: int,
    /// The place of the base in its chunk.
    pub base: int,
}

/// The frame in which the next child is one further.
pub open spec fn advanced(frame: Frame) -> Frame {
    Frame { next: frame.next + 1, ..frame }
}

/// Hands out what is still to be handed out for the bases in `frames`: first for the last
/// of them, which is the deepest, then for the one before it, and so on. The base of the
/// first frame is a root, and `fuel` is the number of levels below it that are handed out.
pub open spec fn walk_frames<T>(
    left: Seq<Option<ItemView<T>>>,
    roots_len: nat,
    frames: Seq<Frame>,
    fuel: nat,
    at: int,
) -> Walk<T>
    decreases frames.len(),
{
    if frames.len() == 0 {
        Walk { nodes: Seq::empty(), left }
    } else {
        let top = frames.last();
        let first = walk_children(
            left,
            roots_len,
            top.kids,
            top.next,
            frames.len(),
            (fuel + 1 - frames.len()) as nat,
            top.base,
            at,
        );
        let rest = walk_frames(first.left, roots_len, frames.drop_last(), fuel, at + first.nodes.len());
        Walk { nodes: first.nodes + rest.nodes, left: rest.left }
    }
}

/// Once each child of the deepest base is handed out, the walk goes on with the bases above it.
pub(crate) proof fn lemma_frame_done<T>(
    left: Seq<Option<ItemView<T>>>,
    roots_len: nat,
    frames: Seq<Frame>,
    fuel: nat,
    at: int,
)
    requires
        frames.len() > 0,
        frames.last().next >= frames.last().kids.len(),
    ensures
        walk_frames(left, roots_len, frames, fuel, at) == walk_frames(
            left,
            roots_len,
            frames.drop_last(),
            fuel,
            at,
        ),
{
    let rest = walk_frames(left, roots_len, frames.drop_last(), fuel, at);
    assert(Seq::<NodeView<T>>::empty() + rest.nodes =~= rest.nodes);
}

/// A child that is not handed out is passed over.
pub(crate) proof fn lemma_frame_passes<T>(
    left: Seq<Option<ItemView<T>>>,
    roots_len: nat,
    frames: Seq<Frame>,
    fuel: nat,
    at: int,
)
    requires
        0 < frames.len() <= fuel + 1,
        0 <= frames.last().next < frames.last().kids.len(),
        ({
            let child = frames.last().kids[frames.last().next];
            frames.len() == fuel + 1 || child >= left.len() || left[child as int] is None
        }),
    ensures
        walk_frames(left, roots_len, frames, fuel, at) == walk_frames(
            left,
            roots_len,
            frames.drop_last().push(advanced(frames.last())),
            fuel,
            at,
        ),
{
    let top = frames.last();
    let after = frames.drop_last().push(advanced(top));
    assert(after.drop_last() =~= frames.drop_last());
    let passed = walk_child(
        left,
        roots_len,
        top.kids[top.next] as int,
        frames.len(),
        (fuel + 1 - frames.len()) as nat,
        top.base,
        at,
    );
    assert(passed.nodes =~= Seq::<NodeView<T>>::empty());
    let others = walk_children(
        left,
        roots_len,
        top.kids,
        top.next + 1,
        frames.len(),
        (fuel + 1 - frames.len()) as nat,
        top.base,
        at,
    );
    assert(passed.nodes + others.nodes =~= others.nodes);
}

/// A child that is handed out comes first, and then what depends on it is handed out
/// before the children that its base lists after it.
#[verifier::rlimit(40)]
pub(crate) proof fn lemma_frame_hands_out<T>(
    left: Seq<Option<ItemView<T>>>,
    roots_len: nat,
    frames: Seq<Frame>,
    fuel: nat,
    at: int,
)
    requires
        0 < frames.len() <= fuel,
        0 <= frames.last().next < frames.last().kids.len(),
        frames.last().kids[frames.last().next] < left.len(),
        left[frames.last().kids[frames.last().next] as int] is Some,
    ensures
        ({
            let top = frames.last();
            let child = top.kids[top.next] as int;
            let item = left[child]->0;
            let node = NodeView {
                index: roots_len + child,
                level: frames.len(),
                base: Some(top.base),
                item,
            };
            let below = walk_frames(
                left.update(child, None),
                roots_len,
                frames.drop_last().push(advanced(top)).push(Frame { kids: item.children, next: 0, base: at }),
                fuel,
                at + 1,
            );
            let walk = walk_frames(left, roots_len, frames, fuel, at);
            walk.nodes == seq![node] + below.nodes && walk.left == below.left
        }),
{
    let top = frames.last();
    let child = top.kids[top.next] as int;
    let item = left[child]->0;
    let node = NodeView { index: roots_len + child, level: frames.len(), base: Some(top.base), item };
    let gone = left.update(child, None);
    let level = frames.len();
    let spent = (fuel + 1 - frames.len()) as nat;
    let waiting = frames.drop_last().push(advanced(top));
    let deeper = waiting.push(Frame { kids: item.children, next: 0, base: at });
    assert(deeper.drop_last() =~= waiting);
    assert(waiting.drop_last() =~= frames.drop_last());
    let under = walk_children(gone, roots_len, item.children, 0, level + 1, (spent - 1) as nat, at, at + 1);
    let first = walk_child(left, roots_len, child, level, spent, top.base, at);
    assert(first.nodes == seq![node] + under.nodes);
    let others = walk_children(
        under.left,
        roots_len,
        top.kids,
        top.next + 1,
        level,
        spent,
        top.base,
        at + first.nodes.len(),
    );
    let above = walk_frames(
        others.left,
        roots_len,
        frames.drop_last(),
        fuel,
        at + first.nodes.len() + others.nodes.len(),
    );
    let walk = walk_frames(left, roots_len, frames, fuel, at);
    assert(walk.nodes == (first.nodes + others.nodes) + above.nodes);
    let resumed = walk_frames(under.left, roots_len, waiting, fuel, at + 1 + under.nodes.len());
    assert(resumed.nodes == others.nodes + above.nodes);
    let below = walk_frames(gone, roots_len, deeper, fuel, at + 1);
    assert(below.nodes == under.nodes + resumed.nodes);
    assert(walk.nodes =~= seq![node] + below.nodes);
}

/// What the walk has still to do at most: for each child that is left, to hand it out and
/// to pass over each child that it lists.
pub open spec fn left_to_do<T>(left: Seq<Option<ItemView<T>>>) -> nat
    decreases left.len(),
{
    if left.len() == 0 {
        0
    } else {
        left_to_do(left.drop_last()) + match left.last() {
            Some(item) => 2 + item.children.len(),
            None => 0nat,
        }
    }
}

/// What the walk has still to do for the bases in `frames`: to hand out or pass over each
/// child that is not yet reached, and to leave the base.
pub open spec fn frames_to_do(frames: Seq<Frame>) -> int
    decreases frames.len(),
{
    if frames.len() == 0 {
        0
    } else {
        frames_to_do(frames.drop_last()) + 1 + frames.last().kids.len() - frames.last().next
    }
}

/// Handing out a child takes from what is left to do.
pub(crate) proof fn lemma_less_to_do<T>(left: Seq<Option<ItemView<T>>>, child: int)
    requires
        0 <= child < left.len(),
        left[child] is Some,
    ensures
        left_to_do(left.update(child, None)) + 2 + left[child]->0.children.len() == left_to_do(left),
    decreases left.len(),
{
    let gone = left.update(child, None);
    if child == left.len() - 1 {
        assert(gone.drop_last() =~= left.drop_last());
    } else {
        lemma_less_to_do(left.drop_last(), child);
        assert(gone.drop_last() =~= left.drop_last().update(child, None));
    }
}

/// Whether in each frame the next child is within the children or just behind them.
pub open spec fn within(frames: Seq<Frame>) -> bool {
    forall|i: int| 0 <= i < frames.len() ==> 0 <= (#[trigger] frames[i]).next <= frames[i].kids.len()
}

/// There is something left to do for each frame.
pub(crate) proof fn lemma_frames_to_do(frames: Seq<Frame>)
    requires
        within(frames),
    ensures
        frames_to_do(frames) >= frames.len(),
    decreases frames.len(),
{
    if frames.len() > 0 {
        assert(frames.last() == frames[frames.len() - 1]);
        assert forall|i: int| 0 <= i < frames.drop_last().len() implies 0 <= (
        #[trigger] frames.drop_last()[i]).next <= frames.drop_last()[i].kids.len() by {
            assert(frames.drop_last()[i] == frames[i]);
        }
        lemma_frames_to_do(frames.drop_last());
    }
}

} // verus!
