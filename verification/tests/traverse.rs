use git_pack::traverse::Chunk;
use git_pack::tree::Tree;

fn offsets_and_levels<T>(chunk: &Chunk<T>) -> Vec<(u64, usize)> {
    chunk.nodes.iter().map(|node| (node.item.offset, node.level)).collect()
}

fn indices<T>(chunks: &[Chunk<T>]) -> Vec<usize> {
    chunks.iter().flat_map(|chunk| chunk.nodes.iter().map(|node| node.index)).collect()
}

#[test]
fn one_chunk_for_each_root() {
    let mut tree = Tree::with_capacity(2).unwrap();
    tree.add_root(12, 'A').unwrap();
    tree.add_root(64, 'B').unwrap();
    let chunks = tree.seal(100).unwrap().into_chunks(1);
    assert_eq!(chunks.len(), 2);
    assert_eq!(offsets_and_levels(&chunks[0]), vec![(64, 0)]);
    assert_eq!(offsets_and_levels(&chunks[1]), vec![(12, 0)]);
    assert_eq!(chunks[0].nodes[0].item.data, 'B');
    assert_eq!(chunks[0].nodes[0].item.next_offset, 100);
    assert_eq!(chunks[1].nodes[0].item.data, 'A');
    assert_eq!(chunks[1].nodes[0].item.next_offset, 64);
    assert_eq!(indices(&chunks), vec![0, 1]);
}

#[test]
fn a_chain_is_handed_out_base_first() {
    let mut tree = Tree::with_capacity(3).unwrap();
    tree.add_root(12, ()).unwrap();
    tree.add_child(12, 40, ()).unwrap();
    tree.add_child(40, 80, ()).unwrap();
    let chunks = tree.seal(120).unwrap().into_chunks(7);
    assert_eq!(chunks.len(), 1);
    assert_eq!(offsets_and_levels(&chunks[0]), vec![(12, 0), (40, 1), (80, 2)]);
    assert_eq!(
        chunks[0].nodes.iter().map(|node| node.item.next_offset).collect::<Vec<_>>(),
        vec![40, 80, 120]
    );
    assert_eq!(indices(&chunks), vec![0, 1, 2]);
}

#[test]
fn a_delta_is_in_the_chunk_of_the_base_that_came_later() {
    let mut tree = Tree::with_capacity(3).unwrap();
    tree.add_root(12, ()).unwrap();
    tree.add_child(80, 40, ()).unwrap();
    tree.add_root(80, ()).unwrap();
    let chunks = tree.seal(120).unwrap().into_chunks(1);
    assert_eq!(chunks.len(), 2);
    assert_eq!(offsets_and_levels(&chunks[0]), vec![(80, 0), (40, 1)]);
    assert_eq!(offsets_and_levels(&chunks[1]), vec![(12, 0)]);
    assert_eq!(indices(&chunks), vec![0, 2, 1]);
}

#[test]
fn each_child_follows_what_depends_on_the_child_before() {
    let mut tree = Tree::with_capacity(8).unwrap();
    tree.add_root(10, ()).unwrap();
    tree.add_child(10, 20, ()).unwrap();
    tree.add_child(10, 30, ()).unwrap();
    tree.add_child(20, 40, ()).unwrap();
    tree.add_root(50, ()).unwrap();
    tree.add_child(40, 60, ()).unwrap();
    tree.add_child(50, 70, ()).unwrap();
    tree.add_root(80, ()).unwrap();
    let chunks = tree.seal(90).unwrap().into_chunks(2);
    assert_eq!(chunks.len(), 2);
    assert_eq!(offsets_and_levels(&chunks[0]), vec![(80, 0), (50, 0), (70, 1)]);
    assert_eq!(
        offsets_and_levels(&chunks[1]),
        vec![(10, 0), (20, 1), (40, 2), (60, 3), (30, 1)]
    );
    assert_eq!(
        chunks[0].nodes.iter().map(|node| node.base).collect::<Vec<_>>(),
        vec![None, None, Some(1)]
    );
    assert_eq!(
        chunks[1].nodes.iter().map(|node| node.base).collect::<Vec<_>>(),
        vec![None, Some(0), Some(1), Some(2), Some(0)]
    );
    let mut all = indices(&chunks);
    assert_eq!(all, vec![0, 1, 7, 2, 3, 5, 6, 4]);
    all.sort();
    assert_eq!(all, (0..8).collect::<Vec<_>>());
}

#[test]
fn the_last_chunk_has_the_roots_that_remain() {
    let mut tree = Tree::with_capacity(5).unwrap();
    for offset in 1..=5 {
        tree.add_root(offset, ()).unwrap();
    }
    let chunks = tree.seal(6).unwrap().into_chunks(2);
    assert_eq!(
        chunks.iter().map(offsets_and_levels).collect::<Vec<_>>(),
        vec![vec![(5, 0), (4, 0)], vec![(3, 0), (2, 0)], vec![(1, 0)]]
    );
}

#[test]
fn an_empty_tree_has_no_chunks() {
    let tree = Tree::<()>::with_capacity(0).unwrap();
    assert!(tree.seal(0).unwrap().into_chunks(3).is_empty());
}

#[test]
fn what_depends_on_no_root_is_not_handed_out() {
    let mut tree = Tree::with_capacity(3).unwrap();
    tree.add_root(10, ()).unwrap();
    tree.add_child(30, 20, ()).unwrap();
    tree.add_child(20, 30, ()).unwrap();
    let chunks = tree.seal(40).unwrap().into_chunks(1);
    assert_eq!(chunks.len(), 1);
    assert_eq!(offsets_and_levels(&chunks[0]), vec![(10, 0)]);
}

#[test]
fn a_long_chain_is_handed_out_to_its_end() {
    let count: usize = 200_000;
    let mut tree = Tree::with_capacity(count).unwrap();
    tree.add_root(1, ()).unwrap();
    for offset in 2..=count as u64 {
        tree.add_child(offset - 1, offset, ()).unwrap();
    }
    let chunks = tree.seal(count as u64 + 1).unwrap().into_chunks(1);
    assert_eq!(chunks.len(), 1);
    let nodes = &chunks[0].nodes;
    assert_eq!(nodes.len(), count);
    for (at, node) in nodes.iter().enumerate() {
        assert_eq!(node.index, at);
        assert_eq!(node.level, at);
        assert_eq!(node.base, at.checked_sub(1));
        assert_eq!(node.offset(), at as u64 + 1);
        assert_eq!(node.entry_slice(), at as u64 + 1..at as u64 + 2);
    }
}

#[test]
fn each_entry_is_handed_out_once_whatever_the_size_of_the_chunks() {
    for desired_size in 1..6 {
        let mut tree = Tree::with_capacity(9).unwrap();
        tree.add_child(40, 10, ()).unwrap();
        tree.add_root(20, ()).unwrap();
        tree.add_child(20, 30, ()).unwrap();
        tree.add_root(40, ()).unwrap();
        tree.add_child(10, 50, ()).unwrap();
        tree.add_root(60, ()).unwrap();
        tree.add_child(30, 70, ()).unwrap();
        tree.add_root(80, ()).unwrap();
        tree.add_child(80, 90, ()).unwrap();
        let chunks = tree.seal(100).unwrap().into_chunks(desired_size);
        assert_eq!(chunks.len(), (4 + desired_size - 1) / desired_size);
        for chunk in &chunks {
            for (at, node) in chunk.nodes.iter().enumerate() {
                match node.base {
                    Some(base) => {
                        assert!(base < at);
                        assert_eq!(chunk.nodes[base].level + 1, node.level);
                        assert!(chunk.nodes[base].item.children.contains(&(node.index - 4)));
                    }
                    None => assert_eq!(node.level, 0),
                }
            }
        }
        let mut all = indices(&chunks);
        all.sort();
        assert_eq!(all, (0..9).collect::<Vec<_>>());
    }
}
