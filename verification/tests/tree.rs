use git_pack::error::Error;
use git_pack::tree::Tree;

fn offsets(items: &std::collections::VecDeque<git_pack::item::Item<char>>) -> Vec<u64> {
    items.iter().map(|item| item.offset).collect()
}

#[test]
fn two_roots_without_children() {
    let mut tree = Tree::with_capacity(2).unwrap();
    tree.add_root(12, 'A').unwrap();
    tree.add_root(64, 'B').unwrap();
    let items = tree.seal(100).unwrap().into_items();
    assert_eq!(offsets(&items), vec![64, 12]);
    assert_eq!(items[0].data, 'B');
    assert_eq!(items[0].next_offset, 100);
    assert_eq!(items[1].data, 'A');
    assert_eq!(items[1].next_offset, 64);
    assert!(items.iter().all(|item| item.children.is_empty()));
}

#[test]
fn a_chain_of_deltas() {
    let mut tree = Tree::with_capacity(3).unwrap();
    tree.add_root(12, 'a').unwrap();
    tree.add_child(12, 40, 'b').unwrap();
    tree.add_child(40, 80, 'c').unwrap();
    let items = tree.seal(120).unwrap().into_items();
    assert_eq!(offsets(&items), vec![12, 40, 80]);
    assert_eq!(items[0].children, vec![0]);
    assert_eq!(items[1].children, vec![1]);
    assert!(items[2].children.is_empty());
    assert_eq!(items[0].next_offset, 40);
    assert_eq!(items[1].next_offset, 80);
    assert_eq!(items[2].next_offset, 120);
}

#[test]
fn a_base_that_comes_after_its_delta() {
    let mut tree = Tree::with_capacity(3).unwrap();
    tree.add_root(12, 'a').unwrap();
    tree.add_child(80, 40, 'b').unwrap();
    tree.add_root(80, 'c').unwrap();
    let unsealed = Tree::<char>::with_capacity(0).unwrap().into_items();
    assert!(unsealed.is_empty());
    let items = tree.seal(120).unwrap().into_items();
    assert_eq!(offsets(&items), vec![80, 12, 40]);
    assert_eq!(items[0].children, vec![0]);
    assert!(items[1].children.is_empty());
    assert!(items[2].children.is_empty());
    assert_eq!(items[0].next_offset, 120);
    assert_eq!(items[1].next_offset, 40);
    assert_eq!(items[2].next_offset, 80);
}

#[test]
fn an_offset_that_does_not_grow_is_refused() {
    let mut tree = Tree::with_capacity(4).unwrap();
    tree.add_root(64, ()).unwrap();
    assert_eq!(
        tree.add_root(64, ()),
        Err(Error::IncreasingOffsetViolation { last: 64, current: 64 })
    );
    assert_eq!(
        tree.add_child(64, 63, ()),
        Err(Error::IncreasingOffsetViolation { last: 64, current: 63 })
    );
    tree.add_child(64, 65, ()).unwrap();
    assert_eq!(
        tree.add_root(65, ()),
        Err(Error::IncreasingOffsetViolation { last: 65, current: 65 })
    );
    let items = tree.into_items();
    assert_eq!(items.len(), 2);
    assert_eq!(items[0].next_offset, 65);
    assert_eq!(items[0].children, vec![0]);
}

#[test]
fn a_base_that_never_comes_is_reported() {
    let mut tree = Tree::with_capacity(2).unwrap();
    tree.add_root(12, ()).unwrap();
    tree.add_child(999, 40, ()).unwrap();
    match tree.seal(80) {
        Err(e) => assert_eq!(e, Error::DanglingBaseOffset { base_offset: 999 }),
        Ok(_) => panic!("the base at 999 is no entry"),
    }
}

#[test]
fn the_first_of_two_missing_bases_is_reported() {
    let mut tree = Tree::with_capacity(3).unwrap();
    tree.add_child(7, 10, ()).unwrap();
    tree.add_child(5, 20, ()).unwrap();
    tree.add_child(10, 30, ()).unwrap();
    match tree.seal(40) {
        Err(e) => assert_eq!(e, Error::DanglingBaseOffset { base_offset: 7 }),
        Ok(_) => panic!("the bases at 7 and 5 are no entries"),
    }
}

#[test]
fn no_more_entries_than_declared() {
    let mut tree = Tree::with_capacity(1).unwrap();
    tree.add_root(1, ()).unwrap();
    assert_eq!(tree.add_root(2, ()), Err(Error::CapacityExceeded { declared: 1 }));
    assert_eq!(tree.add_child(1, 2, ()), Err(Error::CapacityExceeded { declared: 1 }));
    assert_eq!(
        tree.add_root(1, ()),
        Err(Error::IncreasingOffsetViolation { last: 1, current: 1 })
    );
    let items = tree.into_items();
    assert_eq!(items.len(), 1);
    assert_eq!(items[0].next_offset, 0);
    let mut none = Tree::with_capacity(0).unwrap();
    assert_eq!(none.add_child(0, 0, ()), Err(Error::CapacityExceeded { declared: 0 }));
}

#[test]
fn a_delta_against_itself_waits_and_is_listed_by_itself() {
    let mut tree = Tree::with_capacity(1).unwrap();
    tree.add_child(40, 40, ()).unwrap();
    let items = tree.seal(50).unwrap().into_items();
    assert_eq!(items[0].children, vec![0]);
    assert_eq!(items[0].next_offset, 50);
}

#[test]
fn children_are_listed_in_the_order_they_came_then_those_that_waited() {
    let mut tree = Tree::with_capacity(5).unwrap();
    tree.add_child(30, 10, 0u8).unwrap();
    tree.add_child(30, 20, 1).unwrap();
    tree.add_root(30, 2).unwrap();
    tree.add_child(30, 40, 3).unwrap();
    tree.add_child(20, 50, 4).unwrap();
    let items = tree.seal(60).unwrap().into_items();
    assert_eq!(items.iter().map(|i| i.data).collect::<Vec<_>>(), vec![2, 0, 1, 3, 4]);
    assert_eq!(items[0].children, vec![2, 0, 1]);
    assert_eq!(items[2].children, vec![3]);
    assert_eq!(items.iter().map(|i| i.next_offset).collect::<Vec<_>>(), vec![40, 20, 30, 50, 60]);
}

#[test]
fn sealing_an_empty_tree_gives_an_empty_tree() {
    let tree = Tree::<u8>::with_capacity(5).unwrap();
    assert!(tree.seal(0).unwrap().into_items().is_empty());
}

#[test]
fn the_base_on_which_sealing_fails_can_be_asked_for() {
    let mut tree = Tree::with_capacity(3).unwrap();
    tree.add_child(30, 10, ()).unwrap();
    tree.add_child(25, 20, ()).unwrap();
    assert_eq!(tree.dangling_base(), Some(30));
    assert_eq!(tree.dangling_base(), Some(30));
    tree.add_root(30, ()).unwrap();
    assert_eq!(tree.dangling_base(), Some(25));
    assert_eq!((tree.len(), tree.num_roots(), tree.num_pending(), tree.capacity()), (3, 1, 2, 3));
    match tree.seal(40) {
        Err(e) => assert_eq!(e, Error::DanglingBaseOffset { base_offset: 25 }),
        Ok(_) => panic!("no entry starts at 25"),
    }
    let mut tree = Tree::with_capacity(2).unwrap();
    tree.add_child(20, 10, ()).unwrap();
    tree.add_child(10, 20, ()).unwrap();
    assert_eq!(tree.dangling_base(), None);
    assert!(tree.seal(30).is_ok());
}

#[test]
fn an_end_before_the_newest_entry_is_taken_as_it_is() {
    let mut tree = Tree::with_capacity(2).unwrap();
    tree.add_root(12, ()).unwrap();
    tree.add_root(64, ()).unwrap();
    let items = tree.seal(10).unwrap().into_items();
    assert_eq!(items[0].next_offset, 10);
    assert_eq!(items[1].next_offset, 64);
}

#[test]
fn resolving_fails_again_in_the_same_way_and_changes_nothing() {
    let mut tree = Tree::with_capacity(2).unwrap();
    tree.add_root(12, 'a').unwrap();
    tree.add_child(999, 40, 'b').unwrap();
    for _ in 0..2 {
        assert_eq!(
            tree.set_pack_entries_end_and_resolve_ref_offsets(80),
            Err(Error::DanglingBaseOffset { base_offset: 999 })
        );
        assert_eq!((tree.len(), tree.num_roots(), tree.num_pending()), (2, 1, 1));
    }
    let items = tree.into_items();
    assert_eq!(items[0].next_offset, 40);
    assert!(items[0].children.is_empty());
    assert_eq!(items[1].next_offset, 0);
    assert!(items[1].children.is_empty());
}

#[test]
fn resolving_in_place_lists_each_child_that_waited() {
    let mut tree = Tree::with_capacity(4).unwrap();
    tree.add_child(30, 10, ()).unwrap();
    tree.add_child(10, 20, ()).unwrap();
    tree.add_root(30, ()).unwrap();
    tree.add_child(30, 40, ()).unwrap();
    assert_eq!(tree.set_pack_entries_end_and_resolve_ref_offsets(50), Ok(()));
    assert_eq!(tree.num_pending(), 0);
    assert_eq!(tree.dangling_base(), None);
    let items = tree.into_items();
    assert_eq!(items.iter().map(|i| i.offset).collect::<Vec<_>>(), vec![30, 10, 20, 40]);
    assert_eq!(items.iter().map(|i| i.next_offset).collect::<Vec<_>>(), vec![40, 20, 30, 50]);
    assert_eq!(items[0].children, vec![2, 0]);
    assert_eq!(items[1].children, vec![1]);
    let mut empty = Tree::<()>::with_capacity(0).unwrap();
    assert_eq!(empty.set_pack_entries_end_and_resolve_ref_offsets(7), Ok(()));
    assert!(empty.into_items().is_empty());
}

#[test]
fn the_newest_entry_ends_at_an_offset_that_grows() {
    let mut tree = Tree::with_capacity(2).unwrap();
    assert_eq!(tree.assert_is_incrementing_and_update_next_offset(0), Ok(()));
    assert_eq!(tree.len(), 0);
    tree.add_root(64, ()).unwrap();
    assert_eq!(
        tree.assert_is_incrementing_and_update_next_offset(64),
        Err(Error::IncreasingOffsetViolation { last: 64, current: 64 })
    );
    assert_eq!(
        tree.assert_is_incrementing_and_update_next_offset(3),
        Err(Error::IncreasingOffsetViolation { last: 64, current: 3 })
    );
    assert_eq!(tree.assert_is_incrementing_and_update_next_offset(70), Ok(()));
    tree.add_child(64, 65, ()).unwrap();
    assert_eq!(tree.assert_is_incrementing_and_update_next_offset(66), Ok(()));
    let items = tree.into_items();
    assert_eq!(items[0].next_offset, 65);
    assert_eq!(items[1].next_offset, 66);
}
