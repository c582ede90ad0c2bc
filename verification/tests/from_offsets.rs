use std::sync::atomic::AtomicBool;

use git_pack::error::Error;
use git_pack::from_offsets::{Base, Entry};
use git_pack::tree::Tree;

fn entry(offset: u64, base: Base) -> Entry<u64> {
    Entry { offset, base, data: offset }
}

#[test]
fn a_pack_is_built_and_sealed_before_its_checksum() {
    let entries = vec![
        entry(12, Base::Full),
        entry(40, Base::AtOffset(12)),
        entry(80, Base::ById(Some(40))),
        entry(100, Base::ById(None)),
        entry(130, Base::AtOffset(100)),
    ];
    let sealed = Tree::from_entries(entries, 220).unwrap();
    assert_eq!(sealed.len(), 5);
    assert_eq!(sealed.num_roots(), 2);
    let items = sealed.into_items();
    assert_eq!(items.iter().map(|i| i.offset).collect::<Vec<_>>(), vec![100, 12, 40, 80, 130]);
    assert_eq!(items.iter().map(|i| i.data).collect::<Vec<_>>(), vec![100, 12, 40, 80, 130]);
    assert_eq!(
        items.iter().map(|i| i.next_offset).collect::<Vec<_>>(),
        vec![130, 40, 80, 100, 200]
    );
    assert_eq!(items[0].children, vec![2]);
    assert_eq!(items[1].children, vec![0]);
    assert_eq!(items[2].children, vec![1]);
}

#[test]
fn a_pack_of_nothing_but_its_checksum() {
    let sealed = Tree::<()>::from_entries(Vec::new(), 20).unwrap();
    assert_eq!(sealed.len(), 0);
    assert!(sealed.into_chunks(1).is_empty());
}

#[test]
fn entries_out_of_order_are_refused() {
    let entries = vec![entry(12, Base::Full), entry(12, Base::AtOffset(12)), entry(1, Base::Full)];
    match Tree::from_entries(entries, 100) {
        Err(e) => assert_eq!(e, Error::IncreasingOffsetViolation { last: 12, current: 12 }),
        Ok(_) => panic!("the second entry does not start after the first"),
    }
}

#[test]
fn a_base_that_is_no_entry_is_reported() {
    let entries = vec![entry(12, Base::Full), entry(40, Base::ById(Some(13)))];
    match Tree::from_entries(entries, 100) {
        Err(e) => assert_eq!(e, Error::DanglingBaseOffset { base_offset: 13 }),
        Ok(_) => panic!("no entry starts at 13"),
    }
}

#[test]
fn a_flag_that_is_set_stops_the_build() {
    let entries = vec![entry(12, Base::Full)];
    match Tree::from_entries_unless_interrupted(entries, 100, &AtomicBool::new(true)) {
        Err(e) => assert_eq!(e, Error::Interrupted),
        Ok(_) => panic!("the flag was set"),
    }
    let entries = vec![entry(12, Base::Full), entry(30, Base::AtOffset(12))];
    let sealed = Tree::from_entries_unless_interrupted(entries, 100, &AtomicBool::new(false)).unwrap();
    assert_eq!(sealed.into_items()[1].next_offset, 80);
}

#[test]
fn entries_are_added_one_by_one() {
    let mut tree = Tree::with_capacity(3).unwrap();
    assert_eq!(tree.capacity(), 3);
    tree.next_entry(false, entry(5, Base::AtOffset(9))).unwrap();
    assert_eq!(tree.num_pending(), 1);
    assert_eq!(tree.next_entry(true, entry(9, Base::Full)), Err(Error::Interrupted));
    assert_eq!(tree.len(), 1);
    tree.next_entry(false, entry(9, Base::Full)).unwrap();
    assert_eq!(
        tree.next_entry(false, entry(9, Base::ById(None))),
        Err(Error::IncreasingOffsetViolation { last: 9, current: 9 })
    );
    tree.next_entry(false, entry(11, Base::ById(Some(9)))).unwrap();
    assert_eq!(
        tree.next_entry(false, entry(12, Base::Full)),
        Err(Error::CapacityExceeded { declared: 3 })
    );
    assert_eq!((tree.len(), tree.num_roots(), tree.num_pending()), (3, 1, 1));
    let mut chunks = tree.seal(20).unwrap().into_chunks(4);
    assert_eq!(chunks.len(), 1);
    let nodes = &mut chunks[0].nodes;
    assert_eq!(nodes.iter().map(|n| n.offset()).collect::<Vec<_>>(), vec![9, 11, 5]);
    assert_eq!(nodes.iter().map(|n| n.level).collect::<Vec<_>>(), vec![0, 1, 1]);
    assert_eq!(nodes.iter().map(|n| n.index).collect::<Vec<_>>(), vec![0, 2, 1]);
    assert_eq!(nodes[0].entry_slice(), 9..11);
    assert_eq!(nodes[1].entry_slice(), 11..20);
    assert_eq!(nodes[2].entry_slice(), 5..9);
    *nodes[2].data() = 77;
    assert_eq!(nodes[2].item.data, 77);
    assert_eq!(nodes[2].offset(), 5);
}

#[test]
fn a_pack_without_entries_is_built_whatever_the_flag_says() {
    let sealed =
        Tree::<()>::from_entries_unless_interrupted(Vec::new(), 20, &AtomicBool::new(true)).unwrap();
    assert_eq!(sealed.len(), 0);
    assert!(sealed.into_items().is_empty());
}
