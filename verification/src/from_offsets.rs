//! Building a tree from the entries of a pack, as they are read front to back.
use vstd::prelude::*;
use std::sync::atomic::{AtomicBool, Ordering};
use crate::error::Error;
use crate::index::HASH_LEN;
use crate::model::TreeView;
use crate::tree::{outcome, SealedTree, Tree};

verus! {

/// What an entry of a pack is made from.
#[derive(Debug, Clone, Copy, PartialEq, Eq)]
pub enum Base {
    /// Nothing: the entry is an object in full.
    Full,
    /// The entry of the same pack that starts at this offset: the entry is a delta against it.
    AtOffset(u64),
    /// An object that the entry names by its id: the entry is a delta against it. The
    /// offset is where the object starts in this pack, if it is in this pack.
    ById(Option<u64>),
}

impl Base {
    /// The offset of the entry of this pack against which an entry is a delta, if there is one.
    /// A delta against an object that is not in this pack counts as a root: its base
    /// is to be found elsewhere.
    pub open spec fn offset_in_pack(self) -> Option<u64> {
        match self {
            Base::Full => None,
            Base::AtOffset(offset) => Some(offset),
            Base::ById(found) => found,
        }
    }
}

/// An entry of a pack as it comes from reading the pack.
#[derive(Debug, Clone, PartialEq, Eq)]
pub struct Entry<T> {
    /// Where the entry starts in the pack.
    pub offset: u64,
    /// What the entry is made from.
    pub base: Base,
    /// What the user keeps with the entry.
    pub data: T,
}

/// The tree after `entry` was added to `tree`, or why it cannot be added.
pub open spec fn after_entry<T>(tree: TreeView<T>, entry: Entry<T>) -> Result<TreeView<T>, Error> {
    match tree.refusal(entry.offset) {
        Some(e) => Err(e),
        None => Ok(
            match entry.base.offset_in_pack() {
                Some(base_offset) => tree.with_child(base_offset, entry.offset, entry.data),
                None => tree.with_root(entry.offset, entry.data),
            },
        ),
    }
}

/// The tree for as many entries as `entries` has, after they were added one after the other,
/// or why the first of them that cannot be added cannot.
pub open spec fn after_entries<T>(entries: Seq<Entry<T>>, count: int) -> Result<TreeView<T>, Error>
    decreases count,
{
    if count <= 0 {
        Ok(
            TreeView {
                capacity: entries.len(),
                roots: Seq::empty(),
                children: Seq::empty(),
                pending: Seq::empty(),
                inserted: Seq::empty(),
            },
        )
    } else {
        match after_entries(entries, count - 1) {
            Ok(tree) => after_entry(tree, entries[count - 1]),
            Err(e) => Err(e),
        }
    }
}

/// Where the entries of a pack of `pack_len` bytes end: where its trailing checksum starts.
pub open spec fn entries_end(pack_len: u64) -> u64
    recommends
        pack_len >= HASH_LEN,
{
    (pack_len - HASH_LEN) as u64
}

/// What a tree that was built is to its entries: it is sealed from the tree that the
/// entries give, or it fails as adding the entries or sealing that tree fails.
pub open spec fn built_from<T>(
    entries: Seq<Entry<T>>,
    pack_len: u64,
    outcome: Result<TreeView<T>, Error>,
) -> bool {
    match after_entries(entries, entries.len() as int) {
        Err(e) => outcome == Err::<TreeView<T>, Error>(e),
        Ok(tree) => tree.seals_to(entries_end(pack_len), outcome),
    }
}

/// Whether the flag is set.
fn is_set(flag: &AtomicBool) -> bool {
    flag.load(Ordering::Relaxed)
}

impl<T> Tree<T> {
    /// Adds the next entry of a pack, unless `interrupted` tells to stop: a root, if the
    /// entry is made from no entry of this pack, and else a child of the entry it is made from.
    pub fn next_entry(&mut self, interrupted: bool, entry: Entry<T>) -> (r: Result<(), Error>)
        requires
            old(self).wf(),
        ensures
            final(self).wf(),
            if interrupted {
                r == Err::<(), Error>(Error::Interrupted) && final(self)@ == old(self)@
            } else {
                match after_entry(old(self)@, entry) {
                    Ok(tree) => r == Ok::<(), Error>(()) && final(self)@ == tree,
                    Err(e) => r == Err::<(), Error>(e) && final(self)@ == old(self)@,
                }
            },
    {
        if interrupted {
            return Err(Error::Interrupted);
        }
        let Entry { offset, base, data } = entry;
        match base {
            Base::AtOffset(base_offset) => self.add_child(base_offset, offset, data),
            Base::ById(Some(base_offset)) => self.add_child(base_offset, offset, data),
            Base::Full => self.add_root(offset, data),
            Base::ById(None) => self.add_root(offset, data),
        }
    }

    /// Builds the tree of a pack of `pack_len` bytes from its entries in the order of the
    /// pack, and seals it where the trailing checksum of the pack starts. Between two
    /// entries `should_interrupt` is read, if it is given: once it is set, the tree is given up.
    #[verifier::rlimit(40)]
    fn build(entries: Vec<Entry<T>>, pack_len: u64, should_interrupt: Option<&AtomicBool>) -> (r: Result<
        SealedTree<T>,
        Error,
    >)
        requires
            pack_len >= HASH_LEN,
        ensures
            r matches Ok(sealed) ==> sealed.wf(),
            r == Err::<SealedTree<T>, Error>(Error::Interrupted) && should_interrupt is Some
                || built_from(entries@, pack_len, outcome(r)),
            entries@.len() == 0 ==> built_from(entries@, pack_len, outcome(r)),
    {
        let mut tree = match Tree::with_capacity(entries.len()) {
            Ok(tree) => tree,
            Err(e) => {
                return Err(e);
            },
        };
        for entry in it: entries
            invariant
                it.seq() == entries@,
                tree.wf(),
                after_entries(entries@, it.index()) == Ok::<TreeView<T>, Error>(tree@),
        {
            let interrupted = match should_interrupt {
                Some(flag) => is_set(flag),
                None => false,
            };
            match tree.next_entry(interrupted, entry) {
                Ok(_) => {},
                Err(e) => {
                    proof {
                        if !interrupted {
                            lemma_failure_stays(entries@, it.index() + 1, entries@.len() as int);
                        }
                    }
                    return Err(e);
                },
            }
        }
        let ghost added = tree@;
        let r = tree.seal(pack_len - HASH_LEN as u64);
        proof {
            assert(after_entries(entries@, entries@.len() as int) == Ok::<TreeView<T>, Error>(added));
            assert(added.seals_to(entries_end(pack_len), outcome(r)));
        }
        r
    }

    /// Builds the tree of a pack of `pack_len` bytes from its entries in the order of the
    /// pack, and seals it where the trailing checksum of the pack starts.
    pub fn from_entries(entries: Vec<Entry<T>>, pack_len: u64) -> (r: Result<SealedTree<T>, Error>)
        requires
            pack_len >= HASH_LEN,
        ensures
            r matches Ok(sealed) ==> sealed.wf(),
            built_from(entries@, pack_len, outcome(r)),
    {
        Tree::build(entries, pack_len, None)
    }

    /// Builds the tree of a pack as `from_entries` does, and reads `should_interrupt` before
    /// each entry: once it is set, the tree is given up and `Interrupted` is the failure.
    /// Of a pack without entries the flag is not read.
    pub fn from_entries_unless_interrupted(
        entries: Vec<Entry<T>>,
        pack_len: u64,
        should_interrupt: &AtomicBool,
    ) -> (r: Result<SealedTree<T>, Error>)
        requires
            pack_len >= HASH_LEN,
        ensures
            r matches Ok(sealed) ==> sealed.wf(),
            r == Err::<SealedTree<T>, Error>(Error::Interrupted) || built_from(
                entries@,
                pack_len,
                outcome(r),
            ),
            entries@.len() == 0 ==> built_from(entries@, pack_len, outcome(r)),
    {
        Tree::build(entries, pack_len, Some(should_interrupt))
    }
}

/// Once an entry cannot be added, the entries after it change nothing.
proof fn lemma_failure_stays<T>(entries: Seq<Entry<T>>, count: int, later: int)
    requires
        0 <= count <= later,
        after_entries(entries, count) is Err,
    ensures
        after_entries(entries, later) == after_entries(entries, count),
    decreases later - count,
{
    if count < later {
        lemma_failure_stays(entries, count, later - 1);
    }
}

} // verus!
