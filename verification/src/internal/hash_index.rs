//! An index of slots by their hashes.

use hashbrown::HashTable;

use vstd::multiset::Multiset;
use vstd::prelude::*;

verus! {

/// More items than this are not indexed.
///
/// The largest table that can be allocated has one bucket for every 64 bytes of the address space,
/// and seven eighths of its buckets can be in use. A table that is more than half full of items may
/// have to grow because of those that were removed, so half of that is always safe.
pub const INDEX_LIMIT: usize = 7 * (usize::MAX / 1024 + 1);

/// A [`HashTable`] of slot indices, each with the hash that it is found by.
///
/// The hash goes along with the index, so that the table can be grown without a look at the slots.
#[verifier::external_body]
pub struct HashIndex {
    table: HashTable<(u64, usize)>,
}

/// The items of an index: pairs of a hash and a slot index.
pub uninterp spec fn index_items(index: HashIndex) -> Multiset<(u64, usize)>;

impl View for HashIndex {
    type V = Multiset<(u64, usize)>;

    open spec fn view(&self) -> Multiset<(u64, usize)> {
        index_items(*self)
    }
}

impl HashIndex {
    /// Calls [`HashTable::with_capacity`], which makes an empty table.
    #[verifier::external_body]
    pub(crate) fn with_capacity(capacity: usize) -> (index: Self)
        requires
            capacity <= INDEX_LIMIT,
        ensures
            index_items(index) == Multiset::<(u64, usize)>::empty(),
    {
        HashIndex { table: HashTable::with_capacity(capacity) }
    }

    /// Calls [`HashTable::insert_unique`], which adds an item without a look at the others. An item
    /// is inserted with the hash that it holds.
    #[verifier::external_body]
    pub(crate) fn insert_unique(&mut self, item: (u64, usize))
        requires
            index_items(*old(self)).len() < INDEX_LIMIT,
        ensures
            index_items(*final(self)) == index_items(*old(self)).insert(item),
    {
        self.table.insert_unique(item.0, item, |item| item.0);
    }

    /// Calls [`HashTable::find`], which tests every item with the given hash, and possibly others,
    /// until `eq` accepts one.
    #[verifier::external_body]
    pub(crate) fn find<F: Fn(&(u64, usize)) -> bool>(&self, hash: u64, eq: F) -> (found: Option<
        (u64, usize),
    >)
        requires
            forall|item: (u64, usize)| #[trigger]
                index_items(*self).contains(item) ==> call_requires(eq, (&item,)),
        ensures
            match found {
                Some(item) => index_items(*self).contains(item) && call_ensures(eq, (&item,), true),
                None => forall|item: (u64, usize)|
                    #![trigger index_items(*self).contains(item)]
                    index_items(*self).contains(item) && item.0 == hash ==> call_ensures(
                        eq,
                        (&item,),
                        false,
                    ),
            },
    {
        self.table.find(hash, eq).copied()
    }

    /// Calls [`HashTable::find_entry`], which tests every item with the given hash, and possibly
    /// others, until `eq` accepts one, and removes the entry that it finds.
    #[verifier::external_body]
    pub(crate) fn remove<F: Fn(&(u64, usize)) -> bool>(&mut self, hash: u64, eq: F) -> (removed:
        Option<(u64, usize)>)
        requires
            forall|item: (u64, usize)| #[trigger]
                index_items(*old(self)).contains(item) ==> call_requires(eq, (&item,)),
        ensures
            match removed {
                Some(item) => {
                    &&& index_items(*old(self)).contains(item)
                    &&& call_ensures(eq, (&item,), true)
                    &&& index_items(*final(self)) == index_items(*old(self)).remove(item)
                },
                None => {
                    &&& forall|item: (u64, usize)|
                        #![trigger index_items(*old(self)).contains(item)]
                        index_items(*old(self)).contains(item) && item.0 == hash ==> call_ensures(
                            eq,
                            (&item,),
                            false,
                        )
                    &&& index_items(*final(self)) == index_items(*old(self))
                },
            },
    {
        self.table.find_entry(hash, eq).ok().map(|entry| entry.remove().0)
    }

    /// Calls [`HashTable::len`], the number of items.
    #[verifier::external_body]
    pub(crate) fn len(&self) -> (len: usize)
        ensures
            len == index_items(*self).len(),
    {
        self.table.len()
    }
}

} // verus!
