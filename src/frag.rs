use vstd::prelude::*;

use crate::data::{Data, PageId, DATA_SIZE};
use crate::ivec::{saturating_add, IVec};

verus! {

/// Footprint of a `Page` value itself.
pub const PAGE_SIZE: u64 = 96;

/// A full snapshot of a page: its payload, its key bounds and its right
/// sibling.
#[derive(Debug)]
pub struct Page {
    /// Entries, keys encoded against `lo`.
    pub data: Data,
    /// Inclusive lower bound of the page's keys.
    pub lo: IVec,
    /// Exclusive upper bound of the page's keys; empty for no bound.
    pub hi: IVec,
    /// Right sibling in the B-link chain.
    pub next: PageId,
}

impl Page {
    /// The payload is well formed with respect to the lower bound.
    pub open spec fn wf(&self) -> bool {
        self.data.wf(self.lo@)
    }

    pub open spec fn spec_size(&self) -> u64 {
        saturating_add(
            saturating_add(saturating_add(PAGE_SIZE, self.lo@.len() as int), self.hi@.len() as int),
            self.data.spec_size() as int,
        )
    }

    /// Memory taken by the snapshot. Saturates instead of overflowing.
    pub fn size_in_bytes(&self) -> (r: u64)
        ensures
            r == self.spec_size(),
    {
        PAGE_SIZE.saturating_add(self.lo.len() as u64).saturating_add(self.hi.len() as u64).saturating_add(
            self.data.size_in_bytes(),
        )
    }

    /// An independent copy.
    pub fn duplicate(&self) -> (r: Page)
        ensures
            r.data@ == self.data@,
            r.lo@ == self.lo@,
            r.hi@ == self.hi@,
            r.next == self.next,
    {
        Page { data: self.data.duplicate(), lo: self.lo.duplicate(), hi: self.hi.duplicate(), next: self.next }
    }
}

impl Default for Page {
    /// An empty leaf with empty bounds and no sibling.
    fn default() -> (r: Page)
        ensures
            r.data@ == crate::data::DataView::Leaf(Seq::empty()),
            r.lo@.len() == 0,
            r.hi@.len() == 0,
            r.next == 0,
    {
        let r = Page {
            data: Data::Leaf(Vec::new()),
            lo: IVec::new(&[]),
            hi: IVec::new(&[]),
            next: 0,
        };
        assert(r.data@->Leaf_0 =~= Seq::empty());
        r
    }
}

/// Witness that a page was split: keys from `at` on moved to page `to`.
#[derive(Debug)]
pub struct ChildSplit {
    pub at: IVec,
    pub to: PageId,
}

/// Witness that an index page gained the separator `at` routing to `to`.
#[derive(Debug)]
pub struct ParentSplit {
    pub at: IVec,
    pub to: PageId,
}

/// Store-wide metadata: the root page of each tree, by tree name.
#[derive(Debug)]
pub struct Meta {
    pub roots: Vec<(IVec, PageId)>,
}

/// One record of a page's delta chain.
#[derive(Debug)]
pub enum Frag {
    /// Set a key (encoded against the page's lower bound) to a value.
    Put(IVec, IVec),
    /// Remove a key (encoded against the page's lower bound).
    Del(IVec),
    /// Combine a key's value with an operand through a merge operator.
    Merge(IVec, IVec),
    /// A full snapshot of the page.
    Base(Page),
    ChildSplit(ChildSplit),
    ParentSplit(ParentSplit),
    /// A monotonic counter value.
    Counter(usize),
    Meta(Meta),
}

impl Frag {
    /// The snapshot of a `Base` record.
    pub fn unwrap_base(&self) -> (r: &Page)
        requires
            *self is Base,
        ensures
            *r == self->Base_0,
    {
        match self {
            Frag::Base(base) => base,
            _ => {
                assert(false);
                unreached()
            },
        }
    }

    /// The metadata of a `Meta` record.
    pub fn unwrap_meta(&self) -> (r: &Meta)
        requires
            *self is Meta,
        ensures
            *r == self->Meta_0,
    {
        match self {
            Frag::Meta(meta) => meta,
            _ => {
                assert(false);
                unreached()
            },
        }
    }

    /// Replaces the key of a `Put`, `Del` or `Merge` record, keeping the rest.
    pub fn set_key(&mut self, key: IVec)
        requires
            *old(self) is Put || *old(self) is Del || *old(self) is Merge,
        ensures
            match *old(self) {
                Frag::Put(_, v) => *final(self) == Frag::Put(key, v),
                Frag::Del(_) => *final(self) == Frag::Del(key),
                Frag::Merge(_, v) => *final(self) == Frag::Merge(key, v),
                _ => false,
            },
    {
        let mut cur = Frag::Counter(0);
        core::mem::swap(self, &mut cur);
        match cur {
            Frag::Put(_, v) => *self = Frag::Put(key, v),
            Frag::Del(_) => *self = Frag::Del(key),
            Frag::Merge(_, v) => *self = Frag::Merge(key, v),
            other => *self = other,
        }
    }

    /// Whether this is a counter record.
    pub fn is_counter(&self) -> (r: bool)
        ensures
            r == (*self is Counter),
    {
        match self {
            Frag::Counter(_) => true,
            _ => false,
        }
    }

    /// The value of a counter record.
    pub fn counter_value(&self) -> (r: usize)
        requires
            *self is Counter,
        ensures
            r == self->Counter_0,
    {
        match self {
            Frag::Counter(c) => *c,
            _ => {
                assert(false);
                unreached()
            },
        }
    }

    /// Memory taken by the record itself.
    pub open spec fn spec_size(&self) -> u64 {
        match self {
            Frag::Base(p) => saturating_add(FRAG_SIZE, p.spec_size() as int),
            _ => FRAG_SIZE,
        }
    }
}

/// Footprint of a `Frag` value itself.
pub const FRAG_SIZE: u64 = DATA_SIZE + PAGE_SIZE;

} // verus!
