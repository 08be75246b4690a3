//! Dense integer identifiers for definitions, input files and tag sets.
//!
//! Each id is a newtyped counter value; the resolver owns the counters and
//! mints ids with `inc_one`, which hands back the current value and
//! post-increments, so two successive calls always yield distinct ids.
use vstd::prelude::*;

verus! {

/// Identifier of a definition (item, field, enum variant or method).
#[derive(Clone, Copy, Debug, PartialEq, Eq, Structural, Hash)]
pub struct DefId(pub usize);

/// Identifier of an input file.
#[derive(Clone, Copy, Debug, PartialEq, Eq, Structural, Hash)]
pub struct FileId(pub usize);

/// Identifier of a stored tag set.
#[derive(Clone, Copy, Debug, PartialEq, Eq, Structural, Hash)]
pub struct TagId(pub usize);

impl DefId {
    pub fn from_usize(v: usize) -> (r: DefId)
        ensures
            r.0 == v,
    {
        DefId(v)
    }

    pub fn as_usize(self) -> (r: usize)
        ensures
            r == self.0,
    {
        self.0
    }

    /// Returns the current value and post-increments the counter.
    pub fn inc_one(&mut self) -> (r: DefId)
        requires
            old(self).0 < usize::MAX,
        ensures
            r == *old(self),
            final(self).0 == old(self).0 + 1,
    {
        let cur = *self;
        self.0 = self.0 + 1;
        cur
    }
}

impl FileId {
    pub fn from_usize(v: usize) -> (r: FileId)
        ensures
            r.0 == v,
    {
        FileId(v)
    }

    pub fn as_usize(self) -> (r: usize)
        ensures
            r == self.0,
    {
        self.0
    }

    /// Returns the current value and post-increments the counter.
    pub fn inc_one(&mut self) -> (r: FileId)
        requires
            old(self).0 < usize::MAX,
        ensures
            r == *old(self),
            final(self).0 == old(self).0 + 1,
    {
        let cur = *self;
        self.0 = self.0 + 1;
        cur
    }
}

impl TagId {
    pub fn from_usize(v: usize) -> (r: TagId)
        ensures
            r.0 == v,
    {
        TagId(v)
    }

    pub fn as_usize(self) -> (r: usize)
        ensures
            r == self.0,
    {
        self.0
    }

    /// Returns the current value and post-increments the counter.
    pub fn inc_one(&mut self) -> (r: TagId)
        requires
            old(self).0 < usize::MAX,
        ensures
            r == *old(self),
            final(self).0 == old(self).0 + 1,
    {
        let cur = *self;
        self.0 = self.0 + 1;
        cur
    }
}

} // verus!
