//! Shifting the node ids that an iterator yields by a fixed offset.
use vstd::prelude::*;

verus! {

/// A struct handling the offsetting of node ids: the ids that `iterator`
/// yields, each shifted by `offset`.
#[derive(Clone, Debug)]
pub struct Offset<I> {
    /// The offset to apply to the nodes: zero for the source nodes, and the
    /// number of source nodes for the destination nodes.
    offset: isize,
    /// The iterator over the nodes.
    iterator: I,
}

impl<I> Offset<I> {
    /// The offset applied to the nodes.
    pub closed spec fn offset_of(&self) -> isize {
        self.offset
    }

    /// The iterator over the nodes.
    pub closed spec fn iterator_of(&self) -> I {
        self.iterator
    }

    /// Returns a new Offset struct.
    pub fn new(offset: isize, iterator: I) -> (r: Self)
        ensures
            r.offset_of() == offset,
            r.iterator_of() == iterator,
    {
        Offset { offset, iterator }
    }

    /// The id under which a node of the inner iterator is yielded.
    pub fn shift(&self, node: usize) -> (r: usize)
        requires
            isize::MIN <= (node as isize) + self.offset_of() <= isize::MAX,
        ensures
            r == ((node as isize) + self.offset_of()) as usize,
    {
        (node as isize + self.offset) as usize
    }
}

/// Trait implementing the offset method.
pub trait Offsettable: Sized {
    /// Returns an offsetted iterator.
    fn offset(self, offset: isize) -> (r: Offset<Self>)
        ensures
            r.offset_of() == offset,
            r.iterator_of() == self,
    ;
}

impl<I: Iterator<Item = usize>> Offsettable for I {
    fn offset(self, offset: isize) -> (r: Offset<Self>) {
        Offset::new(offset, self)
    }
}

} // verus!
