//! Small helpers on vectors.

use vstd::prelude::*;

verus! {

/// Indexing that wraps around the end of a vector.
pub trait VecExt<T> {
    /// The items of the vector.
    spec fn items(&self) -> Seq<T>;

    /// The item at `index` modulo the length. The vector must not be empty.
    fn wrapping_get(&self, index: usize) -> (item: Option<&T>)
        requires
            self.items().len() > 0,
        ensures
            item == Some(&self.items()[index as int % self.items().len() as int]),
    ;

    /// The item at `index` modulo the length, for writing. The vector must not
    /// be empty.
    fn wrapping_get_mut(&mut self, index: usize) -> (item: Option<&mut T>)
        requires
            old(self).items().len() > 0,
        ensures
            item is Some,
            *item.unwrap() == old(self).items()[index as int % old(self).items().len() as int],
            final(self).items() == old(self).items().update(
                index as int % old(self).items().len() as int,
                *final(item.unwrap()),
            ),
    ;
}

impl<T> VecExt<T> for Vec<T> {
    open spec fn items(&self) -> Seq<T> {
        self@
    }

    fn wrapping_get(&self, index: usize) -> (item: Option<&T>) {
        let index = index % self.len();
        Some(&self[index])
    }

    fn wrapping_get_mut(&mut self, index: usize) -> (item: Option<&mut T>) {
        let index = index % self.len();
        Some(&mut self[index])
    }
}

} // verus!
