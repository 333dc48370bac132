//! A pinned root and the bookkeeping for readers opened on it.

use std::sync::Arc;
use vstd::prelude::*;

use crate::art::{Node, TrieError};

verus! {

/// A pinned root with the bookkeeping for the readers opened on it. The
/// persistent structure keeps the pinned root valid whatever happens to the
/// tree afterwards; closing an unknown or already closed reader id fails.
pub struct Snapshot<V> {
    pub root: Option<Arc<Node<V>>>,
    pub readers: Vec<u64>,
    pub next_reader_id: u64,
}

impl<V> Snapshot<V> {
    /// Pin `root`.
    pub fn new(root: Option<Arc<Node<V>>>) -> (r: Self)
        ensures
            r.root == root,
            r.readers@ == Seq::<u64>::empty(),
            r.next_reader_id == 0,
    {
        Snapshot { root, readers: Vec::new(), next_reader_id: 0 }
    }

    /// Open a reader on this snapshot and hand its id out.
    pub fn new_reader(&mut self) -> (id: u64)
        requires
            old(self).next_reader_id < u64::MAX,
        ensures
            id == old(self).next_reader_id,
            final(self).next_reader_id == old(self).next_reader_id + 1,
            final(self).readers@ == old(self).readers@.push(id),
            final(self).root == old(self).root,
    {
        let id = self.next_reader_id;
        self.readers.push(id);
        self.next_reader_id = self.next_reader_id + 1;
        id
    }

    /// Close the reader `id`: it leaves the open set; an id that is not open
    /// is refused.
    pub fn close_reader(&mut self, id: u64) -> (r: Result<(), TrieError>)
        ensures
            final(self).root == old(self).root,
            final(self).next_reader_id == old(self).next_reader_id,
            match r {
                Ok(()) => old(self).readers@.contains(id) && exists|i: int|
                    {
                        &&& 0 <= i < old(self).readers@.len()
                        &&& old(self).readers@[i] == id
                        &&& forall|j: int| 0 <= j < i ==> old(self).readers@[j] != id
                        &&& final(self).readers@ == old(self).readers@.remove(i)
                    },
                Err(e) => !old(self).readers@.contains(id) && final(self).readers@ == old(
                    self,
                ).readers@ && e is SnapshotNotFound,
            },
    {
        let n = self.readers.len();
        let mut i: usize = 0;
        while i < n
            invariant
                n == self.readers@.len(),
                i <= n,
                self.readers@ == old(self).readers@,
                self.root == old(self).root,
                self.next_reader_id == old(self).next_reader_id,
                forall|j: int| 0 <= j < i ==> self.readers@[j] != id,
            decreases n - i,
        {
            if self.readers[i] == id {
                self.readers.remove(i);
                return Ok(());
            }
            i = i + 1;
        }
        Err(TrieError::SnapshotNotFound)
    }
}

} // verus!
