//! The off-grid graphics layer of a frame: the raw bytes to write between
//! cell paints (image transmissions), each addressed by image id and cell,
//! and a queue of explicit deletes by image id.

use vstd::prelude::*;

use std::sync::Arc;

verus! {

/// One raw write: the image id, the cell `(x, y)` the bytes are anchored
/// at, and the bytes, shared so that they are never copied.
pub type RawWrite = (u64, u16, u16, Arc<Vec<u8>>);

/// The image ids of a sequence of writes, in order.
pub open spec fn write_ids(writes: Seq<RawWrite>) -> Seq<u64> {
    writes.map_values(|w: RawWrite| w.0)
}

/// The writes and explicit deletes of one frame.
#[derive(Debug, PartialEq, Eq)]
pub struct RawSurface {
    writes: Vec<RawWrite>,
    /// Image ids to delete on the next flush, each once.
    pending_deletes: Vec<u64>,
}

/// The surface as the model sees it: its writes, and its deletes in the
/// order they were queued.
pub struct RawSurfaceModel {
    pub writes: Seq<RawWrite>,
    pub pending_deletes: Seq<u64>,
}

impl RawSurface {
    /// No id is queued for deletion twice.
    #[verifier::type_invariant]
    spec fn inv(self) -> bool {
        self.pending_deletes@.no_duplicates()
    }
}

impl View for RawSurface {
    type V = RawSurfaceModel;

    closed spec fn view(&self) -> RawSurfaceModel {
        RawSurfaceModel { writes: self.writes@, pending_deletes: self.pending_deletes@ }
    }
}

impl RawSurfaceModel {
    /// No id is queued for deletion twice.
    pub open spec fn wf(self) -> bool {
        self.pending_deletes.no_duplicates()
    }
}

impl core::default::Default for RawSurface {
    fn default() -> (r: Self)
        ensures
            r@.writes == Seq::<RawWrite>::empty(),
            r@.pending_deletes == Seq::<u64>::empty(),
    {
        RawSurface { writes: Vec::new(), pending_deletes: Vec::new() }
    }
}

impl Clone for RawSurface {
    fn clone(&self) -> (r: Self)
        ensures
            r@ == self@,
    {
        proof {
            use_type_invariant(self);
        }
        let mut writes: Vec<RawWrite> = Vec::new();
        let mut i: usize = 0;
        while i < self.writes.len()
            invariant
                i <= self.writes@.len(),
                writes@ == self.writes@.take(i as int),
            decreases self.writes@.len() - i,
        {
            let w = &self.writes[i];
            writes.push((w.0, w.1, w.2, crate::text_annotations::share(&w.3)));
            proof {
                assert(writes@ =~= self.writes@.take(i as int + 1));
            }
            i = i + 1;
        }
        proof {
            assert(self.writes@.take(i as int) =~= self.writes@);
        }
        let mut pending_deletes: Vec<u64> = Vec::new();
        let mut j: usize = 0;
        while j < self.pending_deletes.len()
            invariant
                j <= self.pending_deletes@.len(),
                pending_deletes@ == self.pending_deletes@.take(j as int),
            decreases self.pending_deletes@.len() - j,
        {
            pending_deletes.push(self.pending_deletes[j]);
            proof {
                assert(pending_deletes@ =~= self.pending_deletes@.take(j as int + 1));
            }
            j = j + 1;
        }
        proof {
            assert(self.pending_deletes@.take(j as int) =~= self.pending_deletes@);
        }
        RawSurface { writes, pending_deletes }
    }
}

impl RawSurface {
    /// An empty surface.
    pub fn new() -> (r: Self)
        ensures
            r@.writes == Seq::<RawWrite>::empty(),
            r@.pending_deletes == Seq::<u64>::empty(),
            r@.wf(),
    {
        RawSurface { writes: Vec::new(), pending_deletes: Vec::new() }
    }

    /// Queues the bytes `bytes` for image `id` at cell `(x, y)`. An id may
    /// be written several times in one frame.
    pub fn write(&mut self, id: u64, x: u16, y: u16, bytes: Arc<Vec<u8>>)
        ensures
            final(self)@.writes == old(self)@.writes.push((id, x, y, bytes)),
            final(self)@.pending_deletes == old(self)@.pending_deletes,
    {
        proof {
            use_type_invariant(&*self);
        }
        let mut writes: Vec<RawWrite> = Vec::new();
        std::mem::swap(&mut writes, &mut self.writes);
        writes.push((id, x, y, bytes));
        self.writes = writes;
    }

    /// Queues an explicit delete of image `id`, unless it is queued
    /// already.
    pub fn delete(&mut self, id: u64)
        ensures
            final(self)@.writes == old(self)@.writes,
            final(self)@.pending_deletes == (if old(self)@.pending_deletes.contains(id) {
                old(self)@.pending_deletes
            } else {
                old(self)@.pending_deletes.push(id)
            }),
            final(self)@.wf(),
    {
        proof {
            use_type_invariant(&*self);
        }
        let mut i: usize = 0;
        while i < self.pending_deletes.len()
            invariant
                i <= self.pending_deletes@.len(),
                forall|k: int| 0 <= k < i ==> self.pending_deletes@[k] != id,
            decreases self.pending_deletes@.len() - i,
        {
            if self.pending_deletes[i] == id {
                proof {
                    assert(self.pending_deletes@.contains(id));
                    use_type_invariant(&*self);
                }
                return;
            }
            i = i + 1;
        }
        proof {
            assert(!self.pending_deletes@.contains(id));
        }
        let mut deletes: Vec<u64> = Vec::new();
        std::mem::swap(&mut deletes, &mut self.pending_deletes);
        deletes.push(id);
        proof {
            assert forall|a: int, b: int| 0 <= a < b < deletes@.len() implies deletes@[a] != deletes@[b] by {
                if b == deletes@.len() - 1 {
                    assert(old(self)@.pending_deletes[a] == deletes@[a]);
                }
            }
        }
        self.pending_deletes = deletes;
    }

    /// The writes of this frame, in order.
    pub fn writes(&self) -> (r: &[RawWrite])
        ensures
            r@ == self@.writes,
    {
        self.writes.as_slice()
    }

    /// The ids queued for deletion, in order.
    pub fn pending_deletes(&self) -> (r: &[u64])
        ensures
            r@ == self@.pending_deletes,
            r@.no_duplicates(),
    {
        proof {
            use_type_invariant(self);
        }
        self.pending_deletes.as_slice()
    }

    /// Whether there is nothing to write and nothing to delete.
    pub fn is_empty(&self) -> (r: bool)
        ensures
            r == (self@.writes.len() == 0 && self@.pending_deletes.len() == 0),
    {
        self.writes.len() == 0 && self.pending_deletes.len() == 0
    }

    /// Wipes the surface, so that the next frame starts clean.
    pub fn clear(&mut self)
        ensures
            final(self)@.writes == Seq::<RawWrite>::empty(),
            final(self)@.pending_deletes == Seq::<u64>::empty(),
    {
        proof {
            use_type_invariant(&*self);
        }
        self.writes = Vec::new();
        self.pending_deletes = Vec::new();
    }

    /// The image ids of this frame's writes, in order.
    pub fn image_ids(&self) -> (r: Vec<u64>)
        ensures
            r@ == write_ids(self@.writes),
    {
        let mut r: Vec<u64> = Vec::new();
        let mut i: usize = 0;
        while i < self.writes.len()
            invariant
                i <= self.writes@.len(),
                r@ == write_ids(self.writes@.take(i as int)),
            decreases self.writes@.len() - i,
        {
            r.push(self.writes[i].0);
            proof {
                assert(write_ids(self.writes@.take(i as int + 1)) =~= write_ids(self.writes@.take(i as int)).push(
                    self.writes@[i as int].0,
                ));
            }
            i = i + 1;
        }
        proof {
            assert(self.writes@.take(i as int) =~= self.writes@);
        }
        r
    }
}

} // verus!
