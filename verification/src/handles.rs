//! The file-handle table: per-open state, keyed by a handle id drawn from
//! a monotonic counter, so an id is never reused for the life of a mount.
//!
//! A Split handle carries one backing file and the byte range of its
//! chunk; a Cat handle carries the chunk paths of the file, in part
//! order; the synthetic configuration file opens without any backing
//! state. Releasing a handle that is unknown — or already released — is a
//! tolerated no-op.

use std::collections::HashMap;
use vstd::prelude::*;

verus! {

broadcast use vstd::std_specs::hash::group_hash_axioms;

/// The per-open state of one handle.
#[derive(Debug)]
pub enum Handle {
    /// Split mode: one backing file and the chunk's byte range within it.
    SplitRange { file: Vec<u8>, start: u64, end: u64 },
    /// Cat mode: the chunk paths of the opened file, in part order.
    CatParts { files: Vec<Vec<u8>> },
    /// The synthetic configuration file; no backing file is opened.
    Config,
}

/// The mathematical value of a handle.
pub ghost enum HandleV {
    SplitRange { file: Seq<u8>, start: u64, end: u64 },
    CatParts { files: Seq<Seq<u8>> },
    Config,
}

impl View for Handle {
    type V = HandleV;

    open spec fn view(&self) -> HandleV {
        match self {
            Handle::SplitRange { file, start, end } => HandleV::SplitRange {
                file: file@,
                start: *start,
                end: *end,
            },
            Handle::CatParts { files } => HandleV::CatParts {
                files: files@.map_values(|f: Vec<u8>| f@),
            },
            Handle::Config => HandleV::Config,
        }
    }
}

/// The handle table: open handles by id, and the next id to hand out.
pub struct HandleTable {
    next_fh: u64,
    handles: HashMap<u64, Handle>,
}

impl View for HandleTable {
    type V = Map<u64, HandleV>;

    closed spec fn view(&self) -> Map<u64, HandleV> {
        self.handles@.map_values(|h: Handle| h@)
    }
}

impl HandleTable {
    /// The id the next open receives.
    pub closed spec fn spec_next_fh(&self) -> u64 {
        self.next_fh
    }

    /// Every open handle's id lies below the counter, so the counter
    /// always yields a fresh id.
    pub closed spec fn wf(&self) -> bool {
        forall|k: u64| self.handles@.contains_key(k) ==> k < self.next_fh
    }

    /// An empty table; ids start at zero.
    pub fn new() -> (r: HandleTable)
        ensures
            r@ == Map::<u64, HandleV>::empty(),
            r.wf(),
            r.spec_next_fh() == 0,
    {
        let handles: HashMap<u64, Handle> = HashMap::new();
        proof {
            assert(handles@.map_values(|h: Handle| h@) =~= Map::<u64, HandleV>::empty());
        }
        HandleTable { next_fh: 0, handles }
    }

    /// Opens a handle: stores it under a fresh id and returns the id.
    /// Yields nothing only when the id space is exhausted.
    pub fn open(&mut self, h: Handle) -> (r: Option<u64>)
        requires
            old(self).wf(),
        ensures
            final(self).wf(),
            match r {
                Some(fh) => {
                    &&& fh == old(self).spec_next_fh()
                    &&& !old(self)@.contains_key(fh)
                    &&& final(self)@ == old(self)@.insert(fh, h@)
                    &&& final(self).spec_next_fh() == fh + 1
                },
                None => {
                    &&& old(self).spec_next_fh() == u64::MAX
                    &&& final(self)@ == old(self)@
                    &&& final(self).spec_next_fh() == old(self).spec_next_fh()
                },
            },
    {
        if self.next_fh == u64::MAX {
            return None;
        }
        let fh = self.next_fh;
        self.next_fh = self.next_fh + 1;
        let ghost pre = self.handles@;
        self.handles.insert(fh, h);
        proof {
            assert(self.handles@.map_values(|x: Handle| x@) =~= pre.map_values(
                |x: Handle| x@,
            ).insert(fh, h@));
        }
        Some(fh)
    }

    /// The handle stored under `fh`, if any.
    pub fn get(&self, fh: u64) -> (r: Option<&Handle>)
        ensures
            match r {
                Some(h) => self@.contains_key(fh) && h@ == self@[fh],
                None => !self@.contains_key(fh),
            },
    {
        let r = self.handles.get(&fh);
        proof {
            if r is Some {
                assert(self.handles@.contains_key(fh));
            }
        }
        r
    }

    /// Releases `fh`: forgets its state. A release for an id that is
    /// unknown or already released changes nothing and is no error.
    pub fn release(&mut self, fh: u64)
        requires
            old(self).wf(),
        ensures
            final(self).wf(),
            final(self)@ == old(self)@.remove(fh),
            final(self).spec_next_fh() == old(self).spec_next_fh(),
            !old(self)@.contains_key(fh) ==> final(self)@ == old(self)@,
    {
        let ghost pre = self.handles@;
        self.handles.remove(&fh);
        proof {
            assert(self.handles@.map_values(|x: Handle| x@) =~= pre.map_values(
                |x: Handle| x@,
            ).remove(fh));
            if !pre.map_values(|x: Handle| x@).contains_key(fh) {
                assert(pre.map_values(|x: Handle| x@).remove(fh) =~= pre.map_values(
                    |x: Handle| x@,
                ));
            }
        }
    }
}

/// Releasing an id a table does not hold leaves the table as it was, so a
/// second release of the same id — or a release of an id never handed
/// out — is harmless.
pub proof fn lemma_release_idempotent(m: Map<u64, HandleV>, fh: u64)
    ensures
        !m.contains_key(fh) ==> m.remove(fh) == m,
        m.remove(fh).remove(fh) == m.remove(fh),
{
    if !m.contains_key(fh) {
        assert(m.remove(fh) =~= m);
    }
    assert(m.remove(fh).remove(fh) =~= m.remove(fh));
}

} // verus!
