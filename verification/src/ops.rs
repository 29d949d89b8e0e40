//! The open operations: what per-open state a request creates.
//!
//! A Split open resolves the chunk row, takes its backing file from the
//! row's parent — the real file the chunk was cut from — and stores the
//! chunk's byte range. A Cat open stores the chunk paths of the opened
//! file, in part order. Both draw a fresh handle id from the table.

use vstd::prelude::*;

use crate::handles::{Handle, HandleTable, HandleV};
use crate::index::{children_of, spec_find_ino, FileDb, FileInfoV};
use crate::ScfsError;

verus! {

/// Opens a Split-mode handle on the chunk `ino`: the backing file is the
/// chunk row's parent, the range is the chunk's block. "No such entry"
/// names every failure a request can recover from: an unknown inode, a
/// row that is no chunk, a missing parent, or a range past the
/// representable offsets.
pub fn open_split(db: &FileDb, table: &mut HandleTable, ino: u64, blocksize: u64) -> (r: Result<
    u64,
    ScfsError,
>)
    requires
        old(table).wf(),
    ensures
        final(table).wf(),
        match r {
            Ok(fh) => {
                let row = spec_find_ino(db@, ino)->Some_0;
                let parent = spec_find_ino(db@, row.parent_ino)->Some_0;
                let start = (row.part - 1) * blocksize;
                &&& spec_find_ino(db@, ino) is Some
                &&& row.part >= 1
                &&& spec_find_ino(db@, row.parent_ino) is Some
                &&& row.part * blocksize <= u64::MAX
                &&& !old(table)@.contains_key(fh)
                &&& final(table)@ == old(table)@.insert(
                    fh,
                    HandleV::SplitRange {
                        file: parent.path,
                        start: start as u64,
                        end: (start + blocksize) as u64,
                    },
                )
            },
            Err(e) => e == ScfsError::NotFound && final(table)@ == old(table)@ && (
            spec_find_ino(db@, ino) is None || spec_find_ino(db@, ino)->Some_0.part == 0
                || spec_find_ino(db@, spec_find_ino(db@, ino)->Some_0.parent_ino) is None
                || spec_find_ino(db@, ino)->Some_0.part * blocksize > u64::MAX || old(
                table,
            ).spec_next_fh() == u64::MAX),
        },
{
    let row = match db.get_by_ino(ino) {
        Some(r) => r,
        None => {
            return Err(ScfsError::NotFound);
        },
    };
    if row.part == 0 {
        return Err(ScfsError::NotFound);
    }
    let parent = match db.get_by_ino(row.parent_ino) {
        Some(p) => p,
        None => {
            return Err(ScfsError::NotFound);
        },
    };
    if blocksize != 0 && row.part > u64::MAX / blocksize {
        proof {
            vstd::arithmetic::div_mod::lemma_fundamental_div_mod(u64::MAX as int, blocksize as int);
            vstd::arithmetic::div_mod::lemma_mod_bound(u64::MAX as int, blocksize as int);
            assert(row@.part * blocksize > u64::MAX) by (nonlinear_arith)
                requires
                    row@.part >= u64::MAX / blocksize + 1,
                    u64::MAX == (blocksize as int) * ((u64::MAX / blocksize) as int) + (
                    u64::MAX as int) % (blocksize as int),
                    (u64::MAX as int) % (blocksize as int) < blocksize,
                    blocksize >= 1,
            ;
        }
        return Err(ScfsError::NotFound);
    }
    proof {
        if blocksize == 0 {
            assert(row@.part * blocksize == 0) by (nonlinear_arith)
                requires
                    blocksize == 0,
            ;
        } else {
            vstd::arithmetic::div_mod::lemma_fundamental_div_mod(u64::MAX as int, blocksize as int);
            vstd::arithmetic::div_mod::lemma_mod_bound(u64::MAX as int, blocksize as int);
            assert(row@.part * blocksize <= u64::MAX) by (nonlinear_arith)
                requires
                    row@.part <= u64::MAX / blocksize,
                    u64::MAX == (blocksize as int) * ((u64::MAX / blocksize) as int) + (
                    u64::MAX as int) % (blocksize as int),
                    (u64::MAX as int) % (blocksize as int) >= 0,
                    blocksize >= 1,
            ;
        }
        assert((row@.part - 1) * blocksize + blocksize == row@.part * blocksize)
            by (nonlinear_arith)
        ;
    }
    let start = (row.part - 1) * blocksize;
    let end = start + blocksize;
    let file = crate::index::clone_bytes(&parent.path);
    match table.open(Handle::SplitRange { file, start, end }) {
        Some(fh) => Ok(fh),
        None => Err(ScfsError::NotFound),
    }
}

/// Opens a Cat-mode handle on `ino`: the paths of its children — the
/// chunks of the file, in part order as the scanner recorded them. An
/// unknown inode yields a handle over no chunks, as a directory open
/// does; only an exhausted id space fails.
pub fn open_cat(db: &FileDb, table: &mut HandleTable, ino: u64) -> (r: Result<u64, ScfsError>)
    requires
        old(table).wf(),
    ensures
        final(table).wf(),
        match r {
            Ok(fh) => {
                &&& !old(table)@.contains_key(fh)
                &&& final(table)@ == old(table)@.insert(
                    fh,
                    HandleV::CatParts {
                        files: children_of(db@, ino).map_values(|c: FileInfoV| c.path),
                    },
                )
            },
            Err(e) => e == ScfsError::NotFound && final(table)@ == old(table)@ && old(
                table,
            ).spec_next_fh() == u64::MAX,
        },
{
    let rows = db.children_from(ino, 0);
    let ghost kids = children_of(db@, ino);
    proof {
        assert(kids.skip(0) =~= kids);
    }
    let mut files: Vec<Vec<u8>> = Vec::new();
    let n = rows.len();
    let mut i: usize = 0;
    proof {
        assert(files@.map_values(|f: Vec<u8>| f@) =~= kids.map_values(
            |c: FileInfoV| c.path,
        ).take(0));
    }
    while i < n
        invariant
            i <= n,
            n == rows@.len(),
            rows@.map_values(|x: crate::index::FileInfo| x@) == kids,
            files@.map_values(|f: Vec<u8>| f@) == kids.map_values(|c: FileInfoV| c.path).take(
                i as int,
            ),
        decreases n - i,
    {
        let ghost prev = files@.map_values(|f: Vec<u8>| f@);
        files.push(crate::index::clone_bytes(&rows[i].path));
        proof {
            assert(rows@[i as int]@ == kids[i as int]);
            assert(files@.map_values(|f: Vec<u8>| f@) =~= prev.push(kids[i as int].path));
            assert(files@.map_values(|f: Vec<u8>| f@) =~= kids.map_values(
                |c: FileInfoV| c.path,
            ).take(i + 1));
        }
        i += 1;
    }
    proof {
        assert(kids.map_values(|c: FileInfoV| c.path).take(n as int) =~= kids.map_values(
            |c: FileInfoV| c.path,
        ));
    }
    match table.open(Handle::CatParts { files }) {
        Some(fh) => Ok(fh),
        None => Err(ScfsError::NotFound),
    }
}

} // verus!
