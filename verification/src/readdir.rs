//! The directory-listing protocol.
//!
//! A directory's full listing is a fixed sequence: `.`, `..`, then — in
//! Split mode and only at the mount root — the synthetic configuration
//! entry, then the directory's children in index order. The entry at
//! position `k` carries the cookie `k + 1`, so a listing can be resumed from
//! any cookie the kernel saw before: replaying from cookie `c` yields
//! exactly the suffix of the full listing that follows the entry whose
//! cookie is `c`.

use vstd::prelude::*;

use crate::index::{children_of, FileDb, FileInfo, FileInfoV};
use crate::{FileKind, Mode, INO_CONFIG, INO_OUTSIDE, INO_ROOT};

verus! {

/// One emitted directory entry.
#[derive(Debug)]
pub struct DirEntry {
    pub ino: u64,
    /// The kernel-visible resume position: one past this entry's position.
    pub cookie: u64,
    pub kind: FileKind,
    pub name: Vec<u8>,
}

/// The mathematical value of an emitted entry.
pub ghost struct DirEntryV {
    pub ino: u64,
    pub cookie: u64,
    pub kind: FileKind,
    pub name: Seq<u8>,
}

impl View for DirEntry {
    type V = DirEntryV;

    open spec fn view(&self) -> DirEntryV {
        DirEntryV { ino: self.ino, cookie: self.cookie, kind: self.kind, name: self.name@ }
    }
}

/// The byte string `"."`.
pub open spec fn dot_name() -> Seq<u8> {
    seq![46u8]
}

/// The byte string `".."`.
pub open spec fn dot_dot_name() -> Seq<u8> {
    seq![46u8, 46u8]
}

/// The byte string `".scfs_config"`.
pub open spec fn config_name() -> Seq<u8> {
    seq![46u8, 115u8, 99u8, 102u8, 115u8, 95u8, 99u8, 111u8, 110u8, 102u8, 105u8, 103u8]
}

/// The kind shown for an index row: a symlink as itself; a chunk (Split) or
/// a virtual directory (Cat) as a regular file; anything else as a
/// directory.
pub open spec fn spec_entry_kind(row: FileInfoV, mode: Mode) -> FileKind {
    if row.symlink {
        FileKind::Symlink
    } else if (mode == Mode::Split && row.part > 0) || (mode == Mode::Cat && row.vdir) {
        FileKind::RegularFile
    } else {
        FileKind::Directory
    }
}

/// How many synthetic entries open `dir`'s listing: `.` and `..`, plus the
/// configuration entry at the Split root.
pub open spec fn synth_count(dir: FileInfoV, mode: Mode) -> int {
    if mode == Mode::Split && dir.ino == INO_ROOT {
        3
    } else {
        2
    }
}

/// The inode shown for `..`: the parent, or the directory itself at the
/// mount root.
pub open spec fn dot_dot_ino(dir: FileInfoV) -> u64 {
    if dir.parent_ino == INO_OUTSIDE {
        dir.ino
    } else {
        dir.parent_ino
    }
}

/// The synthetic entries that open `dir`'s listing.
pub open spec fn synth_entries(dir: FileInfoV, mode: Mode) -> Seq<DirEntryV> {
    let base = seq![
        DirEntryV { ino: dir.ino, cookie: 1, kind: FileKind::Directory, name: dot_name() },
        DirEntryV {
            ino: dot_dot_ino(dir),
            cookie: 2,
            kind: FileKind::Directory,
            name: dot_dot_name(),
        },
    ];
    if mode == Mode::Split && dir.ino == INO_ROOT {
        base.push(
            DirEntryV {
                ino: INO_CONFIG,
                cookie: 3,
                kind: FileKind::RegularFile,
                name: config_name(),
            },
        )
    } else {
        base
    }
}

/// The complete listing of `dir`: synthetic entries, then the children of
/// `dir` in index order, the entry at position `k` carrying cookie `k + 1`.
pub open spec fn full_listing(db: Seq<FileInfoV>, dir: FileInfoV, mode: Mode) -> Seq<DirEntryV> {
    let h = synth_count(dir, mode);
    synth_entries(dir, mode) + children_of(db, dir.ino).map(
        |k: int, row: FileInfoV|
            DirEntryV {
                ino: row.ino,
                cookie: (h + k + 1) as u64,
                kind: spec_entry_kind(row, mode),
                name: row.file_name,
            },
    )
}

/// The number of children is bounded by the number of rows.
pub proof fn lemma_children_of_len(s: Seq<FileInfoV>, parent: u64)
    ensures
        children_of(s, parent).len() <= s.len(),
    decreases s.len(),
{
    if s.len() > 0 {
        lemma_children_of_len(s.drop_last(), parent);
    }
}

/// Every entry of a full listing carries a cookie one past its position, so
/// replaying the listing from any returned cookie yields exactly the suffix
/// that follows the entry the cookie came from, and replaying from zero
/// yields the whole listing.
pub proof fn lemma_readdir_resume(db: Seq<FileInfoV>, dir: FileInfoV, mode: Mode, k: int)
    requires
        db.len() + 3 <= u64::MAX,
        0 <= k < full_listing(db, dir, mode).len(),
    ensures
        full_listing(db, dir, mode)[k].cookie == k + 1,
        full_listing(db, dir, mode).skip(full_listing(db, dir, mode)[k].cookie as int)
            == full_listing(db, dir, mode).skip(k + 1),
        full_listing(db, dir, mode).skip(0) == full_listing(db, dir, mode),
{
    let full = full_listing(db, dir, mode);
    let h = synth_count(dir, mode);
    lemma_children_of_len(db, dir.ino);
    if k < h {
        assert(full[k] == synth_entries(dir, mode)[k]);
    } else {
        assert(full[k].cookie == (h + (k - h) + 1) as u64);
    }
    assert(full.skip(0) =~= full);
}

/// Whether a lookup names the synthetic configuration file: only Split
/// mode has one, at the mount root, under its fixed name.
pub fn is_config_lookup(mode: Mode, parent: u64, name: &[u8]) -> (r: bool)
    ensures
        r == (mode == Mode::Split && parent == INO_ROOT && name@ == config_name()),
{
    if matches!(mode, Mode::Split) && parent == INO_ROOT {
        let cfg = config_name_vec();
        crate::index::bytes_eq(name, cfg.as_slice())
    } else {
        false
    }
}

/// Symlink transparency at the listing: a row recorded as a symlink is
/// shown as a symlink, in either mode — never split, never concatenated.
pub proof fn lemma_symlink_shown(row: FileInfoV, mode: Mode)
    requires
        row.symlink,
    ensures
        spec_entry_kind(row, mode) == FileKind::Symlink,
{
}

/// Builds one emitted entry.
fn make_entry(ino: u64, cookie: u64, kind: FileKind, name: Vec<u8>) -> (r: DirEntry)
    ensures
        r@ == (DirEntryV { ino, cookie, kind, name: name@ }),
{
    DirEntry { ino, cookie, kind, name }
}

/// The byte string `"."` as a value.
fn dot_name_vec() -> (r: Vec<u8>)
    ensures
        r@ == dot_name(),
{
    let mut v: Vec<u8> = Vec::new();
    v.push(46);
    proof {
        assert(v@ =~= dot_name());
    }
    v
}

/// The byte string `".."` as a value.
fn dot_dot_name_vec() -> (r: Vec<u8>)
    ensures
        r@ == dot_dot_name(),
{
    let mut v: Vec<u8> = Vec::new();
    v.push(46);
    v.push(46);
    proof {
        assert(v@ =~= dot_dot_name());
    }
    v
}

/// The byte string `".scfs_config"` as a value.
pub fn config_name_vec() -> (r: Vec<u8>)
    ensures
        r@ == config_name(),
{
    let mut v: Vec<u8> = Vec::new();
    v.push(46);
    v.push(115);
    v.push(99);
    v.push(102);
    v.push(115);
    v.push(95);
    v.push(99);
    v.push(111);
    v.push(110);
    v.push(102);
    v.push(105);
    v.push(103);
    proof {
        assert(v@ =~= config_name());
    }
    v
}

/// The kind shown for an index row.
pub fn entry_kind(row: &FileInfo, mode: Mode) -> (r: FileKind)
    ensures
        r == spec_entry_kind(row@, mode),
{
    if row.symlink {
        FileKind::Symlink
    } else if (matches!(mode, Mode::Split) && row.part > 0) || (matches!(mode, Mode::Cat)
        && row.vdir) {
        FileKind::RegularFile
    } else {
        FileKind::Directory
    }
}

/// Serves one `readdir` call: the entries of `dir`'s full listing from
/// position `offset` on, at most `max_entries` of them (the caller stops
/// filling its buffer when the kernel's reply signals it is full).
pub fn readdir_entries(
    db: &FileDb,
    dir: &FileInfo,
    mode: Mode,
    offset: u64,
    max_entries: usize,
) -> (r: Vec<DirEntry>)
    requires
        db@.len() + 3 <= u64::MAX,
    ensures
        ({
            let full = full_listing(db@, dir@, mode);
            let start = if offset <= full.len() {
                offset as int
            } else {
                full.len() as int
            };
            let count = if max_entries <= full.len() - start {
                max_entries as int
            } else {
                full.len() - start
            };
            r@.map_values(|e: DirEntry| e@) == full.skip(start).take(count)
        }),
{
    let ghost full = full_listing(db@, dir@, mode);
    let ghost ev = |e: DirEntry| e@;
    proof {
        lemma_children_of_len(db@, dir@.ino);
    }
    let h: u64 = if matches!(mode, Mode::Split) && dir.ino == INO_ROOT {
        3
    } else {
        2
    };
    let ghost children = children_of(db@, dir@.ino);
    let ghost start = if offset <= full.len() {
        offset as int
    } else {
        full.len() as int
    };

    let mut r: Vec<DirEntry> = Vec::new();
    proof {
        assert(r@.map_values(ev) =~= full.skip(start).take(0));
    }
    if max_entries == 0 {
        return r;
    }

    // Synthetic entries, each present only when the offset lies before it.
    if offset < 1 && r.len() < max_entries {
        let ghost prev = r@.map_values(ev);
        r.push(make_entry(dir.ino, 1, FileKind::Directory, dot_name_vec()));
        proof {
            assert(full[0] == synth_entries(dir@, mode)[0]);
            assert(r@.map_values(ev) =~= prev.push(full[0]));
            assert(r@.map_values(ev) =~= full.skip(start).take(r@.len() as int));
        }
    }
    if offset < 2 && r.len() < max_entries {
        let ghost prev = r@.map_values(ev);
        let dd_ino = if dir.parent_ino == INO_OUTSIDE {
            dir.ino
        } else {
            dir.parent_ino
        };
        r.push(make_entry(dd_ino, 2, FileKind::Directory, dot_dot_name_vec()));
        proof {
            assert(full[1] == synth_entries(dir@, mode)[1]);
            assert(r@.map_values(ev) =~= prev.push(full[1]));
            assert(r@.map_values(ev) =~= full.skip(start).take(r@.len() as int));
        }
    }
    if h == 3 && offset < 3 && r.len() < max_entries {
        let ghost prev = r@.map_values(ev);
        r.push(make_entry(INO_CONFIG, 3, FileKind::RegularFile, config_name_vec()));
        proof {
            assert(full[2] == synth_entries(dir@, mode)[2]);
            assert(r@.map_values(ev) =~= prev.push(full[2]));
            assert(r@.map_values(ev) =~= full.skip(start).take(r@.len() as int));
        }
    }

    // Children: skip those the offset already covers.
    let child_skip: u64 = if offset > h {
        offset - h
    } else {
        0
    };
    let db_len: usize = db.len();
    let cs: Vec<FileInfo> = if child_skip > db_len as u64 {
        let empty: Vec<FileInfo> = Vec::new();
        proof {
            assert(children.len() <= db@.len());
            assert(empty@.map_values(|x: FileInfo| x@) =~= Seq::<FileInfoV>::empty());
        }
        empty
    } else {
        db.children_from(dir.ino, child_skip as usize)
    };
    let ghost cs_view = cs@.map_values(|x: FileInfo| x@);

    let n = cs.len();
    let mut k: usize = 0;
    while k < n && r.len() < max_entries
        invariant
            db@.len() + 3 <= u64::MAX,
            n == cs_view.len(),
            k <= n,
            ev == (|e: DirEntry| e@),
            full == full_listing(db@, dir@, mode),
            children == children_of(db@, dir@.ino),
            start == if offset <= full.len() {
                offset as int
            } else {
                full.len() as int
            },
            h == synth_count(dir@, mode),
            child_skip == (if offset > h {
                (offset - h) as int
            } else {
                0int
            }),
            cs_view == if child_skip <= children.len() {
                children.skip(child_skip as int)
            } else {
                Seq::<FileInfoV>::empty()
            },
            cs_view == cs@.map_values(|x: FileInfo| x@),
            children.len() <= db@.len(),
            full.len() == h + children.len(),
            r@.len() <= max_entries,
            start + r@.len() <= full.len(),
            r@.map_values(ev) == full.skip(start).take(r@.len() as int),
            r@.len() == max_entries || start + r@.len() == (if child_skip <= children.len() {
                h + child_skip + k
            } else {
                full.len() as int
            }),
        decreases n - k,
    {
        let ghost prev = r@.map_values(ev);
        let ghost abs = child_skip + k;
        proof {
            assert(cs_view[k as int] == children[abs as int]);
            assert(full[h + abs] == children.map(
                |j: int, row: FileInfoV|
                    DirEntryV {
                        ino: row.ino,
                        cookie: (h + j + 1) as u64,
                        kind: spec_entry_kind(row, mode),
                        name: row.file_name,
                    },
            )[abs as int]);
        }
        proof {
            assert(cs_view.len() == children.len() - child_skip);
            assert(child_skip + k < children.len());
            assert(h <= 3);
            assert(h + child_skip + k + 1 <= db@.len() + 4);
        }
        let cookie: u64 = h + child_skip + k as u64 + 1;
        let row = &cs[k];
        let kind = entry_kind(row, mode);
        let name = crate::index::clone_bytes(&row.file_name);
        r.push(make_entry(row.ino, cookie, kind, name));
        proof {
            assert(r@.map_values(ev) =~= prev.push(full[h + abs]));
            assert(r@.map_values(ev) =~= full.skip(start).take(r@.len() as int));
        }
        k += 1;
    }
    proof {
        let count = if max_entries <= full.len() - start {
            max_entries as int
        } else {
            full.len() - start
        };
        if r@.len() != max_entries {
            assert(k == n);
            if child_skip <= children.len() {
                assert(n == children.len() - child_skip);
                assert(start + r@.len() == full.len());
            } else {
                assert(start + r@.len() == full.len());
            }
        }
        assert(r@.len() == count);
    }
    r
}

} // verus!
