//! The attribute resolver: the POSIX attribute block served for an inode,
//! computed from the backing file's metadata and the row's role.
//!
//! The caller reads the backing metadata (without following symlinks) and
//! hands it over as plain values; everything after that is arithmetic. A
//! split file's virtual directory borrows its backing file's metadata with
//! the kind, permissions and block count overridden; a chunk clamps its
//! size to its block; the synthetic configuration file reports the
//! serialized document's length; a Cat virtual directory sums its chunks.

use vstd::prelude::*;

use crate::index::FileInfo;
use crate::{FileKind, INO_CONFIG};

verus! {

/// A backing file's metadata, as plain values.
#[derive(Clone, Copy, Debug, PartialEq, Eq, Structural)]
pub struct Meta {
    pub ino: u64,
    pub size: u64,
    pub blocks: u64,
    pub atime_s: i64,
    pub atime_ns: i32,
    pub mtime_s: i64,
    pub mtime_ns: i32,
    pub ctime_s: i64,
    pub ctime_ns: i32,
    pub kind: FileKind,
    pub perm: u16,
    pub nlink: u32,
    pub uid: u32,
    pub gid: u32,
    pub rdev: u32,
}

/// The attribute block served to the kernel.
#[derive(Clone, Copy, Debug, PartialEq, Eq, Structural)]
pub struct Attr {
    pub ino: u64,
    pub size: u64,
    pub blocks: u64,
    pub atime_s: i64,
    pub atime_ns: i32,
    pub mtime_s: i64,
    pub mtime_ns: i32,
    pub ctime_s: i64,
    pub ctime_ns: i32,
    pub crtime_s: i64,
    pub crtime_ns: i32,
    pub kind: FileKind,
    pub perm: u16,
    pub nlink: u32,
    pub uid: u32,
    pub gid: u32,
    pub rdev: u32,
    pub flags: u32,
}

/// The attribute block `meta` stands for, under the inode `ino`: times
/// and ownership carried over, creation time and flags zeroed.
pub open spec fn spec_attr_from_meta(meta: Meta, ino: u64) -> Attr {
    Attr {
        ino,
        size: meta.size,
        blocks: meta.blocks,
        atime_s: meta.atime_s,
        atime_ns: meta.atime_ns,
        mtime_s: meta.mtime_s,
        mtime_ns: meta.mtime_ns,
        ctime_s: meta.ctime_s,
        ctime_ns: meta.ctime_ns,
        crtime_s: 0,
        crtime_ns: 0,
        kind: meta.kind,
        perm: meta.perm,
        nlink: meta.nlink,
        uid: meta.uid,
        gid: meta.gid,
        rdev: meta.rdev,
        flags: 0,
    }
}

/// Turns backing metadata into an attribute block, keeping the backing
/// inode or replacing it with the given one.
pub fn attr_from_meta(meta: &Meta, ino: Option<u64>) -> (r: Attr)
    ensures
        r == spec_attr_from_meta(
            *meta,
            match ino {
                Some(i) => i,
                None => meta.ino,
            },
        ),
{
    let ino_val = match ino {
        Some(i) => i,
        None => meta.ino,
    };
    Attr {
        ino: ino_val,
        size: meta.size,
        blocks: meta.blocks,
        atime_s: meta.atime_s,
        atime_ns: meta.atime_ns,
        mtime_s: meta.mtime_s,
        mtime_ns: meta.mtime_ns,
        ctime_s: meta.ctime_s,
        ctime_ns: meta.ctime_ns,
        crtime_s: 0,
        crtime_ns: 0,
        kind: meta.kind,
        perm: meta.perm,
        nlink: meta.nlink,
        uid: meta.uid,
        gid: meta.gid,
        rdev: meta.rdev,
        flags: 0,
    }
}

/// The attribute block of a Split-mode row. A symlink passes its own
/// metadata through. A part-0 row is the virtual directory over a real
/// file: the backing file's metadata with the kind forced to directory,
/// permissions to `0o755` and the block count to zero. A chunk row takes
/// the backing file's metadata — `meta` is then the metadata of the
/// file, the row's parent — with the size clamped to its block.
pub fn split_attr(row: &FileInfo, meta: &Meta, blocksize: u64) -> (r: Attr)
    requires
        !row@.symlink && row@.part >= 1 ==> (row@.part - 1) * blocksize <= meta.size,
    ensures
        row@.symlink ==> r == spec_attr_from_meta(*meta, row@.ino),
        !row@.symlink && row@.part == 0 ==> r == (Attr {
            kind: FileKind::Directory,
            blocks: 0,
            perm: 0o755,
            ..spec_attr_from_meta(*meta, row@.ino)
        }),
        !row@.symlink && row@.part >= 1 ==> r == (Attr {
            size: (if meta.size - (row@.part - 1) * blocksize < blocksize {
                meta.size - (row@.part - 1) * blocksize
            } else {
                blocksize as int
            }) as u64,
            ..spec_attr_from_meta(*meta, row@.ino)
        }),
{
    if row.symlink {
        attr_from_meta(meta, Some(row.ino))
    } else if row.part == 0 {
        let mut a = attr_from_meta(meta, Some(row.ino));
        a.kind = FileKind::Directory;
        a.blocks = 0;
        a.perm = 0o755;
        a
    } else {
        let mut a = attr_from_meta(meta, Some(row.ino));
        let chunk_start = (row.part - 1) * blocksize;
        let rest = meta.size - chunk_start;
        a.size = if rest < blocksize {
            rest
        } else {
            blocksize
        };
        a
    }
}

/// The attribute block of the synthetic configuration file: the mount
/// root's attributes with the configuration inode, the serialized
/// document's length, one block, and the regular-file kind.
pub fn split_config_attr(root_attr: &Attr, config_len: u64) -> (r: Attr)
    ensures
        r == (Attr {
            ino: INO_CONFIG,
            size: config_len,
            blocks: 1,
            kind: FileKind::RegularFile,
            ..*root_attr
        }),
{
    let mut a = *root_attr;
    a.ino = INO_CONFIG;
    a.size = config_len;
    a.blocks = 1;
    a.kind = FileKind::RegularFile;
    a
}

/// The sizes of a run of attribute blocks, summed.
pub open spec fn sum_sizes(s: Seq<Attr>) -> int
    decreases s.len(),
{
    if s.len() == 0 {
        0
    } else {
        sum_sizes(s.drop_last()) + s.last().size
    }
}

/// The block counts of a run of attribute blocks, summed.
pub open spec fn sum_blocks(s: Seq<Attr>) -> int
    decreases s.len(),
{
    if s.len() == 0 {
        0
    } else {
        sum_blocks(s.drop_last()) + s.last().blocks
    }
}

/// Partial sums never shrink.
proof fn lemma_sums_grow(s: Seq<Attr>, i: int)
    requires
        0 <= i <= s.len(),
    ensures
        sum_sizes(s) >= sum_sizes(s.take(i)),
        sum_blocks(s) >= sum_blocks(s.take(i)),
    decreases s.len() - i,
{
    if i == s.len() {
        assert(s.take(i) =~= s);
    } else {
        lemma_sums_grow(s, i + 1);
        assert(s.take(i + 1).drop_last() =~= s.take(i));
        assert(s.take(i + 1).last() == s[i]);
    }
}

/// The attribute block of a Cat-mode virtual directory: its first chunk's
/// attributes under its own inode, with size and blocks the sums over all
/// chunks. Yields nothing when there is no chunk to start from or a sum
/// does not fit.
pub fn cat_vdir_attr(child_attrs: &Vec<Attr>, ino: u64) -> (r: Option<Attr>)
    ensures
        match r {
            Some(a) => child_attrs@.len() >= 1 && a == (Attr {
                ino,
                size: sum_sizes(child_attrs@) as u64,
                blocks: sum_blocks(child_attrs@) as u64,
                ..child_attrs@[0]
            }) && sum_sizes(child_attrs@) <= u64::MAX && sum_blocks(child_attrs@) <= u64::MAX,
            None => child_attrs@.len() == 0 || sum_sizes(child_attrs@) > u64::MAX || sum_blocks(
                child_attrs@,
            ) > u64::MAX,
        },
{
    let n = child_attrs.len();
    if n == 0 {
        return None;
    }
    let mut size_acc: u64 = 0;
    let mut blocks_acc: u64 = 0;
    let mut i: usize = 0;
    proof {
        assert(child_attrs@.take(0) =~= Seq::<Attr>::empty());
    }
    while i < n
        invariant
            n == child_attrs@.len(),
            i <= n,
            size_acc == sum_sizes(child_attrs@.take(i as int)),
            blocks_acc == sum_blocks(child_attrs@.take(i as int)),
        decreases n - i,
    {
        let a = &child_attrs[i];
        proof {
            assert(child_attrs@.take(i + 1).drop_last() =~= child_attrs@.take(i as int));
            assert(child_attrs@.take(i + 1).last() == child_attrs@[i as int]);
        }
        if a.size > u64::MAX - size_acc {
            proof {
                lemma_sums_grow(child_attrs@, i + 1);
            }
            return None;
        }
        size_acc = size_acc + a.size;
        if a.blocks > u64::MAX - blocks_acc {
            proof {
                lemma_sums_grow(child_attrs@, i + 1);
            }
            return None;
        }
        blocks_acc = blocks_acc + a.blocks;
        i += 1;
    }
    proof {
        assert(child_attrs@.take(n as int) =~= child_attrs@);
    }
    let base = child_attrs[0];
    let mut a = base;
    a.ino = ino;
    a.size = size_acc;
    a.blocks = blocks_acc;
    Some(a)
}

} // verus!
