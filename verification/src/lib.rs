//! SCFS: a pair of read-only user-space filesystems over a mirrored
//! directory tree.
//!
//! Split mode presents each regular file of the mirror as a directory of
//! fixed-size chunks named `scfs.%010d`; a hidden configuration file at the
//! mount root records the block size. Cat mode inverts the transformation:
//! a mirror produced by Split mode is shown with each chunk directory as a
//! single concatenated file.
//!
//! This crate holds the in-memory engine shared by both modes: the metadata
//! index, the scanner's row construction, the attribute resolver, the
//! file-handle table, the read engine's offset arithmetic, the directory
//! listing protocol, and the codecs for the configuration document and the
//! symbolic block-size quantities. All file and kernel I/O stays with the
//! caller, which feeds the engine plain values.

use vstd::prelude::*;

pub mod attr;
pub mod config_doc;
pub mod decimal;
pub mod handles;
pub mod index;
pub mod ops;
pub mod populate;
pub mod quantity;
pub mod read;
pub mod readdir;

verus! {

/// Sentinel standing for the parent of the mount root.
pub const INO_OUTSIDE: u64 = 0;

/// Inode of the mount root.
pub const INO_ROOT: u64 = 1;

/// Inode of the synthetic configuration file shown in Split mode.
pub const INO_CONFIG: u64 = 2;

/// First inode handed out by the scanner's monotonic counter.
pub const INO_FIRST_FREE: u64 = 10;

/// Block size used when none is given: two mebibytes.
pub const CONFIG_DEFAULT_BLOCKSIZE: u64 = 2 * 1024 * 1024;

/// How long the kernel may cache a served attribute block, in seconds:
/// one day, since nothing changes during a session.
pub const TTL_SECONDS: u64 = 60 * 60 * 24;

/// The file types the engine serves; every other kind in the mirror is
/// skipped by the scanner.
#[derive(Clone, Copy, Debug, PartialEq, Eq, Structural)]
pub enum FileKind {
    Directory,
    RegularFile,
    Symlink,
}

/// Which of the two transformations a mount performs.
#[derive(Clone, Copy, Debug, PartialEq, Eq, Structural)]
pub enum Mode {
    Split,
    Cat,
}

/// Which front-end invoked the program; selects the command-line shape.
#[derive(Clone, Copy, Debug, PartialEq, Eq, Structural)]
pub enum Cli {
    SCFS,
    SplitFS,
    CatFS,
}

/// The errors the engine reports to its caller; mount-time failures that
/// leave the filesystem ill-defined are the caller's to raise.
#[derive(Clone, Copy, Debug, PartialEq, Eq, Structural)]
pub enum ScfsError {
    /// No row matches the queried inode or `(parent, name)` pair; shown to
    /// the kernel as "no such entry".
    NotFound,
    /// A regular file in a Cat mirror does not carry a well-formed chunk
    /// name; the mirror is corrupt.
    BadChunkName,
}

/// The record stored in the mirror's configuration document.
#[derive(Clone, Copy, Debug, PartialEq, Eq, Structural)]
pub struct Config {
    pub blocksize: u64,
}

impl Config {
    /// Returns this configuration with the block size replaced.
    pub fn blocksize(self, blocksize: u64) -> (r: Config)
        ensures
            r.blocksize == blocksize,
    {
        Config { blocksize }
    }
}

impl Default for Config {
    fn default() -> (r: Config)
        ensures
            r.blocksize == CONFIG_DEFAULT_BLOCKSIZE,
    {
        Config { blocksize: CONFIG_DEFAULT_BLOCKSIZE }
    }
}

/// The mount options handed to the transport: always read-only and the
/// filesystem name first, the user's options after them, in their order.
pub fn mount_options(user: Vec<String>) -> (r: Vec<String>)
    ensures
        r@.len() == user@.len() + 2,
        r@[0]@ == "ro"@,
        r@[1]@ == "fsname=scfs"@,
        r@.skip(2) == user@,
{
    let mut r: Vec<String> = Vec::new();
    r.push("ro".to_owned());
    r.push("fsname=scfs".to_owned());
    let ghost head = r@;
    let mut rest = user;
    let ghost user_view = rest@;
    proof {
        assert(head + user_view.take(0) =~= head);
        assert(user_view.skip(0) =~= user_view);
    }
    while rest.len() > 0
        invariant
            rest@.len() <= user_view.len(),
            r@ == head + user_view.take(user_view.len() - rest@.len()),
            rest@ == user_view.skip(user_view.len() - rest@.len()),
            head.len() == 2,
        decreases rest.len(),
    {
        let ghost k = user_view.len() - rest@.len();
        let s = rest.remove(0);
        proof {
            assert(s == user_view[k as int]);
            assert(rest@ =~= user_view.skip(k + 1));
            assert(user_view.take(k + 1) =~= user_view.take(k as int).push(user_view[k as int]));
        }
        r.push(s);
        proof {
            assert(r@ =~= head + user_view.take(k + 1));
        }
    }
    proof {
        assert(user_view.take(user_view.len() as int) =~= user_view);
        assert(r@.skip(2) =~= user_view);
    }
    r
}

} // verus!
