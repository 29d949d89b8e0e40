//! The metadata index: one row per visible entity, keyed by inode, with
//! lookup by `(parent inode, file name)` and ordered child enumeration.
//!
//! All rows are created while the mirror is scanned; afterwards the index is
//! only read. Child enumeration keeps insertion order, which stays stable for
//! the life of a mount.

use vstd::prelude::*;

verus! {

/// One row of the index: a directory, regular file, symlink, or a
/// synthesized chunk or virtual directory.
#[derive(Debug)]
pub struct FileInfo {
    /// Stable inode id, unique within the index.
    pub ino: u64,
    /// Parent inode; `INO_OUTSIDE` only for the mount root.
    pub parent_ino: u64,
    /// Absolute path in the backing mirror; for a synthetic chunk, the
    /// synthesized path `<file>/scfs.%010d`.
    pub path: Vec<u8>,
    /// Final component of `path`.
    pub file_name: Vec<u8>,
    /// 0 for directories, symlinks and whole files; the 1-based chunk
    /// number for chunk rows.
    pub part: u64,
    /// True when this row is a virtual directory view of a real file.
    pub vdir: bool,
    /// True for symbolic links.
    pub symlink: bool,
}

/// The mathematical value of a row.
pub ghost struct FileInfoV {
    pub ino: u64,
    pub parent_ino: u64,
    pub path: Seq<u8>,
    pub file_name: Seq<u8>,
    pub part: u64,
    pub vdir: bool,
    pub symlink: bool,
}

impl View for FileInfo {
    type V = FileInfoV;

    open spec fn view(&self) -> FileInfoV {
        FileInfoV {
            ino: self.ino,
            parent_ino: self.parent_ino,
            path: self.path@,
            file_name: self.file_name@,
            part: self.part,
            vdir: self.vdir,
            symlink: self.symlink,
        }
    }
}

impl FileInfo {
    /// An owned copy of this row.
    pub fn duplicate(&self) -> (r: FileInfo)
        ensures
            r@ == self@,
    {
        FileInfo {
            ino: self.ino,
            parent_ino: self.parent_ino,
            path: clone_bytes(&self.path),
            file_name: clone_bytes(&self.file_name),
            part: self.part,
            vdir: self.vdir,
            symlink: self.symlink,
        }
    }
}

/// An owned copy of a byte string.
pub fn clone_bytes(v: &Vec<u8>) -> (r: Vec<u8>)
    ensures
        r@ == v@,
{
    let r = v.clone();
    proof {
        assert(r@ =~= v@);
    }
    r
}

/// The rows of `s` whose parent is `parent`, in order.
pub open spec fn children_of(s: Seq<FileInfoV>, parent: u64) -> Seq<FileInfoV>
    decreases s.len(),
{
    if s.len() == 0 {
        Seq::empty()
    } else if s.last().parent_ino == parent {
        children_of(s.drop_last(), parent) + seq![s.last()]
    } else {
        children_of(s.drop_last(), parent)
    }
}

/// The first row of `s` carrying the inode `ino`, if any; under the index
/// invariant it is the only one.
pub open spec fn spec_find_ino(s: Seq<FileInfoV>, ino: u64) -> Option<FileInfoV>
    decreases s.len(),
{
    if s.len() == 0 {
        None
    } else if s[0].ino == ino {
        Some(s[0])
    } else {
        spec_find_ino(s.drop_first(), ino)
    }
}

/// The first row of `s` under `(parent, name)`, if any.
pub open spec fn spec_find_child(s: Seq<FileInfoV>, parent: u64, name: Seq<u8>) -> Option<
    FileInfoV,
>
    decreases s.len(),
{
    if s.len() == 0 {
        None
    } else if s[0].parent_ino == parent && s[0].file_name == name {
        Some(s[0])
    } else {
        spec_find_child(s.drop_first(), parent, name)
    }
}

/// Where the first match sits, `spec_find_ino` finds exactly it; where
/// nothing matches, it finds nothing.
pub proof fn lemma_find_ino_at(s: Seq<FileInfoV>, ino: u64, i: int)
    requires
        0 <= i < s.len(),
        s[i].ino == ino,
        forall|k: int| 0 <= k < i ==> s[k].ino != ino,
    ensures
        spec_find_ino(s, ino) == Some(s[i]),
    decreases i,
{
    if i == 0 {
    } else {
        lemma_find_ino_at(s.drop_first(), ino, i - 1);
    }
}

/// Where no row matches, `spec_find_ino` finds nothing.
pub proof fn lemma_find_ino_none(s: Seq<FileInfoV>, ino: u64)
    requires
        forall|k: int| 0 <= k < s.len() ==> s[k].ino != ino,
    ensures
        spec_find_ino(s, ino) is None,
    decreases s.len(),
{
    if s.len() > 0 {
        lemma_find_ino_none(s.drop_first(), ino);
    }
}

/// Where the first match sits, `spec_find_child` finds exactly it.
pub proof fn lemma_find_child_at(s: Seq<FileInfoV>, parent: u64, name: Seq<u8>, i: int)
    requires
        0 <= i < s.len(),
        s[i].parent_ino == parent,
        s[i].file_name == name,
        forall|k: int| 0 <= k < i ==> !(s[k].parent_ino == parent && s[k].file_name == name),
    ensures
        spec_find_child(s, parent, name) == Some(s[i]),
    decreases i,
{
    if i == 0 {
    } else {
        lemma_find_child_at(s.drop_first(), parent, name, i - 1);
    }
}

/// Where no row matches, `spec_find_child` finds nothing.
pub proof fn lemma_find_child_none(s: Seq<FileInfoV>, parent: u64, name: Seq<u8>)
    requires
        forall|k: int|
            0 <= k < s.len() ==> !(s[k].parent_ino == parent && s[k].file_name == name),
    ensures
        spec_find_child(s, parent, name) is None,
    decreases s.len(),
{
    if s.len() > 0 {
        lemma_find_child_none(s.drop_first(), parent, name);
    }
}

/// No two rows of `s` share an inode.
pub open spec fn inos_unique(s: Seq<FileInfoV>) -> bool {
    forall|i: int, j: int| 0 <= i < j < s.len() ==> s[i].ino != s[j].ino
}

/// The in-memory relational store: rows in insertion order.
pub struct FileDb {
    rows: Vec<FileInfo>,
}

impl View for FileDb {
    type V = Seq<FileInfoV>;

    closed spec fn view(&self) -> Seq<FileInfoV> {
        self.rows@.map_values(|r: FileInfo| r@)
    }
}

impl FileDb {
    /// A row of `self` carries the inode `ino`.
    pub open spec fn contains_ino(&self, ino: u64) -> bool {
        exists|i: int| 0 <= i < self@.len() && self@[i].ino == ino
    }

    /// The index invariant: inodes are unique and never reused.
    pub open spec fn wf(&self) -> bool {
        inos_unique(self@)
    }

    /// An empty index.
    pub fn new() -> (r: FileDb)
        ensures
            r@ == Seq::<FileInfoV>::empty(),
            r.wf(),
    {
        let rows: Vec<FileInfo> = Vec::new();
        proof {
            assert(rows@.map_values(|r: FileInfo| r@) =~= Seq::<FileInfoV>::empty());
        }
        FileDb { rows }
    }

    /// How many rows the index holds.
    pub fn len(&self) -> (r: usize)
        ensures
            r == self@.len(),
    {
        self.rows.len()
    }

    /// Appends one row. Used only while the mirror is scanned.
    pub fn insert(&mut self, row: FileInfo)
        requires
            old(self).wf(),
            !old(self).contains_ino(row.ino),
        ensures
            final(self)@ == old(self)@.push(row@),
            final(self).wf(),
    {
        let ghost old_view = self@;
        self.rows.push(row);
        proof {
            assert(self@ =~= old_view.push(row@));
            assert forall|i: int, j: int| 0 <= i < j < self@.len() implies self@[i].ino
                != self@[j].ino by {
                if j < old_view.len() {
                } else {
                    assert(self@[j] == row@);
                    assert(old_view[i].ino != row@.ino);
                }
            }
        }
    }

    /// The row at position `i`, in insertion order.
    pub fn row_at(&self, i: usize) -> (r: &FileInfo)
        requires
            i < self@.len(),
        ensures
            r@ == self@[i as int],
    {
        &self.rows[i]
    }

    /// Looks a row up by its inode.
    pub fn get_by_ino(&self, ino: u64) -> (r: Option<&FileInfo>)
        ensures
            match r {
                Some(row) => spec_find_ino(self@, ino) == Some(row@) && self.contains_ino(ino)
                    && row@.ino == ino && exists|i: int| 0 <= i < self@.len() && self@[i] == row@,
                None => !self.contains_ino(ino) && spec_find_ino(self@, ino) is None,
            },
    {
        let n = self.rows.len();
        let mut i: usize = 0;
        while i < n
            invariant
                n == self@.len(),
                i <= n,
                forall|k: int| 0 <= k < i ==> self@[k].ino != ino,
            decreases n - i,
        {
            if self.rows[i].ino == ino {
                proof {
                    assert(self@[i as int] == self.rows@[i as int]@);
                    lemma_find_ino_at(self@, ino, i as int);
                }
                return Some(&self.rows[i]);
            }
            i += 1;
        }
        proof {
            lemma_find_ino_none(self@, ino);
        }
        None
    }

    /// Looks a row up by its parent inode and file name.
    pub fn get_by_parent_and_name(&self, parent: u64, name: &[u8]) -> (r: Option<&FileInfo>)
        ensures
            match r {
                Some(row) => spec_find_child(self@, parent, name@) == Some(row@) && row@.parent_ino
                    == parent && row@.file_name == name@ && exists|i: int|
                    0 <= i < self@.len() && self@[i] == row@,
                None => spec_find_child(self@, parent, name@) is None && forall|i: int|
                    0 <= i < self@.len() ==> !(self@[i].parent_ino == parent && self@[i].file_name
                        == name@),
            },
    {
        let n = self.rows.len();
        let mut i: usize = 0;
        while i < n
            invariant
                n == self@.len(),
                i <= n,
                forall|k: int|
                    0 <= k < i ==> !(self@[k].parent_ino == parent && self@[k].file_name == name@),
            decreases n - i,
        {
            if self.rows[i].parent_ino == parent && bytes_eq(self.rows[i].file_name.as_slice(), name) {
                proof {
                    assert(self@[i as int] == self.rows@[i as int]@);
                    lemma_find_child_at(self@, parent, name@, i as int);
                }
                return Some(&self.rows[i]);
            }
            i += 1;
        }
        proof {
            lemma_find_child_none(self@, parent, name@);
        }
        None
    }

    /// Resolves an inode, as a kernel request needs it: the row, or "no
    /// such entry" exactly when the index holds no row with that inode.
    pub fn lookup_ino(&self, ino: u64) -> (r: Result<&FileInfo, crate::ScfsError>)
        ensures
            match r {
                Ok(row) => spec_find_ino(self@, ino) == Some(row@) && self.contains_ino(ino)
                    && row@.ino == ino && exists|i: int| 0 <= i < self@.len() && self@[i] == row@,
                Err(e) => e == crate::ScfsError::NotFound && !self.contains_ino(ino),
            },
    {
        match self.get_by_ino(ino) {
            Some(row) => Ok(row),
            None => Err(crate::ScfsError::NotFound),
        }
    }

    /// Resolves a name within a directory: the row under `(parent, name)`,
    /// or "no such entry" exactly when no row matches.
    pub fn lookup_child(&self, parent: u64, name: &[u8]) -> (r: Result<
        &FileInfo,
        crate::ScfsError,
    >)
        ensures
            match r {
                Ok(row) => spec_find_child(self@, parent, name@) == Some(row@) && row@.parent_ino
                    == parent && row@.file_name == name@ && exists|i: int|
                    0 <= i < self@.len() && self@[i] == row@,
                Err(e) => e == crate::ScfsError::NotFound && forall|i: int|
                    0 <= i < self@.len() ==> !(self@[i].parent_ino == parent
                        && self@[i].file_name == name@),
            },
    {
        match self.get_by_parent_and_name(parent, name) {
            Some(row) => Ok(row),
            None => Err(crate::ScfsError::NotFound),
        }
    }

    /// The children of `parent`, in insertion order, starting at the
    /// zero-based position `offset` within the child list; an offset past
    /// the end yields the empty list.
    pub fn children_from(&self, parent: u64, offset: usize) -> (r: Vec<FileInfo>)
        ensures
            r@.map_values(|x: FileInfo| x@) == if offset <= children_of(self@, parent).len() {
                children_of(self@, parent).skip(offset as int)
            } else {
                Seq::<FileInfoV>::empty()
            },
    {
        let ghost target = children_of(self@, parent);
        let n = self.rows.len();
        let mut r: Vec<FileInfo> = Vec::new();
        let ghost rv = |x: FileInfo| x@;
        // Number of children seen so far; only those past `offset` are kept.
        let mut seen: usize = 0;
        let mut i: usize = 0;
        proof {
            assert(r@.map_values(rv) =~= Seq::<FileInfoV>::empty());
        }
        while i < n
            invariant
                n == self@.len(),
                i <= n,
                rv == (|x: FileInfo| x@),
                target == children_of(self@, parent),
                seen == children_of(self@.take(i as int), parent).len(),
                seen <= i,
                children_of(self@.take(i as int), parent) == target.take(seen as int),
                r@.map_values(rv) == if offset <= seen {
                    children_of(self@.take(i as int), parent).skip(offset as int)
                } else {
                    Seq::<FileInfoV>::empty()
                },
            decreases n - i,
        {
            let ghost prefix = children_of(self@.take(i as int), parent);
            proof {
                assert(self@.take(i + 1).drop_last() =~= self@.take(i as int));
                assert(self@.take(i + 1).last() == self@[i as int]);
                lemma_children_of_prefix(self@, parent, i + 1);
            }
            if self.rows[i].parent_ino == parent {
                proof {
                    assert(children_of(self@.take(i + 1), parent) =~= prefix.push(self@[i as int]));
                }
                if seen >= offset {
                    let ghost old_mapped = r@.map_values(rv);
                    r.push(self.rows[i].duplicate());
                    proof {
                        assert(r@.map_values(rv) =~= old_mapped.push(self@[i as int]));
                        assert(prefix.push(self@[i as int]).skip(offset as int) =~= prefix.skip(
                            offset as int,
                        ).push(self@[i as int]));
                    }
                }
                seen += 1;
                proof {
                    if offset == seen {
                        assert(prefix.push(self@[i as int]).skip(offset as int)
                            =~= Seq::<FileInfoV>::empty());
                        assert(r@.map_values(rv) =~= Seq::<FileInfoV>::empty());
                    }
                }
            } else {
                proof {
                    assert(children_of(self@.take(i + 1), parent) == prefix);
                }
            }
            i += 1;
        }
        proof {
            assert(self@.take(n as int) =~= self@);
        }
        r
    }
}

/// `children_of` of a strict prefix is a prefix of `children_of`.
proof fn lemma_children_of_prefix(s: Seq<FileInfoV>, parent: u64, n: int)
    requires
        0 <= n <= s.len(),
    ensures
        children_of(s.take(n), parent) == children_of(s, parent).take(
            children_of(s.take(n), parent).len() as int,
        ),
        children_of(s.take(n), parent).len() <= children_of(s, parent).len(),
    decreases s.len() - n,
{
    if n == s.len() {
        assert(s.take(n) =~= s);
        assert(children_of(s, parent).take(children_of(s, parent).len() as int) =~= children_of(
            s,
            parent,
        ));
    } else {
        lemma_children_of_prefix(s, parent, n + 1);
        assert(s.take(n + 1).drop_last() =~= s.take(n));
        assert(s.take(n + 1).last() == s[n]);
        if s[n].parent_ino == parent {
            assert(children_of(s.take(n + 1), parent) == children_of(s.take(n), parent) + seq![
                s[n],
            ]);
            assert(children_of(s.take(n), parent) =~= children_of(s, parent).take(
                children_of(s.take(n), parent).len() as int,
            ));
        } else {
            assert(children_of(s.take(n + 1), parent) == children_of(s.take(n), parent));
        }
    }
}

/// Byte-string equality.
pub fn bytes_eq(a: &[u8], b: &[u8]) -> (r: bool)
    ensures
        r == (a@ == b@),
{
    if a.len() != b.len() {
        proof {
            assert(a@.len() != b@.len());
        }
        return false;
    }
    let n = a.len();
    let mut i: usize = 0;
    while i < n
        invariant
            n == a@.len(),
            n == b@.len(),
            i <= n,
            forall|k: int| 0 <= k < i ==> a@[k] == b@[k],
        decreases n - i,
    {
        if a[i] != b[i] {
            return false;
        }
        i += 1;
    }
    proof {
        assert(a@ =~= b@);
    }
    true
}

} // verus!
