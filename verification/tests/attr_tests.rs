use scfs::attr::{attr_from_meta, cat_vdir_attr, split_attr, split_config_attr, Meta};
use scfs::index::FileDb;
use scfs::populate::split_populate_entry;
use scfs::{FileKind, INO_CONFIG, INO_FIRST_FREE, INO_OUTSIDE, INO_ROOT};

fn meta_of(size: u64, kind: FileKind) -> Meta {
    Meta {
        ino: 42,
        size,
        blocks: 8,
        atime_s: 100,
        atime_ns: 1,
        mtime_s: 200,
        mtime_ns: 2,
        ctime_s: 300,
        ctime_ns: 3,
        kind,
        perm: 0o644,
        nlink: 1,
        uid: 1000,
        gid: 1000,
        rdev: 0,
    }
}

#[test]
fn attr_carries_meta_over() {
    let m = meta_of(5, FileKind::RegularFile);
    let a = attr_from_meta(&m, None);
    assert_eq!(a.ino, 42);
    assert_eq!(a.size, 5);
    assert_eq!((a.crtime_s, a.crtime_ns, a.flags), (0, 0, 0));
    let a = attr_from_meta(&m, Some(7));
    assert_eq!(a.ino, 7);
}

#[test]
fn split_vdir_attr_is_forced_directory() {
    let mut db = FileDb::new();
    let mut next = INO_FIRST_FREE;
    split_populate_entry(
        &mut db,
        &mut next,
        INO_OUTSIDE,
        b"/m".to_vec(),
        b"m".to_vec(),
        FileKind::Directory,
        0,
        2,
    );
    let file = split_populate_entry(
        &mut db,
        &mut next,
        INO_ROOT,
        b"/m/hello".to_vec(),
        b"hello".to_vec(),
        FileKind::RegularFile,
        5,
        2,
    );
    let row = db.get_by_ino(file).unwrap();
    let a = split_attr(row, &meta_of(5, FileKind::RegularFile), 2);
    assert_eq!(a.kind, FileKind::Directory);
    assert_eq!(a.perm, 0o755);
    assert_eq!(a.blocks, 0);
    assert_eq!(a.ino, file);
    // The virtual directory keeps the backing file's size field.
    assert_eq!(a.size, 5);
}

#[test]
fn split_chunk_attr_clamps_size() {
    // A 5-byte file under block size 2: chunk sizes 2, 2, 1.
    let mut db = FileDb::new();
    let mut next = INO_FIRST_FREE;
    split_populate_entry(
        &mut db,
        &mut next,
        INO_OUTSIDE,
        b"/m".to_vec(),
        b"m".to_vec(),
        FileKind::Directory,
        0,
        2,
    );
    let file = split_populate_entry(
        &mut db,
        &mut next,
        INO_ROOT,
        b"/m/hello".to_vec(),
        b"hello".to_vec(),
        FileKind::RegularFile,
        5,
        2,
    );
    let meta = meta_of(5, FileKind::RegularFile);
    let chunks = db.children_from(file, 0);
    let sizes: Vec<u64> = chunks
        .iter()
        .map(|c| split_attr(c, &meta, 2).size)
        .collect();
    assert_eq!(sizes, vec![2, 2, 1]);
    for c in &chunks {
        let a = split_attr(c, &meta, 2);
        assert_eq!(a.kind, FileKind::RegularFile);
        assert_eq!(a.ino, c.ino);
    }
}

#[test]
fn split_symlink_attr_passes_through() {
    let mut db = FileDb::new();
    let mut next = INO_FIRST_FREE;
    split_populate_entry(
        &mut db,
        &mut next,
        INO_OUTSIDE,
        b"/m".to_vec(),
        b"m".to_vec(),
        FileKind::Directory,
        0,
        2,
    );
    let link = split_populate_entry(
        &mut db,
        &mut next,
        INO_ROOT,
        b"/m/link".to_vec(),
        b"link".to_vec(),
        FileKind::Symlink,
        0,
        2,
    );
    let row = db.get_by_ino(link).unwrap();
    let a = split_attr(row, &meta_of(5, FileKind::Symlink), 2);
    assert_eq!(a.kind, FileKind::Symlink);
    assert_eq!(a.ino, link);
    assert_eq!(a.perm, 0o644);
}

#[test]
fn config_attr_reports_document_length() {
    let root = attr_from_meta(&meta_of(0, FileKind::Directory), Some(INO_ROOT));
    let doc = scfs::config_doc::serialize_config(&scfs::Config::default());
    let a = split_config_attr(&root, doc.len() as u64);
    assert_eq!(a.ino, INO_CONFIG);
    assert_eq!(a.size, doc.len() as u64);
    assert_eq!(a.blocks, 1);
    assert_eq!(a.kind, FileKind::RegularFile);
    assert_eq!(a.uid, root.uid);
}

#[test]
fn cat_vdir_attr_sums_children() {
    let a0 = attr_from_meta(&meta_of(2, FileKind::RegularFile), Some(11));
    let a1 = attr_from_meta(&meta_of(2, FileKind::RegularFile), Some(12));
    let a2 = attr_from_meta(&meta_of(1, FileKind::RegularFile), Some(13));
    let merged = cat_vdir_attr(&vec![a0, a1, a2], 10).unwrap();
    assert_eq!(merged.ino, 10);
    assert_eq!(merged.size, 5);
    assert_eq!(merged.blocks, 24);
    assert_eq!(merged.kind, FileKind::RegularFile);
    // No chunk to start from: no attribute block.
    assert!(cat_vdir_attr(&Vec::new(), 10).is_none());
}
