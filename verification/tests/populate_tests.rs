use scfs::index::FileDb;
use scfs::populate::{
    cat_mark_vdirs, cat_populate_entry, chunk_count, make_chunk_name, parse_chunk_part,
    split_populate_entry,
};
use scfs::{FileKind, ScfsError, INO_FIRST_FREE, INO_OUTSIDE, INO_ROOT};

#[test]
fn chunk_count_shapes() {
    // max(1, ceil(s / b)), so an empty file still has one chunk.
    assert_eq!(chunk_count(0, 1), 1);
    assert_eq!(chunk_count(0, 16), 1);
    assert_eq!(chunk_count(5, 2), 3);
    assert_eq!(chunk_count(4, 2), 2);
    assert_eq!(chunk_count(100, 1), 100);
    assert_eq!(chunk_count(100, 37), 3);
    assert_eq!(chunk_count(1, 1024), 1);
}

#[test]
fn chunk_names_are_zero_padded() {
    assert_eq!(make_chunk_name(0), b"scfs.0000000000".to_vec());
    assert_eq!(make_chunk_name(1), b"scfs.0000000001".to_vec());
    assert_eq!(make_chunk_name(2), b"scfs.0000000002".to_vec());
    assert_eq!(make_chunk_name(9999999999), b"scfs.9999999999".to_vec());
}

#[test]
fn chunk_name_round_trip() {
    for i in [0u64, 1, 2, 42, 12345, 9999999999] {
        let name = make_chunk_name(i);
        assert_eq!(parse_chunk_part(&name), Some(i + 1));
    }
}

#[test]
fn chunk_name_rejects_malformed() {
    assert!(parse_chunk_part(b"hello").is_none());
    assert!(parse_chunk_part(b"scfs.").is_none());
    assert!(parse_chunk_part(b"scfs.123").is_none());
    assert!(parse_chunk_part(b"scfs.00000000x0").is_none());
    assert!(parse_chunk_part(b"scfs.00000000001").is_none());
    assert!(parse_chunk_part(b"xcfs.0000000000").is_none());
}

#[test]
fn split_file_emits_chunk_rows() {
    // A 5-byte file under block size 2: a virtual directory plus three
    // chunks named scfs.0000000000 .. scfs.0000000002.
    let mut db = FileDb::new();
    let mut next = INO_FIRST_FREE;
    let root = split_populate_entry(
        &mut db,
        &mut next,
        INO_OUTSIDE,
        b"/mirror".to_vec(),
        b"mirror".to_vec(),
        FileKind::Directory,
        0,
        2,
    );
    assert_eq!(root, INO_ROOT);
    let file = split_populate_entry(
        &mut db,
        &mut next,
        root,
        b"/mirror/hello".to_vec(),
        b"hello".to_vec(),
        FileKind::RegularFile,
        5,
        2,
    );
    assert_eq!(file, 10);
    assert_eq!(next, 14);
    assert_eq!(db.len(), 5);

    let file_row = db.get_by_ino(file).unwrap();
    assert!(file_row.vdir);
    assert_eq!(file_row.part, 0);
    assert_eq!(file_row.file_name, b"hello".to_vec());

    let chunks = db.children_from(file, 0);
    assert_eq!(chunks.len(), 3);
    for (i, chunk) in chunks.iter().enumerate() {
        assert_eq!(chunk.part, i as u64 + 1);
        assert_eq!(chunk.parent_ino, file);
        assert!(!chunk.vdir);
        assert!(!chunk.symlink);
        assert_eq!(chunk.file_name, make_chunk_name(i as u64));
        let mut expected_path = b"/mirror/hello/".to_vec();
        expected_path.extend_from_slice(&make_chunk_name(i as u64));
        assert_eq!(chunk.path, expected_path);
    }
}

#[test]
fn split_empty_file_has_one_chunk() {
    // An empty file still gets one chunk row, so it stays distinguishable
    // from an empty directory.
    let mut db = FileDb::new();
    let mut next = INO_FIRST_FREE;
    let root = split_populate_entry(
        &mut db,
        &mut next,
        INO_OUTSIDE,
        b"/m".to_vec(),
        b"m".to_vec(),
        FileKind::Directory,
        0,
        16,
    );
    let file = split_populate_entry(
        &mut db,
        &mut next,
        root,
        b"/m/empty_file".to_vec(),
        b"empty_file".to_vec(),
        FileKind::RegularFile,
        0,
        16,
    );
    let chunks = db.children_from(file, 0);
    assert_eq!(chunks.len(), 1);
    assert_eq!(chunks[0].file_name, b"scfs.0000000000".to_vec());
    assert_eq!(chunks[0].part, 1);

    // The lone chunk of an empty file has size 0.
    let meta = scfs::attr::Meta {
        ino: 1,
        size: 0,
        blocks: 0,
        atime_s: 0,
        atime_ns: 0,
        mtime_s: 0,
        mtime_ns: 0,
        ctime_s: 0,
        ctime_ns: 0,
        kind: FileKind::RegularFile,
        perm: 0o644,
        nlink: 1,
        uid: 0,
        gid: 0,
        rdev: 0,
    };
    let a = scfs::attr::split_attr(&chunks[0], &meta, 16);
    assert_eq!(a.size, 0);
}

#[test]
fn split_symlink_is_recorded_verbatim() {
    let mut db = FileDb::new();
    let mut next = INO_FIRST_FREE;
    let root = split_populate_entry(
        &mut db,
        &mut next,
        INO_OUTSIDE,
        b"/m".to_vec(),
        b"m".to_vec(),
        FileKind::Directory,
        0,
        2,
    );
    let link = split_populate_entry(
        &mut db,
        &mut next,
        root,
        b"/m/link".to_vec(),
        b"link".to_vec(),
        FileKind::Symlink,
        0,
        2,
    );
    let row = db.get_by_ino(link).unwrap();
    assert!(row.symlink);
    assert!(!row.vdir);
    assert_eq!(row.part, 0);
    // No chunk rows under a symlink.
    assert_eq!(db.children_from(link, 0).len(), 0);
}

#[test]
fn cat_populate_reads_chunk_names() {
    let mut db = FileDb::new();
    let mut next = INO_FIRST_FREE;
    let root = cat_populate_entry(
        &mut db,
        &mut next,
        INO_OUTSIDE,
        b"/m".to_vec(),
        b"m".to_vec(),
        FileKind::Directory,
    )
    .unwrap()
    .unwrap();
    assert_eq!(root, INO_ROOT);
    let dir = cat_populate_entry(
        &mut db,
        &mut next,
        root,
        b"/m/hello".to_vec(),
        b"hello".to_vec(),
        FileKind::Directory,
    )
    .unwrap()
    .unwrap();
    for i in 0..3u64 {
        let name = make_chunk_name(i);
        let mut path = b"/m/hello/".to_vec();
        path.extend_from_slice(&name);
        let ino = cat_populate_entry(&mut db, &mut next, dir, path, name, FileKind::RegularFile)
            .unwrap()
            .unwrap();
        let row = db.get_by_ino(ino).unwrap();
        assert_eq!(row.part, i + 1);
    }

    // The sweep marks the chunk-holding directory as a virtual directory.
    let db = cat_mark_vdirs(db);
    assert!(db.get_by_ino(dir).unwrap().vdir);
    assert!(!db.get_by_ino(root).unwrap().vdir);
}

#[test]
fn cat_populate_skips_config_and_rejects_corrupt_names() {
    let mut db = FileDb::new();
    let mut next = INO_FIRST_FREE;
    let root = cat_populate_entry(
        &mut db,
        &mut next,
        INO_OUTSIDE,
        b"/m".to_vec(),
        b"m".to_vec(),
        FileKind::Directory,
    )
    .unwrap()
    .unwrap();
    // The configuration document is not an entry of the mount.
    let skipped = cat_populate_entry(
        &mut db,
        &mut next,
        root,
        b"/m/.scfs_config".to_vec(),
        b".scfs_config".to_vec(),
        FileKind::RegularFile,
    )
    .unwrap();
    assert!(skipped.is_none());
    assert_eq!(db.len(), 1);
    // A regular file that is no chunk marks the mirror as corrupt.
    let err = cat_populate_entry(
        &mut db,
        &mut next,
        root,
        b"/m/stray".to_vec(),
        b"stray".to_vec(),
        FileKind::RegularFile,
    )
    .unwrap_err();
    assert_eq!(err, ScfsError::BadChunkName);
    assert_eq!(db.len(), 1);
}
