use scfs::handles::{Handle, HandleTable};
use scfs::index::FileDb;
use scfs::ops::{open_cat, open_split};
use scfs::populate::{cat_mark_vdirs, cat_populate_entry, make_chunk_name, split_populate_entry};
use scfs::{FileKind, ScfsError, INO_FIRST_FREE, INO_OUTSIDE, INO_ROOT};

#[test]
fn open_yields_fresh_ids() {
    let mut table = HandleTable::new();
    let a = table.open(Handle::Config).unwrap();
    let b = table.open(Handle::Config).unwrap();
    assert_ne!(a, b);
    assert!(table.get(a).is_some());
    assert!(table.get(b).is_some());
}

#[test]
fn release_is_idempotent() {
    // Releasing an unknown or already-released handle does not error out.
    let mut table = HandleTable::new();
    table.release(12345);
    let fh = table
        .open(Handle::SplitRange { file: b"/m/f".to_vec(), start: 0, end: 2 })
        .unwrap();
    assert!(table.get(fh).is_some());
    table.release(fh);
    assert!(table.get(fh).is_none());
    table.release(fh);
    assert!(table.get(fh).is_none());
}

#[test]
fn released_ids_are_not_reused() {
    let mut table = HandleTable::new();
    let a = table.open(Handle::Config).unwrap();
    table.release(a);
    let b = table.open(Handle::Config).unwrap();
    assert_ne!(a, b);
}

#[test]
fn open_split_stores_chunk_range() {
    let mut db = FileDb::new();
    let mut next = INO_FIRST_FREE;
    split_populate_entry(
        &mut db,
        &mut next,
        INO_OUTSIDE,
        b"/m".to_vec(),
        b"m".to_vec(),
        FileKind::Directory,
        0,
        2,
    );
    let file = split_populate_entry(
        &mut db,
        &mut next,
        INO_ROOT,
        b"/m/hello".to_vec(),
        b"hello".to_vec(),
        FileKind::RegularFile,
        5,
        2,
    );
    let chunks = db.children_from(file, 0);
    let mut table = HandleTable::new();
    // The second chunk spans bytes [2, 4) of the backing file.
    let fh = open_split(&db, &mut table, chunks[1].ino, 2).unwrap();
    match table.get(fh).unwrap() {
        Handle::SplitRange { file, start, end } => {
            assert_eq!(file, &b"/m/hello".to_vec());
            assert_eq!((*start, *end), (2, 4));
        }
        _ => panic!("expected a split handle"),
    }
    // An unknown inode, and a non-chunk row, are lookup misses.
    assert_eq!(open_split(&db, &mut table, 999, 2).unwrap_err(), ScfsError::NotFound);
    assert_eq!(open_split(&db, &mut table, file, 2).unwrap_err(), ScfsError::NotFound);
}

#[test]
fn open_cat_stores_chunk_paths_in_order() {
    let mut db = FileDb::new();
    let mut next = INO_FIRST_FREE;
    cat_populate_entry(
        &mut db,
        &mut next,
        INO_OUTSIDE,
        b"/m".to_vec(),
        b"m".to_vec(),
        FileKind::Directory,
    )
    .unwrap();
    let dir = cat_populate_entry(
        &mut db,
        &mut next,
        INO_ROOT,
        b"/m/hello".to_vec(),
        b"hello".to_vec(),
        FileKind::Directory,
    )
    .unwrap()
    .unwrap();
    let mut expected = Vec::new();
    for i in 0..3u64 {
        let name = make_chunk_name(i);
        let mut path = b"/m/hello/".to_vec();
        path.extend_from_slice(&name);
        expected.push(path.clone());
        cat_populate_entry(&mut db, &mut next, dir, path, name, FileKind::RegularFile).unwrap();
    }
    let db = cat_mark_vdirs(db);
    let mut table = HandleTable::new();
    let fh = open_cat(&db, &mut table, dir).unwrap();
    match table.get(fh).unwrap() {
        Handle::CatParts { files } => assert_eq!(files, &expected),
        _ => panic!("expected a cat handle"),
    }
    // An inode without children opens over no chunks.
    let fh = open_cat(&db, &mut table, 999).unwrap();
    match table.get(fh).unwrap() {
        Handle::CatParts { files } => assert!(files.is_empty()),
        _ => panic!("expected a cat handle"),
    }
}
