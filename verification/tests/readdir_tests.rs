use scfs::index::FileDb;
use scfs::populate::{cat_mark_vdirs, cat_populate_entry, make_chunk_name, split_populate_entry};
use scfs::readdir::{is_config_lookup, readdir_entries, DirEntry};
use scfs::{FileKind, Mode, INO_CONFIG, INO_FIRST_FREE, INO_OUTSIDE, INO_ROOT};

fn split_mirror_with_hello() -> FileDb {
    let mut db = FileDb::new();
    let mut next = INO_FIRST_FREE;
    split_populate_entry(
        &mut db,
        &mut next,
        INO_OUTSIDE,
        b"/m".to_vec(),
        b"m".to_vec(),
        FileKind::Directory,
        0,
        2,
    );
    split_populate_entry(
        &mut db,
        &mut next,
        INO_ROOT,
        b"/m/hello".to_vec(),
        b"hello".to_vec(),
        FileKind::RegularFile,
        5,
        2,
    );
    db
}

fn entry_tuples(entries: &[DirEntry]) -> Vec<(u64, u64, FileKind, Vec<u8>)> {
    entries
        .iter()
        .map(|e| (e.ino, e.cookie, e.kind, e.name.clone()))
        .collect()
}

#[test]
fn empty_split_root_lists_only_config() {
    // An empty mirror still shows the synthetic configuration entry.
    let mut db = FileDb::new();
    let mut next = INO_FIRST_FREE;
    split_populate_entry(
        &mut db,
        &mut next,
        INO_OUTSIDE,
        b"/m".to_vec(),
        b"m".to_vec(),
        FileKind::Directory,
        0,
        1,
    );
    let root = db.get_by_ino(INO_ROOT).unwrap().duplicate();
    let entries = readdir_entries(&db, &root, Mode::Split, 0, 1000);
    assert_eq!(
        entry_tuples(&entries),
        vec![
            (INO_ROOT, 1, FileKind::Directory, b".".to_vec()),
            (INO_ROOT, 2, FileKind::Directory, b"..".to_vec()),
            (INO_CONFIG, 3, FileKind::RegularFile, b".scfs_config".to_vec()),
        ]
    );
}

#[test]
fn split_root_lists_config_then_children() {
    let db = split_mirror_with_hello();
    let root = db.get_by_ino(INO_ROOT).unwrap().duplicate();
    let entries = readdir_entries(&db, &root, Mode::Split, 0, 1000);
    assert_eq!(
        entry_tuples(&entries),
        vec![
            (INO_ROOT, 1, FileKind::Directory, b".".to_vec()),
            (INO_ROOT, 2, FileKind::Directory, b"..".to_vec()),
            (INO_CONFIG, 3, FileKind::RegularFile, b".scfs_config".to_vec()),
            (10, 4, FileKind::Directory, b"hello".to_vec()),
        ]
    );
}

#[test]
fn split_file_dir_lists_chunks() {
    let db = split_mirror_with_hello();
    let file = db.get_by_ino(10).unwrap().duplicate();
    let entries = readdir_entries(&db, &file, Mode::Split, 0, 1000);
    assert_eq!(
        entry_tuples(&entries),
        vec![
            (10, 1, FileKind::Directory, b".".to_vec()),
            (INO_ROOT, 2, FileKind::Directory, b"..".to_vec()),
            (11, 3, FileKind::RegularFile, b"scfs.0000000000".to_vec()),
            (12, 4, FileKind::RegularFile, b"scfs.0000000001".to_vec()),
            (13, 5, FileKind::RegularFile, b"scfs.0000000002".to_vec()),
        ]
    );
}

#[test]
fn readdir_resumes_from_every_cookie() {
    // Replaying from any returned cookie yields exactly the suffix of the
    // full listing; from zero, the whole listing.
    let db = split_mirror_with_hello();
    for ino in [INO_ROOT, 10] {
        let dir = db.get_by_ino(ino).unwrap().duplicate();
        let full = readdir_entries(&db, &dir, Mode::Split, 0, 1000);
        for entry in &full {
            let resumed = readdir_entries(&db, &dir, Mode::Split, entry.cookie, 1000);
            let suffix: Vec<_> = entry_tuples(&full)
                .into_iter()
                .skip(entry.cookie as usize)
                .collect();
            assert_eq!(entry_tuples(&resumed), suffix);
        }
        // A cookie past the end yields nothing.
        let past = readdir_entries(&db, &dir, Mode::Split, full.len() as u64 + 5, 1000);
        assert!(past.is_empty());
    }
}

#[test]
fn readdir_respects_buffer_capacity() {
    // When the reply buffer fills, the listing stops and resumes cleanly.
    let db = split_mirror_with_hello();
    let root = db.get_by_ino(INO_ROOT).unwrap().duplicate();
    let full = entry_tuples(&readdir_entries(&db, &root, Mode::Split, 0, 1000));
    let mut collected = Vec::new();
    let mut cookie = 0u64;
    loop {
        let batch = readdir_entries(&db, &root, Mode::Split, cookie, 2);
        if batch.is_empty() {
            break;
        }
        cookie = batch.last().unwrap().cookie;
        collected.extend(entry_tuples(&batch));
    }
    assert_eq!(collected, full);
}

#[test]
fn cat_listing_shows_vdir_as_file() {
    let mut db = FileDb::new();
    let mut next = INO_FIRST_FREE;
    cat_populate_entry(
        &mut db,
        &mut next,
        INO_OUTSIDE,
        b"/m".to_vec(),
        b"m".to_vec(),
        FileKind::Directory,
    )
    .unwrap();
    let dir = cat_populate_entry(
        &mut db,
        &mut next,
        INO_ROOT,
        b"/m/hello".to_vec(),
        b"hello".to_vec(),
        FileKind::Directory,
    )
    .unwrap()
    .unwrap();
    for i in 0..3u64 {
        let name = make_chunk_name(i);
        let mut path = b"/m/hello/".to_vec();
        path.extend_from_slice(&name);
        cat_populate_entry(&mut db, &mut next, dir, path, name, FileKind::RegularFile).unwrap();
    }
    let db = cat_mark_vdirs(db);
    let root = db.get_by_ino(INO_ROOT).unwrap().duplicate();
    let entries = readdir_entries(&db, &root, Mode::Cat, 0, 1000);
    // No synthetic configuration entry in Cat mode; the chunk directory
    // appears as a single regular file.
    assert_eq!(
        entry_tuples(&entries),
        vec![
            (INO_ROOT, 1, FileKind::Directory, b".".to_vec()),
            (INO_ROOT, 2, FileKind::Directory, b"..".to_vec()),
            (dir, 3, FileKind::RegularFile, b"hello".to_vec()),
        ]
    );
}

#[test]
fn symlink_listed_as_symlink() {
    // A symlink in the mirror appears as a symlink in either mode.
    let mut db = FileDb::new();
    let mut next = INO_FIRST_FREE;
    split_populate_entry(
        &mut db,
        &mut next,
        INO_OUTSIDE,
        b"/m".to_vec(),
        b"m".to_vec(),
        FileKind::Directory,
        0,
        2,
    );
    let link = split_populate_entry(
        &mut db,
        &mut next,
        INO_ROOT,
        b"/m/link".to_vec(),
        b"link".to_vec(),
        FileKind::Symlink,
        0,
        2,
    );
    let root = db.get_by_ino(INO_ROOT).unwrap().duplicate();
    for mode in [Mode::Split, Mode::Cat] {
        let entries = readdir_entries(&db, &root, mode, 0, 1000);
        let found = entries.iter().find(|e| e.ino == link).unwrap();
        assert_eq!(found.kind, FileKind::Symlink);
        assert_eq!(found.name, b"link".to_vec());
    }
}

#[test]
fn config_lookup_is_split_root_only() {
    assert!(is_config_lookup(Mode::Split, INO_ROOT, b".scfs_config"));
    assert!(!is_config_lookup(Mode::Split, INO_ROOT, b"other"));
    assert!(!is_config_lookup(Mode::Split, 10, b".scfs_config"));
    assert!(!is_config_lookup(Mode::Cat, INO_ROOT, b".scfs_config"));
}
