use scfs::read::{cat_read, plan_cat_read, plan_split_read, read_range, split_chunk_bytes};

#[test]
fn split_chunks_of_hello() {
    // "hello" under block size 2: "he", "ll", "o".
    let data = b"hello".to_vec();
    assert_eq!(split_chunk_bytes(&data, 2, 0), b"he".to_vec());
    assert_eq!(split_chunk_bytes(&data, 2, 1), b"ll".to_vec());
    assert_eq!(split_chunk_bytes(&data, 2, 2), b"o".to_vec());
}

#[test]
fn split_chunks_concatenate_to_original() {
    // The round trip: chunking then concatenating gives the data back.
    let data: Vec<u8> = (0..=255u8).cycle().take(1000).collect();
    for b in [1u64, 2, 3, 37, 256, 1000, 5000] {
        let n = scfs::populate::chunk_count(data.len() as u64, b);
        let mut joined: Vec<u8> = Vec::new();
        for i in 0..n {
            joined.extend_from_slice(&split_chunk_bytes(&data, b, i));
        }
        assert_eq!(joined, data);
    }
}

#[test]
fn split_chunk_sizes_match_shape() {
    // All chunks but the last hold exactly one block; the last holds the
    // remainder, or a full block when the size is a positive multiple.
    let data: Vec<u8> = vec![7u8; 100];
    for b in [1u64, 2, 37, 50, 100] {
        let n = scfs::populate::chunk_count(100, b);
        for i in 0..n - 1 {
            assert_eq!(split_chunk_bytes(&data, b, i).len() as u64, b);
        }
        let last = split_chunk_bytes(&data, b, n - 1).len() as u64;
        if 100 % b == 0 {
            assert_eq!(last, b);
        } else {
            assert_eq!(last, 100 % b);
        }
    }
}

#[test]
fn split_read_window_clamps() {
    // A handle over bytes [10, 20) of its backing file.
    assert_eq!(plan_split_read(10, 20, 0, 4), (10, 4));
    assert_eq!(plan_split_read(10, 20, 8, 100), (18, 2));
    assert_eq!(plan_split_read(10, 20, 100, 100), (20, 0));
    assert_eq!(plan_split_read(0, 0, 5, 5), (0, 0));
}

#[test]
fn read_range_seeks_and_takes() {
    let content = b"abcdefgh".to_vec();
    assert_eq!(read_range(&content, 0, 3), b"abc".to_vec());
    assert_eq!(read_range(&content, 5, 100), b"fgh".to_vec());
    assert_eq!(read_range(&content, 100, 4), b"".to_vec());
    assert_eq!(read_range(&content, 2, 0), b"".to_vec());
}

#[test]
fn cat_read_serves_hello() {
    // The three chunks of "hello": every (offset, size) yields
    // concat[offset .. min(offset + size, total)].
    let chunks = vec![b"he".to_vec(), b"ll".to_vec(), b"o".to_vec()];
    assert_eq!(cat_read(&chunks, 0, 5), b"hello".to_vec());
    assert_eq!(cat_read(&chunks, 3, 10), b"lo".to_vec());
    assert_eq!(cat_read(&chunks, 100, 10), b"".to_vec());
    assert_eq!(cat_read(&chunks, 0, 2), b"he".to_vec());
    assert_eq!(cat_read(&chunks, 1, 3), b"ell".to_vec());
    assert_eq!(cat_read(&chunks, 4, 1), b"o".to_vec());
    assert_eq!(cat_read(&chunks, 5, 1), b"".to_vec());
    assert_eq!(cat_read(&chunks, 0, 0), b"".to_vec());
}

#[test]
fn cat_read_matches_slices_everywhere() {
    let chunks: Vec<Vec<u8>> = vec![
        (0..37u8).collect(),
        (37..74u8).collect(),
        (74..100u8).collect(),
    ];
    let whole: Vec<u8> = (0..100u8).collect();
    for offset in 0..=105usize {
        for size in [0usize, 1, 2, 36, 37, 38, 99, 100, 200] {
            let lo = offset.min(whole.len());
            let hi = (offset + size).min(whole.len());
            assert_eq!(cat_read(&chunks, offset, size), whole[lo..hi].to_vec());
        }
    }
}

#[test]
fn cat_plan_names_the_right_chunks() {
    // Block size 2, file of 5 bytes.
    let p = plan_cat_read(2, 5, 0, 5).unwrap();
    assert_eq!((p.part_start, p.part_end, p.seek_first, p.count), (0, 2, 0, 5));
    let p = plan_cat_read(2, 5, 3, 10).unwrap();
    assert_eq!((p.part_start, p.part_end, p.seek_first, p.count), (1, 2, 1, 2));
    // Reads past the end yield nothing and no plan.
    assert!(plan_cat_read(2, 5, 100, 10).is_none());
    assert!(plan_cat_read(2, 5, 5, 1).is_none());
    assert!(plan_cat_read(2, 5, 0, 0).is_none());
    // A one-byte read in the middle touches one chunk.
    let p = plan_cat_read(2, 5, 2, 1).unwrap();
    assert_eq!((p.part_start, p.part_end, p.seek_first, p.count), (1, 1, 0, 1));
}

#[test]
fn cat_plan_agrees_with_streaming() {
    // Reading only the planned chunks, seeking in the first, then
    // truncating, serves the same bytes as slicing the whole.
    let chunks: Vec<Vec<u8>> = vec![
        b"ab".to_vec(),
        b"cd".to_vec(),
        b"ef".to_vec(),
        b"g".to_vec(),
    ];
    let whole = b"abcdefg".to_vec();
    for offset in 0..=8u64 {
        for size in 0..=8u64 {
            let lo = (offset as usize).min(whole.len());
            let hi = ((offset + size) as usize).min(whole.len());
            let expected = whole[lo..hi].to_vec();
            match plan_cat_read(2, whole.len() as u64, offset, size) {
                None => assert!(expected.is_empty()),
                Some(p) => {
                    let mut streamed: Vec<u8> = Vec::new();
                    for part in p.part_start..=p.part_end {
                        let chunk = &chunks[part as usize];
                        let seek = if part == p.part_start {
                            p.seek_first as usize
                        } else {
                            0
                        };
                        streamed.extend_from_slice(&chunk[seek..]);
                    }
                    streamed.truncate(p.count as usize);
                    assert_eq!(streamed, expected);
                }
            }
        }
    }
}
