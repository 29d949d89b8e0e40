//! The scanner's row construction: what one surviving mirror entry adds to
//! the metadata index.
//!
//! The caller walks the mirror once at mount time, skips every entry that
//! is not a directory, regular file or symlink, and hands the rest here.
//! In Split mode a regular file becomes a virtual-directory row followed by
//! one row per chunk — at least one even for an empty file, so an empty
//! file and an empty directory stay distinguishable. In Cat mode a regular
//! file must carry a chunk name `scfs.%010d`, and a later sweep marks every
//! directory that holds chunks as a virtual directory.

use vstd::prelude::*;

use crate::decimal::{
    all_digits, digits_value, lemma_decimal_value, lemma_digits_value_zero_pad, pow10,
    spec_decimal, to_decimal,
};
use crate::index::{inos_unique, FileDb, FileInfo, FileInfoV};
use crate::{FileKind, ScfsError, INO_FIRST_FREE, INO_OUTSIDE, INO_ROOT};

verus! {

/// Every row of `s` has an inode below `n`; the scanner's counter never
/// hands an inode out twice.
pub open spec fn db_bounded(s: Seq<FileInfoV>, n: u64) -> bool {
    forall|i: int| 0 <= i < s.len() ==> s[i].ino < n
}

/// The byte string `"scfs."`.
pub open spec fn chunk_name_prefix() -> Seq<u8> {
    seq![115u8, 99u8, 102u8, 115u8, 46u8]
}

/// `d` zero-padded on the left to ten bytes.
pub open spec fn pad10(d: Seq<u8>) -> Seq<u8> {
    if d.len() >= 10 {
        d
    } else {
        Seq::new((10 - d.len()) as nat, |i: int| 48u8) + d
    }
}

/// The name of chunk `i` (0-based): `scfs.` followed by `i` zero-padded to
/// ten decimal digits.
pub open spec fn chunk_file_name(i: u64) -> Seq<u8> {
    chunk_name_prefix() + pad10(spec_decimal(i as int))
}

/// A well-formed chunk name: `scfs.` followed by exactly ten decimal
/// digits.
pub open spec fn is_chunk_file_name(name: Seq<u8>) -> bool {
    name.len() == 15 && name.take(5) == chunk_name_prefix() && all_digits(name.skip(5))
}

/// The 1-based part number a chunk name stands for: its digits' value plus
/// one, so part 0 stays reserved for non-chunks.
pub open spec fn chunk_part_of(name: Seq<u8>) -> int {
    digits_value(name.skip(5)) + 1
}

/// How many chunks a file of `size` bytes has under block size `b`: the
/// blocks needed to cover it, but at least one.
pub open spec fn spec_chunk_count(size: u64, b: u64) -> int
    recommends
        b >= 1,
{
    if size == 0 {
        1
    } else {
        (size - 1) / (b as int) + 1
    }
}

/// The size of chunk `i` (0-based): the remaining bytes, capped at `b`.
pub open spec fn spec_chunk_size(size: u64, b: u64, i: int) -> int
    recommends
        b >= 1,
        0 <= i < spec_chunk_count(size, b),
{
    if size - i * b <= b {
        size - i * b
    } else {
        b as int
    }
}

/// The chunk shape: a file of size `s` splits into `max(1, ceil(s / b))`
/// chunks; every chunk but the last has exactly `b` bytes, and the last
/// has `s % b` bytes — or `b` when `s` is a positive multiple of `b`, or 0
/// when the file is empty.
pub proof fn lemma_chunk_shape(size: u64, b: u64, i: int)
    requires
        b >= 1,
        0 <= i < spec_chunk_count(size, b),
    ensures
        spec_chunk_count(size, b) == if size == 0 {
            1int
        } else {
            (size + b - 1) / (b as int)
        },
        i < spec_chunk_count(size, b) - 1 ==> spec_chunk_size(size, b, i) == b,
        i == spec_chunk_count(size, b) - 1 ==> spec_chunk_size(size, b, i) == (if size == 0 {
            0int
        } else if size as int % (b as int) == 0 {
            b as int
        } else {
            size as int % (b as int)
        }),
        0 <= spec_chunk_size(size, b, i) <= b,
        (spec_chunk_count(size, b) - 1) * b <= size,
        size <= spec_chunk_count(size, b) * b,
{
    let bi = b as int;
    let s = size as int;
    if size == 0 {
        assert(spec_chunk_size(size, b, 0) == 0);
        assert((1 - 1) * bi == 0) by (nonlinear_arith)
        ;
        assert(1 * bi == bi) by (nonlinear_arith)
        ;
    } else {
        let q = (s - 1) / bi;
        let r = (s - 1) % bi;
        vstd::arithmetic::div_mod::lemma_fundamental_div_mod(s - 1, bi);
        vstd::arithmetic::div_mod::lemma_mod_bound(s - 1, bi);
        assert(s - 1 == bi * q + r);
        // The count is also the conventional ceiling form.
        assert(s + bi - 1 == bi * (q + 1) + r) by (nonlinear_arith)
            requires
                s - 1 == bi * q + r,
        ;
        assert((s + bi - 1) / bi == q + 1) by {
            vstd::arithmetic::div_mod::lemma_div_multiples_vanish_fancy(q + 1, r, bi);
        }
        // Coverage: the chunks reach the end of the file and waste less
        // than one block.
        assert(((q + 1) - 1) * bi == q * bi && q * bi <= s && s <= (q + 1) * bi)
            by (nonlinear_arith)
            requires
                s - 1 == bi * q + r,
                0 <= r < bi,
        ;
        // Shape of chunk i.
        if i < q {
            assert(bi < s - i * bi <= s) by (nonlinear_arith)
                requires
                    s - 1 == bi * q + r,
                    r >= 0,
                    0 <= i,
                    i + 1 <= q,
                    bi >= 1,
            ;
        } else {
            assert(i == q);
            assert(s - q * bi == r + 1) by (nonlinear_arith)
                requires
                    s - 1 == bi * q + r,
            ;
            assert(spec_chunk_size(size, b, i) == r + 1);
            vstd::arithmetic::div_mod::lemma_fundamental_div_mod(s, bi);
            vstd::arithmetic::div_mod::lemma_mod_bound(s, bi);
            let m = s % bi;
            assert(s == bi * (s / bi) + m);
            if m == 0 {
                assert(s - 1 == bi * (s / bi - 1) + (bi - 1)) by (nonlinear_arith)
                    requires
                        s == bi * (s / bi) + 0,
                ;
                vstd::arithmetic::div_mod::lemma_div_multiples_vanish_fancy(s / bi - 1, bi - 1, bi);
                assert(q == s / bi - 1);
                assert(r == bi - 1);
            } else {
                assert(s - 1 == bi * (s / bi) + (m - 1));
                vstd::arithmetic::div_mod::lemma_div_multiples_vanish_fancy(s / bi, m - 1, bi);
                assert(q == s / bi);
                assert(r == m - 1);
            }
        }
    }
}

/// How many chunks a file of `size` bytes has under block size `b`.
pub fn chunk_count(size: u64, b: u64) -> (r: u64)
    requires
        b >= 1,
    ensures
        r == spec_chunk_count(size, b),
        r >= 1,
{
    if size == 0 {
        1
    } else {
        let q = (size - 1) / b;
        proof {
            assert((size - 1) as int / (b as int) <= (size - 1) as int) by {
                vstd::arithmetic::div_mod::lemma_div_nonincreasing((size - 1) as int, b as int);
            }
        }
        q + 1
    }
}

/// The name of chunk `i`: `scfs.` followed by `i` zero-padded to ten
/// decimal digits.
pub fn make_chunk_name(i: u64) -> (r: Vec<u8>)
    ensures
        r@ == chunk_file_name(i),
{
    let mut v: Vec<u8> = Vec::new();
    v.push(115);
    v.push(99);
    v.push(102);
    v.push(115);
    v.push(46);
    proof {
        assert(v@ =~= chunk_name_prefix());
    }
    let d = to_decimal(i);
    let dlen = d.len();
    if dlen < 10 {
        let pad = 10 - dlen;
        let mut z: usize = 0;
        while z < pad
            invariant
                z <= pad,
                pad == 10 - dlen,
                dlen == spec_decimal(i as int).len(),
                dlen < 10,
                v@ == chunk_name_prefix() + Seq::new(z as nat, |k: int| 48u8),
            decreases pad - z,
        {
            let ghost prev = v@;
            v.push(48);
            proof {
                assert(v@ =~= chunk_name_prefix() + Seq::new((z + 1) as nat, |k: int| 48u8));
            }
            z += 1;
        }
        let mut j: usize = 0;
        while j < dlen
            invariant
                j <= dlen,
                pad == 10 - dlen,
                dlen < 10,
                d@ == spec_decimal(i as int),
                dlen == d@.len(),
                v@ == chunk_name_prefix() + Seq::new(pad as nat, |k: int| 48u8) + d@.take(j as int),
            decreases dlen - j,
        {
            v.push(d[j]);
            proof {
                assert(d@.take(j + 1) =~= d@.take(j as int).push(d@[j as int]));
                assert(v@ =~= chunk_name_prefix() + Seq::new(pad as nat, |k: int| 48u8) + d@.take(
                    j + 1,
                ));
            }
            j += 1;
        }
        proof {
            assert(d@.take(dlen as int) =~= d@);
            assert(v@ =~= chunk_file_name(i));
        }
        v
    } else {
        let mut j: usize = 0;
        while j < dlen
            invariant
                j <= dlen,
                dlen >= 10,
                d@ == spec_decimal(i as int),
                dlen == d@.len(),
                v@ == chunk_name_prefix() + d@.take(j as int),
            decreases dlen - j,
        {
            v.push(d[j]);
            proof {
                assert(d@.take(j + 1) =~= d@.take(j as int).push(d@[j as int]));
                assert(v@ =~= chunk_name_prefix() + d@.take(j + 1));
            }
            j += 1;
        }
        proof {
            assert(d@.take(dlen as int) =~= d@);
            assert(v@ =~= chunk_file_name(i));
        }
        v
    }
}

/// Reads a file name as a chunk name: its 1-based part number, or nothing
/// when the name is not `scfs.` followed by ten decimal digits.
pub fn parse_chunk_part(name: &[u8]) -> (r: Option<u64>)
    ensures
        r == if is_chunk_file_name(name@) {
            Some(chunk_part_of(name@) as u64)
        } else {
            Option::<u64>::None
        },
        is_chunk_file_name(name@) ==> 1 <= chunk_part_of(name@) <= 10000000000,
{
    if name.len() != 15 {
        return None;
    }
    let prefix_ok = name[0] == 115 && name[1] == 99 && name[2] == 102 && name[3] == 115 && name[4]
        == 46;
    if !prefix_ok {
        proof {
            assert(name@.take(5) != chunk_name_prefix()) by {
                if name@.take(5) == chunk_name_prefix() {
                    assert(name@.take(5)[0] == 115u8);
                    assert(name@.take(5)[1] == 99u8);
                    assert(name@.take(5)[2] == 102u8);
                    assert(name@.take(5)[3] == 115u8);
                    assert(name@.take(5)[4] == 46u8);
                }
            }
        }
        return None;
    }
    proof {
        assert(name@.take(5) =~= chunk_name_prefix());
    }
    let digits = vstd::slice::slice_subrange(name, 5, 15);
    proof {
        assert(digits@ =~= name@.skip(5));
    }
    match crate::decimal::parse_u64_digits(digits) {
        Some(v) => {
            proof {
                lemma_digits_bound(digits@);
            }
            Some(v + 1)
        },
        None => {
            proof {
                if all_digits(digits@) {
                    lemma_digits_bound(digits@);
                }
            }
            None
        },
    }
}

/// Ten digits stand for a value below ten billion.
proof fn lemma_digits_bound(s: Seq<u8>)
    requires
        all_digits(s),
        s.len() == 10,
    ensures
        digits_value(s) < 10000000000,
        digits_value(s) >= 0,
{
    lemma_digits_bound_aux(s);
    assert(pow10(0) == 1);
    assert(pow10(1) == 10);
    assert(pow10(2) == 100);
    assert(pow10(3) == 1000);
    assert(pow10(4) == 10000);
    assert(pow10(5) == 100000);
    assert(pow10(6) == 1000000);
    assert(pow10(7) == 10000000);
    assert(pow10(8) == 100000000);
    assert(pow10(9) == 1000000000);
    assert(pow10(10) == 10000000000);
}

/// A digit string's value is below `10^len`, stated for the lengths the
/// chunk naming uses.
proof fn lemma_digits_bound_aux(s: Seq<u8>)
    requires
        all_digits(s),
        s.len() <= 10,
    ensures
        digits_value(s) < pow10(s.len() as int),
        digits_value(s) >= 0,
    decreases s.len(),
{
    if s.len() == 0 {
    } else {
        assert(all_digits(s.drop_last()));
        lemma_digits_bound_aux(s.drop_last());
        assert(digits_value(s) == digits_value(s.drop_last()) * 10 + (s.last() - 48));
        assert(digits_value(s.drop_last()) * 10 <= (pow10(s.len() - 1) - 1) * 10)
            by (nonlinear_arith)
            requires
                digits_value(s.drop_last()) <= pow10(s.len() - 1) - 1,
        ;
    }
}

/// The two sides of the chunk-naming interface agree: the name Split
/// mode writes for chunk `i` is a well-formed chunk name, and Cat mode
/// reads the part number `i + 1` back from it. Chunk indices stay below
/// ten billion, the capacity of the ten-digit field.
pub proof fn lemma_chunk_name_round_trip(i: u64)
    requires
        i <= 9999999999,
    ensures
        is_chunk_file_name(chunk_file_name(i)),
        chunk_part_of(chunk_file_name(i)) == i + 1,
{
    lemma_decimal_value(i as int);
    assert(pow10(0) == 1);
    assert(pow10(1) == 10);
    assert(pow10(2) == 100);
    assert(pow10(3) == 1000);
    assert(pow10(4) == 10000);
    assert(pow10(5) == 100000);
    assert(pow10(6) == 1000000);
    assert(pow10(7) == 10000000);
    assert(pow10(8) == 100000000);
    assert(pow10(9) == 1000000000);
    assert(pow10(10) == 10000000000);
    crate::decimal::lemma_decimal_len(i as int, 10);
    let d = spec_decimal(i as int);
    let name = chunk_file_name(i);
    if d.len() == 10 {
        assert(pad10(d) == d);
    }
    assert(name.len() == 15);
    assert(name.take(5) =~= chunk_name_prefix());
    assert(name.skip(5) =~= pad10(d));
    if d.len() < 10 {
        let z = Seq::new((10 - d.len()) as nat, |k: int| 48u8);
        assert(pad10(d) == z + d);
        lemma_digits_value_zero_pad(z, d);
        assert(all_digits(pad10(d))) by {
            assert forall|k: int| 0 <= k < pad10(d).len() implies crate::decimal::is_digit(
                pad10(d)[k],
            ) by {
                if k < z.len() {
                    assert(pad10(d)[k] == 48u8);
                } else {
                    assert(pad10(d)[k] == d[k - z.len()]);
                }
            }
        }
    }
    assert(digits_value(pad10(d)) == i);
}

/// `dir` and `name` joined with a path separator.
pub fn join_path(dir: &Vec<u8>, name: &Vec<u8>) -> (r: Vec<u8>)
    ensures
        r@ == dir@ + seq![47u8] + name@,
{
    let mut r = crate::index::clone_bytes(dir);
    r.push(47);
    let n = name.len();
    let mut i: usize = 0;
    proof {
        assert(r@ =~= dir@ + seq![47u8] + name@.take(0));
    }
    while i < n
        invariant
            i <= n,
            n == name@.len(),
            r@ == dir@ + seq![47u8] + name@.take(i as int),
        decreases n - i,
    {
        r.push(name[i]);
        proof {
            assert(name@.take(i + 1) =~= name@.take(i as int).push(name@[i as int]));
            assert(r@ =~= dir@ + seq![47u8] + name@.take(i + 1));
        }
        i += 1;
    }
    proof {
        assert(name@.take(n as int) =~= name@);
    }
    r
}

/// The row the scanner makes for a mirror entry itself: in Split mode a
/// regular file becomes a virtual directory.
pub open spec fn split_main_row(
    ino: u64,
    parent_ino: u64,
    path: Seq<u8>,
    file_name: Seq<u8>,
    kind: FileKind,
) -> FileInfoV {
    FileInfoV {
        ino,
        parent_ino,
        path,
        file_name,
        part: 0,
        vdir: kind == FileKind::RegularFile,
        symlink: kind == FileKind::Symlink,
    }
}

/// The row of chunk `i` (0-based) of a split regular file.
pub open spec fn split_chunk_row(
    file_ino: u64,
    file_path: Seq<u8>,
    first_chunk_ino: u64,
    i: int,
) -> FileInfoV {
    FileInfoV {
        ino: (first_chunk_ino + i) as u64,
        parent_ino: file_ino,
        path: file_path + seq![47u8] + chunk_file_name(i as u64),
        file_name: chunk_file_name(i as u64),
        part: (i + 1) as u64,
        vdir: false,
        symlink: false,
    }
}

/// The chunk rows of a split regular file, in part order.
pub open spec fn split_chunk_rows(
    file_ino: u64,
    file_path: Seq<u8>,
    first_chunk_ino: u64,
    count: int,
) -> Seq<FileInfoV> {
    Seq::new(
        count as nat,
        |i: int| split_chunk_row(file_ino, file_path, first_chunk_ino, i),
    )
}

/// A bounded index does not contain any inode at or above the bound.
proof fn lemma_bounded_fresh(s: Seq<FileInfoV>, n: u64, ino: u64)
    requires
        db_bounded(s, n),
        ino >= n,
    ensures
        forall|i: int| 0 <= i < s.len() ==> s[i].ino != ino,
{
}

/// Records one surviving Split-mode mirror entry: the entry's own row,
/// and — for a regular file — one chunk row per block, at least one even
/// when the file is empty. The mount root takes the root inode; everything
/// else draws fresh inodes from the counter. Returns the entry's inode so
/// the caller can descend into directories.
pub fn split_populate_entry(
    db: &mut FileDb,
    next_ino: &mut u64,
    parent_ino: u64,
    path: Vec<u8>,
    file_name: Vec<u8>,
    kind: FileKind,
    size: u64,
    blocksize: u64,
) -> (ino: u64)
    requires
        blocksize >= 1,
        old(db).wf(),
        db_bounded(old(db)@, *old(next_ino)),
        INO_FIRST_FREE <= *old(next_ino),
        parent_ino == INO_OUTSIDE ==> !old(db).contains_ino(INO_ROOT),
        *old(next_ino) + 1 + spec_chunk_count(size, blocksize) <= u64::MAX,
    ensures
        final(db).wf(),
        db_bounded(final(db)@, *final(next_ino)),
        INO_FIRST_FREE <= *final(next_ino),
        ino == (if parent_ino == INO_OUTSIDE {
            INO_ROOT
        } else {
            *old(next_ino)
        }),
        ({
            let main = split_main_row(ino, parent_ino, path@, file_name@, kind);
            let first = if parent_ino == INO_OUTSIDE {
                *old(next_ino)
            } else {
                (*old(next_ino) + 1) as u64
            };
            let cnt = spec_chunk_count(size, blocksize);
            if kind == FileKind::RegularFile {
                final(db)@ == old(db)@.push(main) + split_chunk_rows(ino, path@, first, cnt)
                    && *final(next_ino) == first + cnt
            } else {
                final(db)@ == old(db)@.push(main) && *final(next_ino) == first
            }
        }),
{
    let cnt = chunk_count(size, blocksize);
    let ino: u64;
    if parent_ino == INO_OUTSIDE {
        ino = INO_ROOT;
    } else {
        ino = *next_ino;
        *next_ino = *next_ino + 1;
    }
    let ghost first: u64 = *next_ino;
    let ghost fpath = path@;
    let ghost pre_db = db@;

    let is_file = matches!(kind, FileKind::RegularFile);
    let file_path_copy = if is_file {
        crate::index::clone_bytes(&path)
    } else {
        Vec::new()
    };

    let main = FileInfo {
        ino,
        parent_ino,
        path,
        file_name,
        part: 0,
        vdir: is_file,
        symlink: matches!(kind, FileKind::Symlink),
    };
    proof {
        if parent_ino == INO_OUTSIDE {
        } else {
            lemma_bounded_fresh(db@, ino, ino);
        }
    }
    db.insert(main);

    if is_file {
        let mut i: u64 = 0;
        proof {
            assert(db@ =~= pre_db.push(
                split_main_row(ino, parent_ino, fpath, db@.last().file_name, kind),
            ) + split_chunk_rows(ino, fpath, first, 0));
        }
        let ghost main_v = db@.last();
        while i < cnt
            invariant
                blocksize >= 1,
                cnt == spec_chunk_count(size, blocksize),
                i <= cnt,
                first + cnt <= u64::MAX,
                *next_ino == first + i,
                db.wf(),
                db@ == pre_db.push(main_v) + split_chunk_rows(ino, fpath, first, i as int),
                db_bounded(db@, *next_ino),
                file_path_copy@ == fpath,
            decreases cnt - i,
        {
            let name = make_chunk_name(i);
            let cpath = join_path(&file_path_copy, &name);
            let row = FileInfo {
                ino: *next_ino,
                parent_ino: ino,
                path: cpath,
                file_name: name,
                part: i + 1,
                vdir: false,
                symlink: false,
            };
            proof {
                assert(row@ == split_chunk_row(ino, fpath, first, i as int));
                lemma_bounded_fresh(db@, *next_ino, *next_ino);
            }
            let ghost mid_db = db@;
            db.insert(row);
            proof {
                assert(split_chunk_rows(ino, fpath, first, i + 1) =~= split_chunk_rows(
                    ino,
                    fpath,
                    first,
                    i as int,
                ).push(split_chunk_row(ino, fpath, first, i as int)));
                assert(db@ =~= pre_db.push(main_v) + split_chunk_rows(ino, fpath, first, i + 1));
            }
            *next_ino = *next_ino + 1;
            i += 1;
        }
    } else {
        proof {
            assert(db@ =~= pre_db.push(db@.last()));
        }
    }
    ino
}

/// Records one surviving Cat-mode mirror entry. An entry named like the
/// configuration document is skipped wherever it appears; a regular file
/// must carry a chunk name, whose 0-based index plus one becomes the row's
/// part number; directories and symlinks enter with part 0. Returns the
/// inode of the inserted row, nothing for a skipped entry, or an error for
/// a corrupt chunk name.
pub fn cat_populate_entry(
    db: &mut FileDb,
    next_ino: &mut u64,
    parent_ino: u64,
    path: Vec<u8>,
    file_name: Vec<u8>,
    kind: FileKind,
) -> (r: Result<Option<u64>, ScfsError>)
    requires
        old(db).wf(),
        db_bounded(old(db)@, *old(next_ino)),
        INO_FIRST_FREE <= *old(next_ino),
        parent_ino == INO_OUTSIDE ==> !old(db).contains_ino(INO_ROOT),
        *old(next_ino) < u64::MAX,
    ensures
        final(db).wf(),
        db_bounded(final(db)@, *final(next_ino)),
        INO_FIRST_FREE <= *final(next_ino),
        if file_name@ == crate::readdir::config_name() {
            r == Ok::<Option<u64>, ScfsError>(None) && final(db)@ == old(db)@ && *final(next_ino)
                == *old(next_ino)
        } else if kind == FileKind::RegularFile && !is_chunk_file_name(file_name@) {
            r == Err::<Option<u64>, ScfsError>(ScfsError::BadChunkName) && final(db)@ == old(db)@
                && *final(next_ino) == *old(next_ino)
        } else {
            ({
                let ino = if parent_ino == INO_OUTSIDE {
                    INO_ROOT
                } else {
                    *old(next_ino)
                };
                let part = if kind == FileKind::RegularFile {
                    chunk_part_of(file_name@) as u64
                } else {
                    0u64
                };
                r == Ok::<Option<u64>, ScfsError>(Some(ino)) && final(db)@ == old(db)@.push(
                    FileInfoV {
                        ino,
                        parent_ino,
                        path: path@,
                        file_name: file_name@,
                        part,
                        vdir: false,
                        symlink: kind == FileKind::Symlink,
                    },
                ) && *final(next_ino) == (if parent_ino == INO_OUTSIDE {
                    *old(next_ino) as int
                } else {
                    *old(next_ino) + 1
                })
            })
        },
{
    let cfg = crate::readdir::config_name_vec();
    if crate::index::bytes_eq(file_name.as_slice(), cfg.as_slice()) {
        return Ok(None);
    }
    let part: u64;
    if matches!(kind, FileKind::RegularFile) {
        match parse_chunk_part(file_name.as_slice()) {
            Some(p) => {
                part = p;
            },
            None => {
                return Err(ScfsError::BadChunkName);
            },
        }
    } else {
        part = 0;
    }
    let ino: u64;
    if parent_ino == INO_OUTSIDE {
        ino = INO_ROOT;
    } else {
        ino = *next_ino;
        *next_ino = *next_ino + 1;
    }
    let row = FileInfo {
        ino,
        parent_ino,
        path,
        file_name,
        part,
        vdir: false,
        symlink: matches!(kind, FileKind::Symlink),
    };
    proof {
        if parent_ino != INO_OUTSIDE {
            lemma_bounded_fresh(db@, ino, ino);
        }
    }
    db.insert(row);
    Ok(Some(ino))
}

/// A row of `s` is a chunk whose parent is `ino`.
pub open spec fn has_chunk_child(s: Seq<FileInfoV>, ino: u64) -> bool {
    exists|j: int| 0 <= j < s.len() && s[j].parent_ino == ino && s[j].part != 0
}

/// `row` with its virtual-directory flag raised when `s` holds a chunk
/// under it.
pub open spec fn marked_row(row: FileInfoV, s: Seq<FileInfoV>) -> FileInfoV {
    FileInfoV {
        ino: row.ino,
        parent_ino: row.parent_ino,
        path: row.path,
        file_name: row.file_name,
        part: row.part,
        vdir: row.vdir || has_chunk_child(s, row.ino),
        symlink: row.symlink,
    }
}

/// Whether some row of the index is a chunk whose parent is `ino`.
fn any_chunk_child(db: &FileDb, ino: u64) -> (b: bool)
    ensures
        b == has_chunk_child(db@, ino),
{
    let n = db.len();
    let mut j: usize = 0;
    while j < n
        invariant
            n == db@.len(),
            j <= n,
            forall|k: int| 0 <= k < j ==> !(db@[k].parent_ino == ino && db@[k].part != 0),
        decreases n - j,
    {
        let row = db.row_at(j);
        if row.parent_ino == ino && row.part != 0 {
            return true;
        }
        j += 1;
    }
    false
}

/// The Cat-mode sweep after the walk: every directory that holds at least
/// one chunk becomes a virtual directory, so it is later shown as a single
/// concatenated file.
pub fn cat_mark_vdirs(db: FileDb) -> (r: FileDb)
    requires
        db.wf(),
    ensures
        r.wf(),
        r@.len() == db@.len(),
        forall|i: int| 0 <= i < db@.len() ==> r@[i] == marked_row(db@[i], db@),
{
    let mut out = FileDb::new();
    let n = db.len();
    let mut i: usize = 0;
    while i < n
        invariant
            n == db@.len(),
            i <= n,
            db.wf(),
            out.wf(),
            out@.len() == i,
            forall|k: int| 0 <= k < i ==> out@[k] == marked_row(db@[k], db@),
        decreases n - i,
    {
        let row = db.row_at(i);
        let flag = row.vdir || any_chunk_child(&db, row.ino);
        let new_row = FileInfo {
            ino: row.ino,
            parent_ino: row.parent_ino,
            path: crate::index::clone_bytes(&row.path),
            file_name: crate::index::clone_bytes(&row.file_name),
            part: row.part,
            vdir: flag,
            symlink: row.symlink,
        };
        proof {
            assert forall|k: int| 0 <= k < out@.len() implies out@[k].ino != new_row.ino by {
                assert(out@[k] == marked_row(db@[k], db@));
                assert(db@[k].ino != db@[i as int].ino);
            }
        }
        out.insert(new_row);
        i += 1;
    }
    out
}

} // verus!
