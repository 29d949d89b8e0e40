//! The read engine: byte-range arithmetic for both modes.
//!
//! Split mode serves a chunk from one backing file: a window of at most
//! one block, clamped to the chunk's range. Cat mode maps a byte range
//! onto a run of chunks, concatenates what they hold and truncates to the
//! requested count. Reading the bytes from disk is the caller's part; the
//! functions here work on the bytes and offsets it hands over.

use vstd::prelude::*;

use crate::populate::{spec_chunk_count, spec_chunk_size};

verus! {

/// All chunks laid end to end.
pub open spec fn concat_chunks(chunks: Seq<Seq<u8>>) -> Seq<u8>
    decreases chunks.len(),
{
    if chunks.len() == 0 {
        Seq::empty()
    } else {
        concat_chunks(chunks.drop_last()) + chunks.last()
    }
}

/// The smaller of two numbers.
pub open spec fn spec_min(a: int, b: int) -> int {
    if a < b {
        a
    } else {
        b
    }
}

/// The bytes of chunk `i` (0-based) of `data` under block size `b`.
pub open spec fn spec_split_chunk(data: Seq<u8>, b: u64, i: int) -> Seq<u8>
    recommends
        b >= 1,
        0 <= i,
        i * b <= data.len(),
{
    data.subrange(i * b, spec_min((i + 1) * b, data.len() as int))
}

/// All chunks of `data` under block size `b`, in order: as many as the
/// chunk count demands, so an empty file still has one (empty) chunk.
pub open spec fn spec_split_chunks(data: Seq<u8>, b: u64) -> Seq<Seq<u8>>
    recommends
        b >= 1,
        data.len() <= u64::MAX,
{
    Seq::new(
        spec_chunk_count(data.len() as u64, b) as nat,
        |i: int| spec_split_chunk(data, b, i),
    )
}

/// Chunk `i` starts inside the data and holds exactly the bytes the chunk
/// shape promises.
pub proof fn lemma_split_chunk_size(data: Seq<u8>, b: u64, i: int)
    requires
        b >= 1,
        data.len() <= u64::MAX,
        0 <= i < spec_chunk_count(data.len() as u64, b),
    ensures
        i * b <= data.len(),
        spec_split_chunks(data, b)[i].len() == spec_chunk_size(data.len() as u64, b, i),
{
    let n = data.len() as int;
    let cnt = spec_chunk_count(data.len() as u64, b);
    crate::populate::lemma_chunk_shape(data.len() as u64, b, i);
    if n == 0 {
        assert(i == 0);
    } else {
        // i * b <= (cnt - 1) * b <= n - 1 < n.
        let q = (n - 1) / (b as int);
        vstd::arithmetic::div_mod::lemma_fundamental_div_mod(n - 1, b as int);
        vstd::arithmetic::div_mod::lemma_mod_bound(n - 1, b as int);
        assert(i * b <= q * (b as int)) by (nonlinear_arith)
            requires
                i <= q,
                b >= 1,
        ;
        assert(q * (b as int) <= n - 1) by (nonlinear_arith)
            requires
                n - 1 == (b as int) * q + (n - 1) % (b as int),
                (n - 1) % (b as int) >= 0,
        ;
    }
    assert((i + 1) * b == i * b + b) by (nonlinear_arith)
    ;
    assert(spec_split_chunks(data, b)[i] == spec_split_chunk(data, b, i));
    assert(spec_split_chunk(data, b, i).len() == spec_min((i + 1) * b, n) - i * b);
}

/// Concatenating the chunks of `data` gives `data` back: the split is
/// lossless, whatever the mirror holds and whatever block size is chosen.
pub proof fn lemma_split_concat_identity(data: Seq<u8>, b: u64)
    requires
        b >= 1,
        data.len() <= u64::MAX,
    ensures
        concat_chunks(spec_split_chunks(data, b)) == data,
{
    let cnt = spec_chunk_count(data.len() as u64, b);
    lemma_split_concat_prefix(data, b, cnt);
    let n = data.len() as int;
    crate::populate::lemma_chunk_shape(data.len() as u64, b, cnt - 1);
    lemma_split_chunk_size(data, b, cnt - 1);
    // cnt * b >= n, so the clamp reaches the end of the data.
    assert((cnt - 1) * b + b == cnt * b) by (nonlinear_arith)
    ;
    assert(spec_min(cnt * b, n) == n);
    assert(spec_split_chunks(data, b).take(cnt) =~= spec_split_chunks(data, b));
    assert(data.take(n) =~= data);
}

/// The first `k` chunks hold exactly the first `min(k·b, len)` bytes.
proof fn lemma_split_concat_prefix(data: Seq<u8>, b: u64, k: int)
    requires
        b >= 1,
        data.len() <= u64::MAX,
        0 <= k <= spec_chunk_count(data.len() as u64, b),
    ensures
        concat_chunks(spec_split_chunks(data, b).take(k)) == data.take(
            spec_min(k * b, data.len() as int),
        ),
    decreases k,
{
    let chunks = spec_split_chunks(data, b);
    let n = data.len() as int;
    if k == 0 {
        assert(chunks.take(0) =~= Seq::<Seq<u8>>::empty());
        assert(data.take(0) =~= Seq::<u8>::empty());
    } else {
        lemma_split_concat_prefix(data, b, k - 1);
        lemma_split_chunk_size(data, b, k - 1);
        assert(chunks.take(k).drop_last() =~= chunks.take(k - 1));
        assert(chunks.take(k).last() == chunks[k - 1]);
        assert(concat_chunks(chunks.take(k)) == concat_chunks(chunks.take(k - 1)) + chunks[k - 1]);
        assert((k - 1) * b + b == k * b) by (nonlinear_arith)
        ;
        assert(spec_min((k - 1) * b, n) == (k - 1) * b);
        assert(chunks[k - 1] =~= data.subrange((k - 1) * b, spec_min(k * b, n)));
        assert(data.take((k - 1) * b) + data.subrange((k - 1) * b, spec_min(k * b, n)) =~= data.take(
            spec_min(k * b, n),
        ));
        assert(concat_chunks(chunks.take(k)) == data.take((k - 1) * b) + data.subrange(
            (k - 1) * b,
            spec_min(k * b, n),
        ));
    }
}

/// The bytes of chunk `i` of `data` under block size `b`, as served in
/// Split mode.
pub fn split_chunk_bytes(data: &Vec<u8>, b: u64, i: u64) -> (r: Vec<u8>)
    requires
        b >= 1,
        i < spec_chunk_count(data@.len() as u64, b),
    ensures
        r@ == spec_split_chunk(data@, b, i as int),
{
    let n = data.len();
    proof {
        assert(data@.len() <= u64::MAX);
        lemma_split_chunk_size(data@, b, i as int);
        crate::populate::lemma_chunk_shape(data@.len() as u64, b, i as int);
    }
    proof {
        assert(i * b + b == (i + 1) * b) by (nonlinear_arith)
        ;
        assert(i * b <= u64::MAX);
    }
    let start_u: u64 = i * b;
    let start: usize = start_u as usize;
    let end: usize = if b <= (n - start) as u64 {
        start + (b as usize)
    } else {
        n
    };
    let mut r: Vec<u8> = Vec::new();
    let mut j: usize = start;
    proof {
        assert(r@ =~= data@.subrange(start as int, start as int));
    }
    while j < end
        invariant
            start <= j <= end,
            end <= n,
            n == data@.len(),
            r@ == data@.subrange(start as int, j as int),
        decreases end - j,
    {
        r.push(data[j]);
        proof {
            assert(data@.subrange(start as int, j + 1) =~= data@.subrange(
                start as int,
                j as int,
            ).push(data@[j as int]));
        }
        j += 1;
    }
    proof {
        assert(r@ =~= spec_split_chunk(data@, b, i as int));
    }
    r
}

/// The window a Split read serves from its backing file, as the handle's
/// byte range `[start, end)` bounds it: the offset is clamped to the
/// range's length, the count to what remains behind the offset. The
/// position is absolute in the backing file.
pub fn plan_split_read(start: u64, end: u64, offset: u64, size: u64) -> (r: (u64, u64))
    requires
        start <= end,
    ensures
        r.0 == start + spec_min(offset as int, (end - start) as int),
        r.1 == spec_min(size as int, end - start - spec_min(offset as int, (end - start) as int)),
{
    let window = end - start;
    let off = if offset < window {
        offset
    } else {
        window
    };
    let len = if size < window - off {
        size
    } else {
        window - off
    };
    (start + off, len)
}

/// The bytes a bounded read yields: seek to `pos`, then take at most
/// `count` bytes — fewer when the content ends first.
pub fn read_range(content: &Vec<u8>, pos: u64, count: u64) -> (r: Vec<u8>)
    ensures
        r@ == content@.subrange(
            spec_min(pos as int, content@.len() as int),
            spec_min(pos + count, content@.len() as int),
        ),
{
    let n = content.len();
    let start: usize = if pos < n as u64 {
        pos as usize
    } else {
        n
    };
    let end: usize = if count < (n - start) as u64 {
        start + count as usize
    } else {
        n
    };
    let mut r: Vec<u8> = Vec::new();
    let mut j: usize = start;
    proof {
        assert(r@ =~= content@.subrange(start as int, start as int));
    }
    while j < end
        invariant
            start <= j <= end,
            end <= n,
            n == content@.len(),
            r@ == content@.subrange(start as int, j as int),
        decreases end - j,
    {
        r.push(content[j]);
        proof {
            assert(content@.subrange(start as int, j + 1) =~= content@.subrange(
                start as int,
                j as int,
            ).push(content@[j as int]));
        }
        j += 1;
    }
    proof {
        assert(start == spec_min(pos as int, n as int));
        assert(end == spec_min(pos + count, n as int));
    }
    r
}

/// A Cat read served from the chunks' contents: the requested range of
/// their concatenation, the offset clamped to the whole, the count to what
/// remains. For every `offset` and `size`, the result equals
/// `concat(chunks)[offset .. min(offset + size, total)]`.
pub fn cat_read(chunks: &Vec<Vec<u8>>, offset: usize, size: usize) -> (r: Vec<u8>)
    ensures
        ({
            let whole = concat_chunks(chunks@.map_values(|c: Vec<u8>| c@));
            let off = spec_min(offset as int, whole.len() as int);
            let end = spec_min(offset + size, whole.len() as int);
            r@ == whole.subrange(off, end)
        }),
{
    let ghost views = chunks@.map_values(|c: Vec<u8>| c@);
    let ghost whole = concat_chunks(views);
    let mut all: Vec<u8> = Vec::new();
    let n = chunks.len();
    let mut i: usize = 0;
    proof {
        assert(views.take(0) =~= Seq::<Seq<u8>>::empty());
        assert(all@ =~= concat_chunks(views.take(0)));
    }
    while i < n
        invariant
            i <= n,
            n == views.len(),
            views == chunks@.map_values(|c: Vec<u8>| c@),
            all@ == concat_chunks(views.take(i as int)),
        decreases n - i,
    {
        let chunk = &chunks[i];
        let m = chunk.len();
        let mut j: usize = 0;
        proof {
            assert(chunk@ == views[i as int]);
            assert(all@ + views[i as int].take(0) =~= all@);
        }
        let ghost base = all@;
        while j < m
            invariant
                j <= m,
                m == chunk@.len(),
                all@ == base + chunk@.take(j as int),
            decreases m - j,
        {
            all.push(chunk[j]);
            proof {
                assert(chunk@.take(j + 1) =~= chunk@.take(j as int).push(chunk@[j as int]));
                assert(all@ =~= base + chunk@.take(j + 1));
            }
            j += 1;
        }
        proof {
            assert(chunk@.take(m as int) =~= chunk@);
            assert(views.take(i + 1).drop_last() =~= views.take(i as int));
            assert(views.take(i + 1).last() == views[i as int]);
            assert(all@ =~= concat_chunks(views.take(i + 1)));
        }
        i += 1;
    }
    proof {
        assert(views.take(n as int) =~= views);
    }
    let total = all.len();
    let start: usize = if offset < total {
        offset
    } else {
        total
    };
    let end: usize = if size < total - start {
        start + size
    } else {
        total
    };
    let mut r: Vec<u8> = Vec::new();
    let mut j: usize = start;
    proof {
        assert(r@ =~= whole.subrange(start as int, start as int));
    }
    while j < end
        invariant
            start <= j <= end,
            end <= total,
            total == whole.len(),
            all@ == whole,
            r@ == whole.subrange(start as int, j as int),
        decreases end - j,
    {
        r.push(all[j]);
        proof {
            assert(whole.subrange(start as int, j + 1) =~= whole.subrange(
                start as int,
                j as int,
            ).push(whole[j as int]));
        }
        j += 1;
    }
    proof {
        assert(start == spec_min(offset as int, whole.len() as int));
        assert(end == spec_min(offset + size, whole.len() as int));
    }
    r
}

/// A Split read serves the chunk's own bytes: for a handle over chunk `i`
/// — the byte range `[i·b, (i+1)·b)` of the backing file — the window the
/// plan clamps out of the backing file holds exactly the requested slice
/// of that chunk, for every offset and count.
pub proof fn lemma_split_read_serves_chunk(data: Seq<u8>, b: u64, i: int, offset: u64, size: u64)
    requires
        b >= 1,
        data.len() <= u64::MAX,
        0 <= i < spec_chunk_count(data.len() as u64, b),
    ensures
        ({
            let n = data.len() as int;
            let chunk = spec_split_chunk(data, b, i);
            let off = spec_min(offset as int, b as int);
            let len = spec_min(size as int, b - off);
            data.subrange(spec_min(i * b + off, n), spec_min(i * b + off + len, n))
                == chunk.subrange(
                spec_min(off, chunk.len() as int),
                spec_min(off + len, chunk.len() as int),
            )
        }),
{
    let n = data.len() as int;
    lemma_split_chunk_size(data, b, i);
    crate::populate::lemma_chunk_shape(data.len() as u64, b, i);
    assert((i + 1) * b == i * b + b) by (nonlinear_arith)
    ;
    let chunk = spec_split_chunk(data, b, i);
    let s0 = i * b;
    let e0 = spec_min((i + 1) * b, n);
    let clen = e0 - s0;
    let off = spec_min(offset as int, b as int);
    let len = spec_min(size as int, b - off);
    let r1 = spec_min(off, clen);
    let r2 = spec_min(off + len, clen);
    assert(spec_min(s0 + off, n) == s0 + r1);
    assert(spec_min(s0 + off + len, n) == s0 + r2);
    assert(chunk.subrange(r1, r2) =~= data.subrange(s0 + r1, s0 + r2));
}

/// The chunks a Cat read touches, and where it starts inside the first of
/// them.
#[derive(Clone, Copy, Debug, PartialEq, Eq, Structural)]
pub struct CatReadPlan {
    /// Index of the first chunk read (0-based).
    pub part_start: u64,
    /// Index of the last chunk read (0-based, inclusive).
    pub part_end: u64,
    /// Where to start inside the first chunk; later chunks are read from
    /// their beginning.
    pub seek_first: u64,
    /// How many bytes the reply holds once the streamed bytes are
    /// truncated.
    pub count: u64,
}

/// Maps a requested byte range onto the run of chunks that holds it. The
/// offset is clamped to the file size, the count to what remains; a read
/// that yields nothing has no plan.
pub fn plan_cat_read(b: u64, file_size: u64, offset: u64, size: u64) -> (r: Option<CatReadPlan>)
    requires
        b >= 1,
    ensures
        ({
            let off = spec_min(offset as int, file_size as int);
            let cnt = spec_min(size as int, file_size - off);
            match r {
                None => cnt == 0,
                Some(p) => cnt > 0 && p.part_start == off / (b as int) && p.part_end == (off + cnt
                    - 1) / (b as int) && p.seek_first == off % (b as int) && p.count == cnt
                    && p.part_start <= p.part_end,
            }
        }),
{
    let off = if offset < file_size {
        offset
    } else {
        file_size
    };
    let cnt = if size < file_size - off {
        size
    } else {
        file_size - off
    };
    if cnt == 0 {
        return None;
    }
    let part_start = off / b;
    let part_end = (off + cnt - 1) / b;
    proof {
        vstd::arithmetic::div_mod::lemma_div_is_ordered(off as int, off + cnt - 1, b as int);
    }
    Some(CatReadPlan { part_start, part_end, seek_first: off % b, count: cnt })
}

/// Chunks laid end to end concatenate piecewise.
pub proof fn lemma_concat_append(a: Seq<Seq<u8>>, c: Seq<Seq<u8>>)
    ensures
        concat_chunks(a + c) == concat_chunks(a) + concat_chunks(c),
    decreases c.len(),
{
    if c.len() == 0 {
        assert(a + c =~= a);
        assert(concat_chunks(c) == Seq::<u8>::empty());
        assert(concat_chunks(a) + concat_chunks(c) =~= concat_chunks(a));
    } else {
        lemma_concat_append(a, c.drop_last());
        assert((a + c).drop_last() =~= a + c.drop_last());
        assert((a + c).last() == c.last());
        assert(concat_chunks(a + c) == concat_chunks(a) + concat_chunks(c.drop_last()) + c.last());
        assert(concat_chunks(a) + concat_chunks(c.drop_last()) + c.last() =~= concat_chunks(a) + (
        concat_chunks(c.drop_last()) + c.last()));
    }
}

/// With the first `k` chunks full, their concatenation holds `k·b` bytes.
proof fn lemma_concat_take_len(chunks: Seq<Seq<u8>>, b: u64, k: int)
    requires
        0 <= k <= chunks.len(),
        forall|i: int| 0 <= i < k ==> chunks[i].len() == b,
    ensures
        concat_chunks(chunks.take(k)).len() == k * b,
    decreases k,
{
    if k == 0 {
        assert(chunks.take(0) =~= Seq::<Seq<u8>>::empty());
    } else {
        lemma_concat_take_len(chunks, b, k - 1);
        assert(chunks.take(k).drop_last() =~= chunks.take(k - 1));
        assert(chunks.take(k).last() == chunks[k - 1]);
        assert((k - 1) * b + b == k * b) by (nonlinear_arith)
        ;
    }
}

/// A Cat read needs only the chunks its plan names: for a mirror with the
/// shape Split mode produces — every chunk but the last holding exactly
/// one block — the requested slice of the whole equals the concatenation
/// of chunks `part_start ..= part_end`, entered at `offset % b` in the
/// first and truncated to the requested count.
pub proof fn lemma_cat_plan_covers(chunks: Seq<Seq<u8>>, b: u64, offset: int, size: int)
    requires
        b >= 1,
        chunks.len() >= 1,
        forall|i: int| 0 <= i < chunks.len() - 1 ==> chunks[i].len() == b,
        chunks.last().len() <= b,
        0 <= offset,
        0 <= size,
    ensures
        ({
            let whole = concat_chunks(chunks);
            let total = whole.len() as int;
            let off = spec_min(offset, total);
            let cnt = spec_min(size, total - off);
            cnt > 0 ==> {
                let ps = off / (b as int);
                let pe = (off + cnt - 1) / (b as int);
                &&& 0 <= ps <= pe < chunks.len()
                &&& whole.subrange(off, off + cnt) == concat_chunks(
                    chunks.subrange(ps, pe + 1),
                ).skip(off - ps * b).take(cnt)
            }
        }),
{
    let whole = concat_chunks(chunks);
    let total = whole.len() as int;
    let off = spec_min(offset, total);
    let cnt = spec_min(size, total - off);
    let n = chunks.len() as int;
    let bi = b as int;
    if cnt > 0 {
        let ps = off / bi;
        let pe = (off + cnt - 1) / bi;
        // The whole is the full prefix plus the final chunk.
        lemma_concat_take_len(chunks, b, n - 1);
        assert(chunks.take(n - 1) + chunks.subrange(n - 1, n) =~= chunks);
        lemma_concat_append(chunks.take(n - 1), chunks.subrange(n - 1, n));
        assert(concat_chunks(chunks.subrange(n - 1, n)) == concat_chunks(
            chunks.subrange(n - 1, n).drop_last(),
        ) + chunks.last());
        assert(chunks.subrange(n - 1, n).drop_last() =~= Seq::<Seq<u8>>::empty());
        assert(total == (n - 1) * bi + chunks.last().len());
        // Bounds on the plan's chunk indices.
        assert(total <= n * bi) by (nonlinear_arith)
            requires
                total == (n - 1) * bi + chunks.last().len(),
                chunks.last().len() <= bi,
        ;
        assert(n * bi - 1 == bi * (n - 1) + (bi - 1)) by (nonlinear_arith)
        ;
        assert((n * bi - 1) / bi == n - 1) by {
            vstd::arithmetic::div_mod::lemma_div_multiples_vanish_fancy(n - 1, bi - 1, bi);
        }
        assert(off + cnt - 1 <= total - 1);
        vstd::arithmetic::div_mod::lemma_div_is_ordered(off + cnt - 1, n * bi - 1, bi);
        assert(pe <= n - 1);
        vstd::arithmetic::div_mod::lemma_div_is_ordered(off, off + cnt - 1, bi);
        assert(ps <= pe);
        vstd::arithmetic::div_mod::lemma_div_pos_is_pos(off, bi);
        assert(ps >= 0);
        // Division brackets the offsets between chunk boundaries.
        vstd::arithmetic::div_mod::lemma_fundamental_div_mod(off, bi);
        vstd::arithmetic::div_mod::lemma_mod_bound(off, bi);
        assert(bi * ps <= off < bi * ps + bi);
        vstd::arithmetic::div_mod::lemma_fundamental_div_mod(off + cnt - 1, bi);
        vstd::arithmetic::div_mod::lemma_mod_bound(off + cnt - 1, bi);
        assert(bi * pe <= off + cnt - 1 < bi * pe + bi);
        // Split the chunk list around the plan's run.
        let a = chunks.take(ps);
        let m = chunks.subrange(ps, pe + 1);
        let z = chunks.skip(pe + 1);
        assert(a + m =~= chunks.take(pe + 1));
        assert(chunks.take(pe + 1) + z =~= chunks);
        lemma_concat_append(chunks.take(pe + 1), z);
        lemma_concat_append(a, m);
        lemma_concat_take_len(chunks, b, ps);
        assert(concat_chunks(a).len() == ps * bi);
        assert(whole == concat_chunks(a) + concat_chunks(m) + concat_chunks(z));
        // The run reaches past the end of the requested range.
        if pe + 1 <= n - 1 {
            lemma_concat_take_len(chunks, b, pe + 1);
            assert(concat_chunks(chunks.take(pe + 1)).len() == (pe + 1) * bi);
            assert((pe + 1) * bi == bi * pe + bi) by (nonlinear_arith)
            ;
            assert(off + cnt <= concat_chunks(chunks.take(pe + 1)).len());
        } else {
            assert(pe + 1 == n);
            assert(chunks.take(pe + 1) =~= chunks);
            assert(off + cnt <= concat_chunks(chunks.take(pe + 1)).len());
        }
        assert(concat_chunks(chunks.take(pe + 1)).len() == ps * bi + concat_chunks(m).len());
        assert(ps * bi == bi * ps) by (nonlinear_arith)
        ;
        // Carve the requested range out of the middle run.
        let s = off - ps * bi;
        assert(0 <= s);
        assert(off + cnt - ps * bi <= concat_chunks(m).len());
        assert(whole.subrange(off, off + cnt) =~= concat_chunks(m).subrange(s, s + cnt));
        assert(concat_chunks(m).skip(s).take(cnt) =~= concat_chunks(m).subrange(s, s + cnt));
    }
}

} // verus!
