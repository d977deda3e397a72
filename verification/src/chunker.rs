//! Splitting a file into fixed-size, content-addressed chunks.

use vstd::prelude::*;

use crate::hashing::{content_address, content_hash};
use crate::models::ChunkMetadata;

verus! {

/// The chunk size that uploads use: one mebibyte.
pub const DEFAULT_CHUNK_SIZE: usize = 1048576;

/// One piece of a file with its position and content address.
#[derive(Debug, Clone)]
pub struct Chunk {
    pub index: i64,
    pub hash: String,
    pub size: i64,
    pub data: Vec<u8>,
}

/// The bytes of each chunk, in order.
pub open spec fn chunk_datas(chunks: Seq<Chunk>) -> Seq<Seq<u8>> {
    chunks.map_values(|c: Chunk| c.data@)
}

/// `pieces` cut `data` into runs of `size` bytes: laid end to end they give
/// `data` back, none is empty, none is longer than `size`, and all but the
/// last have exactly `size` bytes.
pub open spec fn is_split(data: Seq<u8>, pieces: Seq<Seq<u8>>, size: int) -> bool {
    &&& pieces.flatten() == data
    &&& forall|i: int| 0 <= i < pieces.len() ==> 0 < #[trigger] pieces[i].len() <= size
    &&& forall|i: int| 0 <= i < pieces.len() - 1 ==> #[trigger] pieces[i].len() == size
}

/// A chunk knows its place, its length and its content address.
pub open spec fn well_formed_chunk(c: Chunk, i: int) -> bool {
    &&& c.index == i
    &&& c.size == c.data@.len()
    &&& c.hash@ == content_address(c.data@)
}

/// `chunks` are the chunks of `data` at `size` bytes each.
pub open spec fn chunks_of(data: Seq<u8>, chunks: Seq<Chunk>, size: int) -> bool {
    &&& is_split(data, chunk_datas(chunks), size)
    &&& forall|i: int| 0 <= i < chunks.len() ==> well_formed_chunk(#[trigger] chunks[i], i)
}

/// A manifest entry describes the chunk beside it.
pub open spec fn describes(m: ChunkMetadata, c: Chunk) -> bool {
    &&& m.index == c.index
    &&& m.hash@ == c.hash@
    &&& m.size == c.size
}

proof fn lemma_chunk_datas_push(chunks: Seq<Chunk>, c: Chunk)
    ensures
        chunk_datas(chunks.push(c)) == chunk_datas(chunks).push(c.data@),
{
    chunks.lemma_push_map_commute(|c: Chunk| c.data@, c);
}

/// Splitting is determined by the data and the size: two splits of the same
/// bytes at the same size are the same.
pub proof fn lemma_split_unique(data: Seq<u8>, p: Seq<Seq<u8>>, q: Seq<Seq<u8>>, size: int)
    requires
        is_split(data, p, size),
        is_split(data, q, size),
    ensures
        p == q,
    decreases data.len(),
{
    if p.len() == 0 || q.len() == 0 {
        if p.len() > 0 {
            assert(p.flatten() == p[0] + p.drop_first().flatten());
            assert(p[0].len() > 0);
        }
        if q.len() > 0 {
            assert(q.flatten() == q[0] + q.drop_first().flatten());
            assert(q[0].len() > 0);
        }
        assert(p == q);
    } else {
        assert(p.flatten() == p[0] + p.drop_first().flatten());
        assert(q.flatten() == q[0] + q.drop_first().flatten());
        let pr = p.drop_first();
        let qr = q.drop_first();
        if pr.len() > 0 {
            assert(pr.flatten() == pr[0] + pr.drop_first().flatten());
            assert(pr[0] == p[1]);
        }
        if qr.len() > 0 {
            assert(qr.flatten() == qr[0] + qr.drop_first().flatten());
            assert(qr[0] == q[1]);
        }
        assert(p[0].len() == q[0].len());
        assert(p[0] == data.take(p[0].len() as int));
        assert(q[0] == data.take(q[0].len() as int));
        let rest = data.skip(p[0].len() as int);
        assert(pr.flatten() == rest);
        assert(qr.flatten() == rest);
        assert forall|i: int| 0 <= i < pr.len() implies 0 < #[trigger] pr[i].len() <= size by {
            assert(pr[i] == p[i + 1]);
        }
        assert forall|i: int| 0 <= i < pr.len() - 1 implies #[trigger] pr[i].len() == size by {
            assert(pr[i] == p[i + 1]);
        }
        assert forall|i: int| 0 <= i < qr.len() implies 0 < #[trigger] qr[i].len() <= size by {
            assert(qr[i] == q[i + 1]);
        }
        assert forall|i: int| 0 <= i < qr.len() - 1 implies #[trigger] qr[i].len() == size by {
            assert(qr[i] == q[i + 1]);
        }
        lemma_split_unique(rest, pr, qr, size);
        assert(p == seq![p[0]] + pr);
        assert(q == seq![q[0]] + qr);
    }
}

fn copy_bytes(data: &[u8], from: usize, to: usize) -> (r: Vec<u8>)
    requires
        from <= to <= data@.len(),
    ensures
        r@ == data@.subrange(from as int, to as int),
{
    let mut r: Vec<u8> = Vec::new();
    let mut i = from;
    while i < to
        invariant
            from <= i <= to <= data@.len(),
            r@ == data@.subrange(from as int, i as int),
        decreases to - i,
    {
        r.push(data[i]);
        i = i + 1;
        assert(r@ == data@.subrange(from as int, i as int));
    }
    r
}

/// Cuts `data` into chunks of `chunk_size` bytes (the last one may be
/// shorter) and gives each its index, its length and its content address.
pub fn chunk_bytes(data: &[u8], chunk_size: usize) -> (chunks: Vec<Chunk>)
    requires
        chunk_size > 0,
        data@.len() <= i64::MAX,
    ensures
        chunks_of(data@, chunks@, chunk_size as int),
{
    let n = data.len();
    let mut chunks: Vec<Chunk> = Vec::new();
    let mut offset: usize = 0;
    assert(data@.take(0) == Seq::<u8>::empty());
    while offset < n
        invariant
            n == data@.len() <= i64::MAX,
            chunk_size > 0,
            offset <= n,
            chunks@.len() <= offset,
            chunks@.len() > 0 && offset < n ==> chunks@.last().data@.len() == chunk_size,
            chunk_datas(chunks@).flatten() == data@.take(offset as int),
            forall|i: int| 0 <= i < chunks@.len() ==> 0 < #[trigger] chunk_datas(chunks@)[i].len() <= chunk_size,
            forall|i: int| 0 <= i < chunks@.len() - 1 ==> #[trigger] chunk_datas(chunks@)[i].len() == chunk_size,
            forall|i: int| 0 <= i < chunks@.len() ==> well_formed_chunk(#[trigger] chunks@[i], i),
        decreases n - offset,
    {
        let end = if n - offset > chunk_size { offset + chunk_size } else { n };
        let piece = copy_bytes(data, offset, end);
        let hash = content_hash(piece.as_slice());
        let index = chunks.len() as i64;
        let size = piece.len() as i64;
        let chunk = Chunk { index, hash, size, data: piece };
        let ghost old_chunks = chunks@;
        proof {
            lemma_chunk_datas_push(old_chunks, chunk);
            chunk_datas(old_chunks).lemma_flatten_push(chunk.data@);
            assert(data@.take(offset as int) + data@.subrange(offset as int, end as int)
                == data@.take(end as int));
        }
        chunks.push(chunk);
        proof {
            assert forall|i: int| 0 <= i < chunks@.len() implies 0 < #[trigger] chunk_datas(chunks@)[i].len() <= chunk_size by {
                if i < old_chunks.len() {
                    assert(chunk_datas(chunks@)[i] == chunk_datas(old_chunks)[i]);
                }
            }
            assert forall|i: int| 0 <= i < chunks@.len() - 1 implies #[trigger] chunk_datas(chunks@)[i].len() == chunk_size by {
                assert(chunk_datas(chunks@)[i] == chunk_datas(old_chunks)[i]);
                if i == old_chunks.len() - 1 {
                    assert(old_chunks.last() == old_chunks[i]);
                }
            }
            assert forall|i: int| 0 <= i < chunks@.len() implies well_formed_chunk(#[trigger] chunks@[i], i) by {
                if i < old_chunks.len() {
                    assert(chunks@[i] == old_chunks[i]);
                }
            }
        }
        offset = end;
    }
    assert(data@.take(n as int) == data@);
    chunks
}

/// The manifest entries of `chunks`: index, hash and size of each.
pub fn to_metadata(chunks: &[Chunk]) -> (metadata: Vec<ChunkMetadata>)
    ensures
        metadata@.len() == chunks@.len(),
        forall|i: int| 0 <= i < chunks@.len() ==> describes(#[trigger] metadata@[i], chunks@[i]),
{
    let mut metadata: Vec<ChunkMetadata> = Vec::new();
    let mut i: usize = 0;
    while i < chunks.len()
        invariant
            i <= chunks@.len(),
            metadata@.len() == i,
            forall|j: int| 0 <= j < i ==> describes(#[trigger] metadata@[j], chunks@[j]),
        decreases chunks@.len() - i,
    {
        let chunk = &chunks[i];
        metadata.push(
            ChunkMetadata {
                index: chunk.index,
                hash: crate::models::copy_string(&chunk.hash),
                size: chunk.size,
            },
        );
        i = i + 1;
    }
    metadata
}

} // verus!

verus! {

/// A chunk made by `chunk_bytes` passes the check that `put_chunk` and chunk
/// fetches make: its bytes have the content address it is stored under.
pub proof fn lemma_chunks_pass_verification(data: Seq<u8>, chunks: Seq<Chunk>, size: int, i: int)
    requires
        chunks_of(data, chunks, size),
        0 <= i < chunks.len(),
    ensures
        content_address(chunks[i].data@) == chunks[i].hash@,
{
    assert(well_formed_chunk(chunks[i], i));
}

} // verus!

verus! {

/// The sum of the sizes that manifest entries give.
pub open spec fn total_size(metadata: Seq<ChunkMetadata>) -> int
    decreases metadata.len(),
{
    if metadata.len() == 0 {
        0
    } else {
        metadata[0].size + total_size(metadata.drop_first())
    }
}

proof fn lemma_total_size_is_flattened_len(metadata: Seq<ChunkMetadata>, chunks: Seq<Chunk>)
    requires
        metadata.len() == chunks.len(),
        forall|i: int| 0 <= i < chunks.len() ==> describes(#[trigger] metadata[i], chunks[i]),
        forall|i: int| 0 <= i < chunks.len() ==> (#[trigger] chunks[i]).size == chunks[i].data@.len(),
    ensures
        total_size(metadata) == chunk_datas(chunks).flatten().len(),
    decreases chunks.len(),
{
    if chunks.len() > 0 {
        let m1 = metadata.drop_first();
        let c1 = chunks.drop_first();
        assert forall|i: int| 0 <= i < c1.len() implies describes(#[trigger] m1[i], c1[i]) by {
            assert(m1[i] == metadata[i + 1] && c1[i] == chunks[i + 1]);
        }
        assert forall|i: int| 0 <= i < c1.len() implies (#[trigger] c1[i]).size == c1[i].data@.len() by {
            assert(c1[i] == chunks[i + 1]);
        }
        lemma_total_size_is_flattened_len(m1, c1);
        assert(chunk_datas(chunks).drop_first() == chunk_datas(c1));
        assert(describes(metadata[0], chunks[0]));
    }
}

/// The manifest entries of a chunking account for every byte of the input
/// exactly once: their sizes sum to its length, each is positive, and each
/// entry carries its own position.
pub proof fn lemma_metadata_accounts_for_every_byte(
    data: Seq<u8>,
    chunks: Seq<Chunk>,
    metadata: Seq<ChunkMetadata>,
    size: int,
)
    requires
        chunks_of(data, chunks, size),
        metadata.len() == chunks.len(),
        forall|i: int| 0 <= i < chunks.len() ==> describes(#[trigger] metadata[i], chunks[i]),
    ensures
        total_size(metadata) == data.len(),
        forall|i: int| 0 <= i < metadata.len() ==> (#[trigger] metadata[i]).index == i && metadata[i].size > 0,
{
    assert forall|i: int| 0 <= i < chunks.len() implies (#[trigger] chunks[i]).size == chunks[i].data@.len() by {
        assert(well_formed_chunk(chunks[i], i));
    }
    lemma_total_size_is_flattened_len(metadata, chunks);
    assert forall|i: int| 0 <= i < metadata.len() implies (#[trigger] metadata[i]).index == i && metadata[i].size > 0 by {
        assert(well_formed_chunk(chunks[i], i));
        assert(describes(metadata[i], chunks[i]));
        assert(chunk_datas(chunks)[i].len() > 0);
    }
}

} // verus!
