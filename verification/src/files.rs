//! What a node computes when it takes in a file, reports on it or hands it
//! back: the manifest of an upload, the chunks it is missing, the bytes of a
//! download.

use vstd::prelude::*;

use crate::chunker::{chunk_bytes, chunk_datas, chunks_of, describes, to_metadata, Chunk, DEFAULT_CHUNK_SIZE};
use crate::models::{ChunkMetadata, DownloadedFile, FileManifest, FileStatusResponse};

verus! {

/// A lowercase hexadecimal digit.
pub open spec fn is_lower_hex_char(c: char) -> bool {
    ('0' <= c && c <= '9') || ('a' <= c && c <= 'f')
}

/// The hyphenated lowercase text of a random (version 4, RFC 4122 variant)
/// UUID: 36 characters, hyphens at 8, 13, 18 and 23, hex digits elsewhere,
/// a `4` at 14 and one of `8`, `9`, `a`, `b` at 19.
pub open spec fn is_uuid_v4_text(s: Seq<char>) -> bool {
    &&& s.len() == 36
    &&& forall|i: int|
        0 <= i < 36 ==> if i == 8 || i == 13 || i == 18 || i == 23 {
            #[trigger] s[i] == '-'
        } else {
            is_lower_hex_char(s[i])
        }
    &&& s[14] == '4'
    &&& (s[19] == '8' || s[19] == '9' || s[19] == 'a' || s[19] == 'b')
}

/// Draws a fresh file id.
///
/// Wraps `uuid::Uuid::new_v4` and the `Display` of `Uuid`. The value is
/// random, so the contract says only what holds of every outcome, as the
/// uuid source shows it: the version and variant bits that `new_v4` sets,
/// written in the hyphenated lowercase form that `Display` produces.
#[verifier::external_body]
fn new_file_id() -> (id: String)
    ensures
        is_uuid_v4_text(id@),
{
    uuid::Uuid::new_v4().to_string()
}

/// The name a file gets when the upload does not name it.
pub fn default_file_name() -> (name: String)
    ensures
        name@ == "uploaded-file"@,
{
    String::from_str("uploaded-file")
}

/// `manifest` describes `data`, cut into `chunks`, under the given id and name,
/// before any replication.
pub open spec fn is_upload_manifest(
    manifest: FileManifest,
    file_id: Seq<char>,
    file_name: Seq<char>,
    data: Seq<u8>,
    chunks: Seq<Chunk>,
) -> bool {
    &&& chunks_of(data, chunks, DEFAULT_CHUNK_SIZE as int)
    &&& manifest.file_id@ == file_id
    &&& manifest.file_name@ == file_name
    &&& manifest.content_type is None
    &&& manifest.replication_factor == 1
    &&& manifest.target_peers@.len() == 0
    &&& manifest.size == data.len()
    &&& manifest.chunks@.len() == chunks.len()
    &&& forall|i: int| 0 <= i < chunks.len() ==> describes(#[trigger] manifest.chunks@[i], chunks[i])
}

/// Cuts `data` into chunks and writes the manifest of the file: its id and
/// name, its size (the sum of the chunk sizes) and the chunk list. Only this
/// node holds the file yet: one replica, no target peers.
pub fn build_manifest(file_id: String, file_name: String, data: &[u8]) -> (r: (FileManifest, Vec<Chunk>))
    requires
        data@.len() <= i64::MAX,
    ensures
        is_upload_manifest(r.0, file_id@, file_name@, data@, r.1@),
{
    let chunks = chunk_bytes(data, DEFAULT_CHUNK_SIZE);
    let metadata = to_metadata(chunks.as_slice());
    let mut size: i64 = 0;
    let mut i: usize = 0;
    while i < chunks.len()
        invariant
            chunks_of(data@, chunks@, DEFAULT_CHUNK_SIZE as int),
            data@.len() <= i64::MAX,
            i <= chunks@.len(),
            size == chunk_datas(chunks@).take(i as int).flatten().len(),
        decreases chunks@.len() - i,
    {
        proof {
            let ds = chunk_datas(chunks@);
            ds.take(i as int).lemma_flatten_push(ds[i as int]);
            assert(ds.take(i as int).push(ds[i as int]) == ds.take(i as int + 1));
            crate::files::lemma_flatten_prefix_len(ds, i as int + 1);
            assert(chunks@[i as int].size == ds[i as int].len());
        }
        size = size + chunks[i].size;
        i = i + 1;
    }
    assert(chunk_datas(chunks@).take(chunks@.len() as int) == chunk_datas(chunks@));
    let manifest = FileManifest {
        file_id,
        file_name,
        content_type: None,
        replication_factor: 1,
        target_peers: Vec::new(),
        size,
        chunks: metadata,
    };
    (manifest, chunks)
}

/// A prefix of pieces never holds more bytes than all of them.
proof fn lemma_flatten_prefix_len(pieces: Seq<Seq<u8>>, k: int)
    requires
        0 <= k <= pieces.len(),
    ensures
        pieces.take(k).flatten().len() <= pieces.flatten().len(),
    decreases pieces.len() - k,
{
    if k < pieces.len() {
        lemma_flatten_prefix_len(pieces, k + 1);
        pieces.take(k).lemma_flatten_push(pieces[k]);
        assert(pieces.take(k).push(pieces[k]) == pieces.take(k + 1));
    } else {
        assert(pieces.take(k) == pieces);
    }
}

/// Takes in an uploaded file: draws a fresh id, names the file (by default
/// "uploaded-file"), cuts it into chunks and writes its manifest.
pub fn new_upload(file_name: Option<String>, data: &[u8]) -> (r: (FileManifest, Vec<Chunk>))
    requires
        data@.len() <= i64::MAX,
    ensures
        is_uuid_v4_text(r.0.file_id@),
        is_upload_manifest(
            r.0,
            r.0.file_id@,
            match file_name {
                Some(name) => name@,
                None => "uploaded-file"@,
            },
            data@,
            r.1@,
        ),
{
    let file_id = new_file_id();
    let name = match file_name {
        Some(name) => name,
        None => default_file_name(),
    };
    build_manifest(file_id, name, data)
}

/// The chunks of a manifest that a node does not hold, in manifest order;
/// `present[i]` says whether it holds the `i`-th.
pub open spec fn missing_from(chunks: Seq<ChunkMetadata>, present: Seq<bool>) -> Seq<ChunkMetadata>
    decreases chunks.len(),
{
    if chunks.len() == 0 {
        Seq::empty()
    } else {
        let rest = missing_from(chunks.drop_last(), present.take(chunks.len() - 1));
        if present[chunks.len() - 1] {
            rest
        } else {
            rest.push(chunks.last())
        }
    }
}

/// The chunks of `manifest` that `present` marks as absent, in order.
pub fn missing_chunks_for_file(manifest: &FileManifest, present: &Vec<bool>) -> (missing: Vec<ChunkMetadata>)
    requires
        present@.len() == manifest.chunks@.len(),
    ensures
        missing@ == missing_from(manifest.chunks@, present@),
{
    let chunks = &manifest.chunks;
    let mut missing: Vec<ChunkMetadata> = Vec::new();
    let mut i: usize = 0;
    while i < chunks.len()
        invariant
            present@.len() == chunks@.len(),
            i <= chunks@.len(),
            missing@ == missing_from(chunks@.take(i as int), present@.take(i as int)),
        decreases chunks@.len() - i,
    {
        proof {
            let t = chunks@.take(i as int + 1);
            assert(t.drop_last() == chunks@.take(i as int));
            assert(present@.take(i as int + 1).take(i as int) == present@.take(i as int));
        }
        if !present[i] {
            missing.push(chunks[i].duplicate());
        }
        i = i + 1;
    }
    assert(chunks@.take(chunks@.len() as int) == chunks@);
    assert(present@.take(present@.len() as int) == present@);
    missing
}

/// The status a node reports for `file_id`: without a manifest, neither held
/// nor complete; with one, complete exactly when no chunk is missing.
pub fn file_status(file_id: String, manifest: Option<&FileManifest>, present: &Vec<bool>) -> (status: FileStatusResponse)
    requires
        manifest matches Some(m) ==> present@.len() == m.chunks@.len(),
    ensures
        status.file_id == file_id,
        match manifest {
            None => !status.has_manifest && !status.complete && status.missing_chunks@.len() == 0,
            Some(m) => {
                &&& status.has_manifest
                &&& status.missing_chunks@ == missing_from(m.chunks@, present@)
                &&& status.complete == (status.missing_chunks@.len() == 0)
            },
        },
{
    match manifest {
        None => FileStatusResponse {
            file_id,
            has_manifest: false,
            complete: false,
            missing_chunks: Vec::new(),
        },
        Some(m) => {
            let missing = missing_chunks_for_file(m, present);
            let complete = missing.len() == 0;
            FileStatusResponse { file_id, has_manifest: true, complete, missing_chunks: missing }
        },
    }
}

/// The bytes of pieces laid end to end.
pub open spec fn byte_views(pieces: Seq<Vec<u8>>) -> Seq<Seq<u8>> {
    pieces.map_values(|p: Vec<u8>| p@)
}

/// Puts a file back together: its chunks' bytes, in manifest order, end to end.
pub fn assemble_file(file_name: String, pieces: &Vec<Vec<u8>>) -> (file: DownloadedFile)
    ensures
        file.file_name == file_name,
        file.bytes@ == byte_views(pieces@).flatten(),
{
    let mut bytes: Vec<u8> = Vec::new();
    let mut i: usize = 0;
    while i < pieces.len()
        invariant
            i <= pieces@.len(),
            bytes@ == byte_views(pieces@.take(i as int)).flatten(),
        decreases pieces@.len() - i,
    {
        let piece = &pieces[i];
        let mut j: usize = 0;
        let ghost before = bytes@;
        while j < piece.len()
            invariant
                j <= piece@.len(),
                bytes@ == before + piece@.take(j as int),
            decreases piece@.len() - j,
        {
            bytes.push(piece[j]);
            j = j + 1;
            assert(bytes@ == before + piece@.take(j as int));
        }
        proof {
            assert(piece@.take(piece@.len() as int) == piece@);
            let prefix = pieces@.take(i as int);
            prefix.lemma_push_map_commute(|p: Vec<u8>| p@, pieces@[i as int]);
            assert(prefix.push(pieces@[i as int]) == pieces@.take(i as int + 1));
            byte_views(prefix).lemma_flatten_push(piece@);
        }
        i = i + 1;
    }
    assert(pieces@.take(pieces@.len() as int) == pieces@);
    DownloadedFile { file_name, bytes }
}

/// Reading a file back gives the bytes that were uploaded: when the chunk
/// store maps the content address of each uploaded chunk to that chunk's
/// bytes, the pieces that the manifest names, laid end to end, are the file.
pub proof fn lemma_download_returns_upload(
    manifest: FileManifest,
    file_id: Seq<char>,
    file_name: Seq<char>,
    data: Seq<u8>,
    chunks: Seq<Chunk>,
    store: Map<Seq<char>, Seq<u8>>,
)
    requires
        is_upload_manifest(manifest, file_id, file_name, data, chunks),
        forall|i: int|
            0 <= i < chunks.len() ==> store.contains_key(#[trigger] chunks[i].hash@)
                && store[chunks[i].hash@] == chunks[i].data@,
    ensures
        manifest.chunks@.map_values(|m: ChunkMetadata| store[m.hash@]).flatten() == data,
{
    let read = manifest.chunks@.map_values(|m: ChunkMetadata| store[m.hash@]);
    assert forall|i: int| 0 <= i < chunks.len() implies read[i] == chunk_datas(chunks)[i] by {
        assert(describes(manifest.chunks@[i], chunks[i]));
    }
    assert(read == chunk_datas(chunks));
}

/// The `Content-Disposition` value that offers a download under `file_name`.
pub fn content_disposition(file_name: &str) -> (value: String)
    ensures
        value@ == "attachment; filename=\""@ + file_name@ + "\""@,
{
    let mut value = String::from_str("attachment; filename=\"");
    value.append(file_name);
    value.append("\"");
    value
}

/// A manifest sent for `path_id` is accepted only when it carries that id.
pub fn manifest_matches_path(path_id: &str, manifest: &FileManifest) -> (ok: bool)
    ensures
        ok == (manifest.file_id@ == path_id@),
{
    let expected = String::from_str(path_id);
    manifest.file_id == expected
}

} // verus!

verus! {

/// `positions` are, in increasing order, exactly the positions where
/// `present` is false.
pub open spec fn lists_absent_positions(present: Seq<bool>, positions: Seq<int>) -> bool {
    &&& forall|k: int|
        0 <= k < positions.len() ==> 0 <= #[trigger] positions[k] < present.len()
            && !present[positions[k]]
    &&& forall|k: int, l: int| 0 <= k < l < positions.len() ==> #[trigger] positions[k] < #[trigger] positions[l]
    &&& forall|i: int| 0 <= i < present.len() && !present[i] ==> #[trigger] positions.contains(i)
}

/// The chunks a node lacks are exactly the manifest's chunks whose presence
/// flag is false, each once, in manifest order: there is a list of the
/// positions of the false flags, increasing and holding every one of them,
/// and the missing chunks are the chunks at those positions.
pub proof fn lemma_missing_are_the_absent_chunks(chunks: Seq<ChunkMetadata>, present: Seq<bool>)
    requires
        present.len() == chunks.len(),
    ensures
        exists|positions: Seq<int>|
            #[trigger] lists_absent_positions(present, positions) && missing_from(chunks, present)
                == positions.map_values(|i: int| chunks[i]),
    decreases chunks.len(),
{
    if chunks.len() == 0 {
        let positions = Seq::<int>::empty();
        assert(lists_absent_positions(present, positions));
        assert(missing_from(chunks, present) == positions.map_values(|i: int| chunks[i]));
    } else {
        let n = chunks.len() as int;
        let c0 = chunks.drop_last();
        let p0 = present.take(n - 1);
        lemma_missing_are_the_absent_chunks(c0, p0);
        let pos0 = choose|positions: Seq<int>|
            #[trigger] lists_absent_positions(p0, positions) && missing_from(c0, p0)
                == positions.map_values(|i: int| c0[i]);
        let positions = if present[n - 1] {
            pos0
        } else {
            pos0.push(n - 1)
        };
        assert forall|k: int| 0 <= k < positions.len() implies 0 <= #[trigger] positions[k] < present.len()
            && !present[positions[k]] by {
            if k < pos0.len() {
                assert(positions[k] == pos0[k]);
                assert(p0[pos0[k]] == present[pos0[k]]);
            }
        }
        assert forall|k: int, l: int| 0 <= k < l < positions.len() implies #[trigger] positions[k]
            < #[trigger] positions[l] by {
            if l < pos0.len() {
                assert(positions[k] == pos0[k] && positions[l] == pos0[l]);
            } else {
                assert(positions[k] == pos0[k]);
            }
        }
        assert forall|i: int| 0 <= i < present.len() && !present[i] implies #[trigger] positions.contains(i) by {
            if i < n - 1 {
                assert(!p0[i]);
                assert(pos0.contains(i));
                let k = choose|k: int| 0 <= k < pos0.len() && pos0[k] == i;
                assert(positions[k] == i);
            } else {
                assert(positions[pos0.len() as int] == i);
            }
        }
        assert(lists_absent_positions(present, positions));
        let picked = positions.map_values(|i: int| chunks[i]);
        let picked0 = pos0.map_values(|i: int| c0[i]);
        assert forall|k: int| 0 <= k < pos0.len() implies pos0.map_values(|i: int| chunks[i])[k] == picked0[k] by {
            assert(0 <= pos0[k] < n - 1);
            assert(c0[pos0[k]] == chunks[pos0[k]]);
        }
        assert(pos0.map_values(|i: int| chunks[i]) == picked0);
        if !present[n - 1] {
            assert(picked == picked0.push(chunks.last()));
        }
        assert(missing_from(chunks, present) == picked);
    }
}

} // verus!
