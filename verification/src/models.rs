//! The records that nodes store and exchange.

use vstd::prelude::*;

verus! {

/// One chunk of a file as a manifest lists it: its position, its content
/// address and its length in bytes.
#[derive(Debug, Clone)]
pub struct ChunkMetadata {
    pub index: i64,
    pub hash: String,
    pub size: i64,
}

/// Everything a node needs to rebuild a file from its chunks.
#[derive(Debug, Clone)]
pub struct FileManifest {
    pub file_id: String,
    pub file_name: String,
    pub content_type: Option<String>,
    pub replication_factor: i32,
    pub target_peers: Vec<String>,
    pub size: i64,
    pub chunks: Vec<ChunkMetadata>,
}

/// A stored file as a listing shows it.
#[derive(Debug, Clone)]
pub struct FileSummary {
    pub file_id: String,
    pub file_name: String,
    pub size: i64,
}

/// A file as the cluster listing shows it, with the nodes that know it.
#[derive(Debug, Clone)]
pub struct ClusterFileSummary {
    pub file_id: String,
    pub file_name: String,
    pub size: i64,
    pub known_by: Vec<String>,
}

/// The addresses at which a peer can be reached.
#[derive(Debug, Clone)]
pub struct PeerAdresses {
    pub http: String,
}

/// A node of the cluster.
#[derive(Debug, Clone)]
pub struct Peer {
    pub node_id: String,
    pub adresses: PeerAdresses,
}

/// Whether a node holds a file's manifest and all of its chunks.
#[derive(Debug, Clone)]
pub struct FileStatusResponse {
    pub file_id: String,
    pub has_manifest: bool,
    pub complete: bool,
    pub missing_chunks: Vec<ChunkMetadata>,
}

/// The answer to a health probe.
#[derive(Debug, Clone)]
pub struct HealthResponse {
    pub peer_info: Peer,
    pub status: String,
}

/// A file put back together from its chunks.
pub struct DownloadedFile {
    pub file_name: String,
    pub bytes: Vec<u8>,
}

/// A copy of a string with the same contents.
pub fn copy_string(s: &String) -> (r: String)
    ensures
        r == *s,
{
    s.clone()
}

/// A copy of a list of strings with the same contents.
pub fn copy_strings(v: &Vec<String>) -> (r: Vec<String>)
    ensures
        r@ == v@,
{
    let mut r: Vec<String> = Vec::new();
    let mut i: usize = 0;
    while i < v.len()
        invariant
            i <= v@.len(),
            r@ == v@.take(i as int),
        decreases v@.len() - i,
    {
        r.push(copy_string(&v[i]));
        i = i + 1;
        assert(r@ == v@.take(i as int));
    }
    assert(v@.take(v@.len() as int) == v@);
    r
}

impl ChunkMetadata {
    /// A copy with the same fields.
    pub fn duplicate(&self) -> (r: ChunkMetadata)
        ensures
            r == *self,
    {
        ChunkMetadata { index: self.index, hash: copy_string(&self.hash), size: self.size }
    }
}

impl Peer {
    /// A copy with the same fields.
    pub fn duplicate(&self) -> (r: Peer)
        ensures
            r == *self,
    {
        Peer {
            node_id: copy_string(&self.node_id),
            adresses: PeerAdresses { http: copy_string(&self.adresses.http) },
        }
    }
}

} // verus!

verus! {

impl HealthResponse {
    /// The answer of a healthy node: its own description and status `ok`.
    pub fn ok(peer_info: Peer) -> (response: HealthResponse)
        ensures
            response.peer_info == peer_info,
            response.status@ == "ok"@,
    {
        HealthResponse { peer_info, status: String::from_str("ok") }
    }
}

} // verus!
