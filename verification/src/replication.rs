//! The decisions of replication: which peers receive a new file, what to
//! send each of them and in which order, and which fetched chunks to trust.

use vstd::prelude::*;

use crate::hashing::{content_address, verify_chunk};
use crate::models::{copy_string, copy_strings, FileManifest, Peer};
use crate::placement::{
    is_placement_order, placement_order, placement_targets, scores_for, target_count,
    Blake3ReplicaPlacement, ReplicaPlacement,
};
use crate::policy::{remote_count, ReplicationPolicy};
use crate::registry::{find_peer, is_first_of, lookup, position_of};
use crate::text::string_views;

verus! {

/// The node ids of `peers`, in order.
pub open spec fn node_ids(peers: Seq<Peer>) -> Seq<Seq<char>> {
    peers.map_values(|p: Peer| p.node_id@)
}

/// The targets of a replication that `manifest` records: the peers chosen by
/// placement among `peers`, and the policy's factor.
pub open spec fn records_targets(
    before: FileManifest,
    after: FileManifest,
    peers: Seq<Peer>,
    factor: usize,
) -> bool {
    &&& after.file_id == before.file_id
    &&& after.file_name == before.file_name
    &&& after.content_type == before.content_type
    &&& after.size == before.size
    &&& after.chunks == before.chunks
    &&& string_views(after.target_peers@) == placement_targets(
        before.file_id@,
        node_ids(peers),
        factor as int,
    )
    &&& after.replication_factor == factor as i32
}

/// Decides where a new file goes. With no peers nothing changes and no one
/// is sent anything. Otherwise the manifest records the peers that placement
/// picks among the node ids and the policy's factor, and the result lists,
/// for each target in order, the known peer with that node id.
pub fn plan_replication(
    manifest: &mut FileManifest,
    peers: &Vec<Peer>,
    policy: &ReplicationPolicy,
    placement: &Blake3ReplicaPlacement,
) -> (targets: Vec<Peer>)
    ensures
        peers@.len() == 0 ==> *final(manifest) == *old(manifest) && targets@.len() == 0,
        peers@.len() > 0 ==> {
            let chosen = placement_targets(
                old(manifest).file_id@,
                node_ids(peers@),
                policy.replication_factor as int,
            );
            &&& records_targets(*old(manifest), *final(manifest), peers@, policy.replication_factor)
            &&& targets@.len() == chosen.len()
            &&& forall|k: int|
                0 <= k < chosen.len() ==> lookup(peers@, chosen[k]) == Some(#[trigger] targets@[k])
        },
{
    if peers.len() == 0 {
        return Vec::new();
    }
    let mut ids: Vec<String> = Vec::new();
    let mut i: usize = 0;
    while i < peers.len()
        invariant
            i <= peers@.len(),
            string_views(ids@) == node_ids(peers@).take(i as int),
        decreases peers@.len() - i,
    {
        let id = copy_string(&peers[i].node_id);
        proof {
            crate::text::lemma_string_views_push(ids@, id);
            assert(node_ids(peers@).take(i as int + 1) == node_ids(peers@).take(i as int).push(id@));
        }
        ids.push(id);
        i = i + 1;
    }
    assert(node_ids(peers@).take(peers@.len() as int) == node_ids(peers@));
    let chosen = placement.target_peers_for_file(manifest.file_id.as_str(), ids.as_slice(), policy);
    let ghost ids_view = node_ids(peers@);
    proof {
        crate::placement::lemma_targets_are_distinct_peers(
            manifest.file_id@,
            ids_view,
            policy.replication_factor as int,
        );
    }
    manifest.target_peers = copy_strings(&chosen);
    manifest.replication_factor = policy.replication_factor as i32;
    let mut targets: Vec<Peer> = Vec::new();
    let mut k: usize = 0;
    while k < chosen.len()
        invariant
            k <= chosen@.len(),
            forall|r: int| 0 <= r < chosen@.len() ==> #[trigger] ids_view.contains(string_views(chosen@)[r]),
            ids_view == node_ids(peers@),
            targets@.len() == k,
            forall|r: int|
                0 <= r < k ==> lookup(peers@, string_views(chosen@)[r]) == Some(#[trigger] targets@[r]),
        decreases chosen@.len() - k,
    {
        assert(string_views(chosen@)[k as int] == chosen@[k as int]@);
        match find_peer(peers, &chosen[k]) {
            Some(j) => {
                proof {
                    crate::registry::lemma_position_of(peers@, chosen@[k as int]@);
                }
                targets.push(peers[j].duplicate());
            },
            None => {
                proof {
                    assert(ids_view.contains(chosen@[k as int]@));
                    let j = choose|j: int| 0 <= j < ids_view.len() && ids_view[j] == chosen@[k as int]@;
                    assert(peers@[j].node_id@ == chosen@[k as int]@);
                }
            },
        }
        k = k + 1;
    }
    targets
}

/// A chunk a peer sent back is kept only when it is the chunk asked for:
/// its content address must be `hash`.
pub fn accept_fetched_chunk(hash: &str, response: Option<Vec<u8>>) -> (kept: Option<Vec<u8>>)
    ensures
        kept == match response {
            Some(data) => if content_address(data@) == hash@ {
                Some(data)
            } else {
                None
            },
            None => None,
        },
{
    match response {
        Some(data) => {
            if verify_chunk(hash, data.as_slice()) {
                Some(data)
            } else {
                None
            }
        },
        None => None,
    }
}

} // verus!

verus! {

/// What to do next when pushing a file to its target peers.
pub enum PushAction {
    /// Ask `peer_url` whether it holds the chunk `hash`.
    CheckChunk { peer_url: String, hash: String },
    /// Send the chunk `hash` to `peer_url`.
    SendChunk { peer_url: String, hash: String },
    /// Send the manifest to `peer_url`.
    SendManifest { peer_url: String },
    /// Every target has been served.
    Finished,
}

/// Where a push stands for the current peer.
#[derive(Debug, Clone, Copy)]
pub enum PushPhase {
    Check,
    Send,
    Manifest,
}

/// A push of one file to its target peers: for each peer in turn, each chunk
/// in turn is checked and sent unless the peer holds it, then the manifest.
/// A failed check counts as "not held"; a failed send is passed over.
pub struct PushRun {
    peer_urls: Vec<String>,
    hashes: Vec<String>,
    peer: usize,
    chunk: usize,
    phase: PushPhase,
}

/// The position of a push.
pub struct PushState {
    pub peer: int,
    pub chunk: int,
    pub phase: PushPhase,
}

/// The position at which a peer's turn starts.
pub open spec fn start_of_peer(peer: int, chunks: int) -> PushState {
    PushState {
        peer,
        chunk: 0,
        phase: if chunks > 0 {
            PushPhase::Check
        } else {
            PushPhase::Manifest
        },
    }
}

/// The position after the current chunk is done with.
pub open spec fn after_chunk(s: PushState, chunks: int) -> PushState {
    if s.chunk + 1 < chunks {
        PushState { peer: s.peer, chunk: s.chunk + 1, phase: PushPhase::Check }
    } else {
        PushState { peer: s.peer, chunk: chunks, phase: PushPhase::Manifest }
    }
}

/// The actions left for the current peer at position `s`.
pub open spec fn steps_left_for_peer(s: PushState, chunks: int) -> int {
    match s.phase {
        PushPhase::Check => 2 * (chunks - s.chunk) + 1,
        PushPhase::Send => 2 * (chunks - s.chunk),
        PushPhase::Manifest => 1,
    }
}

/// An upper bound on the actions left before a push to `peers` targets of a
/// file of `chunks` chunks finishes: at most a check and a send per chunk
/// and one manifest per peer.
pub open spec fn steps_left(peers: int, chunks: int, s: PushState) -> int {
    if s.peer >= peers {
        0
    } else {
        (peers - s.peer - 1) * (2 * chunks + 1) + steps_left_for_peer(s, chunks)
    }
}

proof fn lemma_next_peer_fewer_steps(peers: int, chunks: int, p: int)
    requires
        0 <= p < peers,
        chunks >= 0,
    ensures
        steps_left(peers, chunks, start_of_peer(p + 1, chunks)) < (peers - p - 1) * (2 * chunks + 1)
            + 1,
{
    if p + 1 < peers {
        assert((peers - p - 1) * (2 * chunks + 1) == (peers - p - 2) * (2 * chunks + 1) + (2 * chunks
            + 1)) by (nonlinear_arith);
    }
}

impl PushRun {
    /// The actions left, at most, before this push finishes.
    pub open spec fn remaining(&self) -> int {
        steps_left(self.peer_urls().len() as int, self.hashes().len() as int, self.state())
    }

    /// The peers' addresses, in the order they are served.
    pub closed spec fn peer_urls(&self) -> Seq<Seq<char>> {
        string_views(self.peer_urls@)
    }

    /// The hashes of the file's chunks, in manifest order.
    pub closed spec fn hashes(&self) -> Seq<Seq<char>> {
        string_views(self.hashes@)
    }

    /// The current position.
    pub closed spec fn state(&self) -> PushState {
        PushState { peer: self.peer as int, chunk: self.chunk as int, phase: self.phase }
    }

    /// The positions a push can be in.
    pub closed spec fn well_formed(&self) -> bool {
        &&& self.peer <= self.peer_urls@.len()
        &&& self.chunk <= self.hashes@.len()
        &&& self.peer < self.peer_urls@.len() ==> match self.phase {
            PushPhase::Manifest => self.chunk == self.hashes@.len(),
            _ => self.chunk < self.hashes@.len(),
        }
    }

    /// Every target has been served.
    pub open spec fn finished(&self) -> bool {
        self.state().peer >= self.peer_urls().len()
    }

    /// A push of the chunks and manifest of `manifest` to `targets`, in order.
    pub fn new(targets: &Vec<Peer>, manifest: &FileManifest) -> (run: PushRun)
        ensures
            run.well_formed(),
            run.peer_urls() == targets@.map_values(|p: Peer| p.adresses.http@),
            run.hashes().len() == manifest.chunks@.len(),
            forall|i: int| 0 <= i < manifest.chunks@.len() ==> #[trigger] run.hashes()[i] == manifest.chunks@[i].hash@,
            run.state() == start_of_peer(0, manifest.chunks@.len() as int),
    {
        let mut peer_urls: Vec<String> = Vec::new();
        let mut i: usize = 0;
        while i < targets.len()
            invariant
                i <= targets@.len(),
                string_views(peer_urls@) == targets@.map_values(|p: Peer| p.adresses.http@).take(
                    i as int,
                ),
            decreases targets@.len() - i,
        {
            let url = copy_string(&targets[i].adresses.http);
            proof {
                crate::text::lemma_string_views_push(peer_urls@, url);
                assert(targets@.map_values(|p: Peer| p.adresses.http@).take(i as int + 1)
                    == targets@.map_values(|p: Peer| p.adresses.http@).take(i as int).push(url@));
            }
            peer_urls.push(url);
            i = i + 1;
        }
        assert(targets@.map_values(|p: Peer| p.adresses.http@).take(targets@.len() as int)
            == targets@.map_values(|p: Peer| p.adresses.http@));
        let mut hashes: Vec<String> = Vec::new();
        let mut j: usize = 0;
        while j < manifest.chunks.len()
            invariant
                j <= manifest.chunks@.len(),
                hashes@.len() == j,
                forall|l: int| 0 <= l < j ==> (#[trigger] hashes@[l])@ == manifest.chunks@[l].hash@,
            decreases manifest.chunks@.len() - j,
        {
            hashes.push(copy_string(&manifest.chunks[j].hash));
            j = j + 1;
        }
        let phase = if hashes.len() > 0 {
            PushPhase::Check
        } else {
            PushPhase::Manifest
        };
        PushRun { peer_urls, hashes, peer: 0, chunk: 0, phase }
    }

    /// The action that the current position calls for.
    pub fn next_action(&self) -> (action: PushAction)
        requires
            self.well_formed(),
        ensures
            self.finished() ==> action is Finished,
            !self.finished() ==> match self.state().phase {
                PushPhase::Check => action matches PushAction::CheckChunk { peer_url, hash } && peer_url@
                    == self.peer_urls()[self.state().peer] && hash@ == self.hashes()[self.state().chunk],
                PushPhase::Send => action matches PushAction::SendChunk { peer_url, hash } && peer_url@
                    == self.peer_urls()[self.state().peer] && hash@ == self.hashes()[self.state().chunk],
                PushPhase::Manifest => action matches PushAction::SendManifest { peer_url } && peer_url@
                    == self.peer_urls()[self.state().peer],
            },
    {
        if self.peer >= self.peer_urls.len() {
            return PushAction::Finished;
        }
        let peer_url = copy_string(&self.peer_urls[self.peer]);
        match self.phase {
            PushPhase::Check => PushAction::CheckChunk {
                peer_url,
                hash: copy_string(&self.hashes[self.chunk]),
            },
            PushPhase::Send => PushAction::SendChunk {
                peer_url,
                hash: copy_string(&self.hashes[self.chunk]),
            },
            PushPhase::Manifest => PushAction::SendManifest { peer_url },
        }
    }

    /// Takes in the answer to a chunk check (`None` when the check failed): a
    /// chunk the peer holds is passed over, any other is to be sent.
    pub fn record_check(&mut self, held: Option<bool>)
        requires
            old(self).well_formed(),
            !old(self).finished(),
            old(self).state().phase is Check,
        ensures
            final(self).well_formed(),
            final(self).peer_urls() == old(self).peer_urls(),
            final(self).hashes() == old(self).hashes(),
            final(self).remaining() < old(self).remaining(),
            final(self).state() == if held == Some(true) {
                after_chunk(old(self).state(), old(self).hashes().len() as int)
            } else {
                PushState {
                    peer: old(self).state().peer,
                    chunk: old(self).state().chunk,
                    phase: PushPhase::Send,
                }
            },
            held == Some(true) ==> final(self).state().peer == old(self).state().peer
                && final(self).state().chunk == old(self).state().chunk + 1
                && (final(self).state().phase is Manifest) == (old(self).state().chunk + 1
                == old(self).hashes().len()),
    {
        let skip = match held {
            Some(h) => h,
            None => false,
        };
        if skip {
            self.next_chunk();
        } else {
            self.phase = PushPhase::Send;
        }
    }

    /// Takes note that the current chunk was sent, or that sending failed.
    pub fn record_send(&mut self)
        requires
            old(self).well_formed(),
            !old(self).finished(),
            old(self).state().phase is Send,
        ensures
            final(self).well_formed(),
            final(self).peer_urls() == old(self).peer_urls(),
            final(self).hashes() == old(self).hashes(),
            final(self).remaining() < old(self).remaining(),
            final(self).state() == after_chunk(old(self).state(), old(self).hashes().len() as int),
            final(self).state().peer == old(self).state().peer,
            final(self).state().chunk == old(self).state().chunk + 1,
            (final(self).state().phase is Manifest) == (old(self).state().chunk + 1
                == old(self).hashes().len()),
    {
        self.next_chunk();
    }

    /// Takes note that the manifest was sent, or that sending failed, and
    /// turns to the next peer.
    pub fn record_manifest(&mut self)
        requires
            old(self).well_formed(),
            !old(self).finished(),
            old(self).state().phase is Manifest,
        ensures
            final(self).well_formed(),
            final(self).peer_urls() == old(self).peer_urls(),
            final(self).hashes() == old(self).hashes(),
            final(self).remaining() < old(self).remaining(),
            final(self).state() == start_of_peer(old(self).state().peer + 1, old(self).hashes().len() as int),
    {
        proof {
            lemma_next_peer_fewer_steps(
                self.peer_urls().len() as int,
                self.hashes().len() as int,
                self.peer as int,
            );
        }
        let t = self.peer_urls.len();
        assert(self.peer < t);
        self.peer = self.peer + 1;
        self.chunk = 0;
        self.phase = if self.hashes.len() > 0 {
            PushPhase::Check
        } else {
            PushPhase::Manifest
        };
    }

    /// A push is finished exactly when no action is left, and the count of
    /// actions left is never negative; with each outcome recorded it falls,
    /// so every push finishes.
    pub proof fn lemma_remaining(&self)
        requires
            self.well_formed(),
        ensures
            self.remaining() >= 0,
            self.finished() <==> self.remaining() == 0,
    {
        let t = self.peer_urls().len() as int;
        let c = self.hashes().len() as int;
        if self.peer < t {
            assert((t - self.peer - 1) * (2 * c + 1) >= 0) by (nonlinear_arith)
                requires
                    t - self.peer - 1 >= 0,
                    c >= 0,
            ;
        }
    }

    fn next_chunk(&mut self)
        requires
            old(self).well_formed(),
            old(self).peer < old(self).peer_urls@.len(),
            old(self).chunk < old(self).hashes@.len(),
        ensures
            final(self).well_formed(),
            final(self).peer_urls == old(self).peer_urls,
            final(self).hashes == old(self).hashes,
            final(self).state() == after_chunk(old(self).state(), old(self).hashes@.len() as int),
    {
        let n = self.hashes.len();
        if self.chunk + 1 < n {
            self.chunk = self.chunk + 1;
            self.phase = PushPhase::Check;
        } else {
            self.chunk = self.hashes.len();
            self.phase = PushPhase::Manifest;
        }
    }
}

} // verus!

verus! {

/// The next move of a search that asks the peers one at a time, in order,
/// and stops at the first acceptable answer.
pub enum SearchStep<T> {
    /// Ask the peer at this position.
    Ask(usize),
    /// This peer's answer is the result.
    Found(T),
    /// Every peer was asked and none had an acceptable answer.
    Exhausted,
}

/// The first move of a search over `peer_count` peers: ask the first one,
/// or give up at once when there is none.
pub fn first_search_step<T>(peer_count: usize) -> (step: SearchStep<T>)
    ensures
        step == if peer_count > 0 {
            SearchStep::<T>::Ask(0)
        } else {
            SearchStep::<T>::Exhausted
        },
{
    if peer_count > 0 {
        SearchStep::Ask(0)
    } else {
        SearchStep::Exhausted
    }
}

/// Takes in what the peer at `asked` answered, `None` when it had nothing
/// acceptable (no such item, an error, or data that failed its check): an
/// acceptable answer ends the search; otherwise the next peer is asked, and
/// after the last one the search has failed.
pub fn next_search_step<T>(peer_count: usize, asked: usize, answer: Option<T>) -> (step: SearchStep<T>)
    requires
        asked < peer_count,
    ensures
        step == match answer {
            Some(v) => SearchStep::Found(v),
            None => if asked + 1 < peer_count {
                SearchStep::<T>::Ask((asked + 1) as usize)
            } else {
                SearchStep::<T>::Exhausted
            },
        },
{
    match answer {
        Some(v) => SearchStep::Found(v),
        None => {
            if asked + 1 < peer_count {
                SearchStep::Ask(asked + 1)
            } else {
                SearchStep::Exhausted
            }
        },
    }
}

} // verus!

verus! {

/// What a search over the answers `answers[from..]` ends with: the first
/// acceptable answer, or `Exhausted` when there is none.
pub open spec fn search_outcome<T>(answers: Seq<Option<T>>, from: int) -> SearchStep<T>
    decreases answers.len() - from,
{
    if from < 0 || from >= answers.len() {
        SearchStep::Exhausted
    } else {
        match answers[from] {
            Some(v) => SearchStep::Found(v),
            None => search_outcome(answers, from + 1),
        }
    }
}

/// Driving a search step by step ends with the first acceptable answer in
/// peer order: each step either is that outcome or asks the next peer with
/// the outcome unchanged.
pub proof fn lemma_search_step_keeps_outcome<T>(answers: Seq<Option<T>>, asked: int)
    requires
        0 <= asked < answers.len() <= usize::MAX,
    ensures
        ({
            let step = match answers[asked] {
                Some(v) => SearchStep::Found(v),
                None => if asked + 1 < answers.len() {
                    SearchStep::<T>::Ask((asked + 1) as usize)
                } else {
                    SearchStep::<T>::Exhausted
                },
            };
            match step {
                SearchStep::Ask(next) => next == asked + 1 && search_outcome(answers, next as int)
                    == search_outcome(answers, asked),
                _ => step == search_outcome(answers, asked),
            }
        }),
{
    let next = asked + 1;
    assert(search_outcome(answers, asked) == match answers[asked] {
        Some(v) => SearchStep::Found(v),
        None => search_outcome(answers, next),
    });
    if next >= answers.len() {
        assert(search_outcome(answers, next) == SearchStep::<T>::Exhausted);
    } else {
        assert((next as usize) as int == next);
    }
}

} // verus!

verus! {

/// Chunks are taken one after another: when a chunk is done with, the push
/// stays with the same peer and moves to the very next chunk, reaching the
/// manifest only once the last chunk is done. So no chunk of the manifest is
/// passed over for any peer.
pub proof fn lemma_chunks_taken_in_turn(s: PushState, chunks: int)
    requires
        0 <= s.chunk < chunks,
    ensures
        after_chunk(s, chunks).peer == s.peer,
        after_chunk(s, chunks).chunk == s.chunk + 1,
        (after_chunk(s, chunks).phase is Manifest) == (s.chunk + 1 == chunks),
        !(after_chunk(s, chunks).phase is Send),
{
}

/// A peer's turn starts with its first chunk, or with the manifest when the
/// file has no chunks.
pub proof fn lemma_turn_starts_at_first_chunk(peer: int, chunks: int)
    requires
        chunks >= 0,
    ensures
        start_of_peer(peer, chunks).peer == peer,
        start_of_peer(peer, chunks).chunk == 0,
        (start_of_peer(peer, chunks).phase is Manifest) == (chunks == 0),
{
}

} // verus!
