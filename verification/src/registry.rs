//! The peers a node knows, one entry per node id.

use vstd::prelude::*;

use crate::models::Peer;

verus! {

/// `i` is the first position in `peers` of the node `id`.
pub open spec fn is_first_of(peers: Seq<Peer>, id: Seq<char>, i: int) -> bool {
    &&& 0 <= i < peers.len()
    &&& peers[i].node_id@ == id
    &&& forall|j: int| 0 <= j < i ==> (#[trigger] peers[j]).node_id@ != id
}

/// Some entry of `peers` is the node `id`.
pub open spec fn knows(peers: Seq<Peer>, id: Seq<char>) -> bool {
    exists|i: int| 0 <= i < peers.len() && (#[trigger] peers[i]).node_id@ == id
}

/// The first position of the node `id` in `peers`.
pub open spec fn position_of(peers: Seq<Peer>, id: Seq<char>) -> int {
    choose|i: int| is_first_of(peers, id, i)
}

/// The entry for the node `id`, the first one if several share the id.
pub open spec fn lookup(peers: Seq<Peer>, id: Seq<char>) -> Option<Peer> {
    if knows(peers, id) {
        Some(peers[position_of(peers, id)])
    } else {
        None
    }
}

/// `peers` after `peer` is recorded: it replaces the entry of its node, or is
/// added at the end when its node is new.
pub open spec fn with_peer(peers: Seq<Peer>, peer: Peer) -> Seq<Peer> {
    if knows(peers, peer.node_id@) {
        peers.update(position_of(peers, peer.node_id@), peer)
    } else {
        peers.push(peer)
    }
}

/// No two entries share a node id.
pub open spec fn unique_ids(peers: Seq<Peer>) -> bool {
    forall|i: int, j: int|
        0 <= i < j < peers.len() ==> (#[trigger] peers[i]).node_id@ != (#[trigger] peers[j]).node_id@
}

/// When the node is known, its first position exists and is what
/// `position_of` picks.
pub proof fn lemma_position_of(peers: Seq<Peer>, id: Seq<char>)
    requires
        knows(peers, id),
    ensures
        is_first_of(peers, id, position_of(peers, id)),
{
    let i0 = choose|i: int| 0 <= i < peers.len() && (#[trigger] peers[i]).node_id@ == id;
    lemma_first_at_or_before(peers, id, i0);
}

proof fn lemma_first_at_or_before(peers: Seq<Peer>, id: Seq<char>, i0: int)
    requires
        0 <= i0 < peers.len(),
        peers[i0].node_id@ == id,
    ensures
        exists|i: int| is_first_of(peers, id, i),
    decreases i0,
{
    if exists|j: int| 0 <= j < i0 && (#[trigger] peers[j]).node_id@ == id {
        let j = choose|j: int| 0 <= j < i0 && (#[trigger] peers[j]).node_id@ == id;
        lemma_first_at_or_before(peers, id, j);
    } else {
        assert(is_first_of(peers, id, i0));
    }
}

/// The first position of the node `node_id` in `peers`, if it is there.
pub fn find_peer(peers: &Vec<Peer>, node_id: &String) -> (pos: Option<usize>)
    ensures
        match pos {
            Some(i) => is_first_of(peers@, node_id@, i as int) && position_of(peers@, node_id@)
                == i,
            None => !knows(peers@, node_id@),
        },
{
    let mut i: usize = 0;
    while i < peers.len()
        invariant
            i <= peers@.len(),
            forall|j: int| 0 <= j < i ==> (#[trigger] peers@[j]).node_id@ != node_id@,
        decreases peers@.len() - i,
    {
        if peers[i].node_id == *node_id {
            proof {
                assert(is_first_of(peers@, node_id@, i as int));
                lemma_position_of(peers@, node_id@);
                let p = position_of(peers@, node_id@);
                if p < i {
                    assert(peers@[p].node_id@ != node_id@);
                } else if p > i {
                    assert(peers@[i as int].node_id@ != node_id@);
                }
            }
            return Some(i);
        }
        i = i + 1;
    }
    None
}

/// The peers a node has learnt of.
#[derive(Debug)]
pub struct PeerRegistry {
    peers: Vec<Peer>,
}

impl View for PeerRegistry {
    type V = Seq<Peer>;

    closed spec fn view(&self) -> Seq<Peer> {
        self.peers@
    }
}

impl PeerRegistry {
    /// A registry that knows no peer.
    pub fn new() -> (registry: Self)
        ensures
            registry@ == Seq::<Peer>::empty(),
    {
        PeerRegistry { peers: Vec::new() }
    }

    /// The known peers, in the order they were first learnt of.
    pub fn list(&self) -> (peers: Vec<Peer>)
        ensures
            peers@ == self@,
    {
        let mut out: Vec<Peer> = Vec::new();
        let mut i: usize = 0;
        while i < self.peers.len()
            invariant
                i <= self.peers@.len(),
                out@ == self.peers@.take(i as int),
            decreases self.peers@.len() - i,
        {
            out.push(self.peers[i].duplicate());
            i = i + 1;
            assert(out@ == self.peers@.take(i as int));
        }
        assert(self.peers@.take(self.peers@.len() as int) == self.peers@);
        out
    }

    /// Records `peer`: it replaces the entry of its node, or joins the list.
    pub fn upsert(&mut self, peer: Peer)
        ensures
            final(self)@ == with_peer(old(self)@, peer),
    {
        match find_peer(&self.peers, &peer.node_id) {
            Some(i) => {
                self.peers.set(i, peer);
            },
            None => {
                self.peers.push(peer);
            },
        }
    }

    /// The entry of the node `node_id`, if known.
    pub fn get(&self, node_id: &String) -> (peer: Option<Peer>)
        ensures
            peer == lookup(self@, node_id@),
    {
        match find_peer(&self.peers, node_id) {
            Some(i) => Some(self.peers[i].duplicate()),
            None => None,
        }
    }
}

/// What was recorded is what is read back: after `peer` is recorded, the
/// entry of its node is `peer`.
pub proof fn lemma_upsert_then_lookup(peers: Seq<Peer>, peer: Peer)
    ensures
        lookup(with_peer(peers, peer), peer.node_id@) == Some(peer),
{
    let id = peer.node_id@;
    let after = with_peer(peers, peer);
    if knows(peers, id) {
        lemma_position_of(peers, id);
        let p = position_of(peers, id);
        assert(after[p].node_id@ == id);
        assert(knows(after, id));
        lemma_position_of(after, id);
        let q = position_of(after, id);
        if q < p {
            assert(after[q] == peers[q]);
        } else if q > p {
            assert(after[p].node_id@ == id);
        }
    } else {
        assert(after[peers.len() as int] == peer);
        assert(knows(after, id));
        lemma_position_of(after, id);
        let q = position_of(after, id);
        if q < peers.len() {
            assert(after[q] == peers[q]);
        }
    }
}

/// Recording a peer leaves the entries of the other nodes as they were.
pub proof fn lemma_upsert_keeps_others(peers: Seq<Peer>, peer: Peer, id: Seq<char>)
    requires
        id != peer.node_id@,
    ensures
        lookup(with_peer(peers, peer), id) == lookup(peers, id),
{
    let after = with_peer(peers, peer);
    let pid = peer.node_id@;
    assert forall|i: int| 0 <= i < after.len() && (#[trigger] after[i]).node_id@ == id implies i
        < peers.len() && after[i] == peers[i] by {
        if knows(peers, pid) {
            lemma_position_of(peers, pid);
        }
    }
    assert forall|i: int| 0 <= i < peers.len() && (#[trigger] peers[i]).node_id@ == id implies after[i]
        == peers[i] by {
        if knows(peers, pid) {
            lemma_position_of(peers, pid);
        }
    }
    if knows(peers, id) {
        lemma_position_of(peers, id);
        let p = position_of(peers, id);
        if knows(peers, pid) {
            lemma_position_of(peers, pid);
        }
        assert(after[p] == peers[p]);
        assert(after.len() >= peers.len());
        assert(after[p].node_id@ == id);
        assert(knows(after, id));
        lemma_position_of(after, id);
        let q = position_of(after, id);
        assert(after[q] == peers[q]);
        if q < p {
        } else if q > p {
            assert(after[p] == peers[p]);
        }
    } else {
        if knows(after, id) {
            let i = choose|i: int| 0 <= i < after.len() && (#[trigger] after[i]).node_id@ == id;
            assert(peers[i].node_id@ == id);
        }
    }
}

/// Recording keeps node ids unique.
pub proof fn lemma_upsert_keeps_ids_unique(peers: Seq<Peer>, peer: Peer)
    requires
        unique_ids(peers),
    ensures
        unique_ids(with_peer(peers, peer)),
{
    let after = with_peer(peers, peer);
    let pid = peer.node_id@;
    if knows(peers, pid) {
        lemma_position_of(peers, pid);
        let p = position_of(peers, pid);
        assert forall|i: int, j: int| 0 <= i < j < after.len() implies (#[trigger] after[i]).node_id@
            != (#[trigger] after[j]).node_id@ by {
            if i == p {
                assert(peers[j].node_id@ != peers[p].node_id@);
            } else if j == p {
                assert(peers[i].node_id@ != peers[p].node_id@);
            } else {
                assert(peers[i].node_id@ != peers[j].node_id@);
            }
        }
    } else {
        assert forall|i: int, j: int| 0 <= i < j < after.len() implies (#[trigger] after[i]).node_id@
            != (#[trigger] after[j]).node_id@ by {
            if j == peers.len() {
                assert(peers[i].node_id@ != pid);
            } else {
                assert(peers[i].node_id@ != peers[j].node_id@);
            }
        }
    }
}

/// Recording the same peer twice is recording it once.
pub proof fn lemma_upsert_idempotent(peers: Seq<Peer>, peer: Peer)
    ensures
        with_peer(with_peer(peers, peer), peer) == with_peer(peers, peer),
{
    let id = peer.node_id@;
    let once = with_peer(peers, peer);
    lemma_upsert_then_lookup(peers, peer);
    lemma_position_of(once, id);
    let q = position_of(once, id);
    assert(once[q] == peer);
    assert(once.update(q, peer) == once);
}

} // verus!
