//! Choosing the peers that hold a file's replicas: each peer gets a score,
//! the BLAKE3 digest of the file id and its own id, and the peers with the
//! lowest scores are chosen.

use vstd::prelude::*;
use vstd::utf8::encode_utf8;

use crate::hashing::{blake3_digest, blake3_hash};
use crate::order::{
    bytes_lt, lemma_bytes_lt_asymmetric, lemma_bytes_lt_irreflexive, lemma_bytes_lt_total,
    lemma_bytes_lt_transitive, slice_lt,
};
use crate::policy::{remote_count, ReplicationPolicy};

verus! {

/// The text whose digest scores `peer` for `file_id`.
pub open spec fn score_input(file_id: Seq<char>, peer: Seq<char>) -> Seq<char> {
    "file:"@ + file_id + "|peer:"@ + peer
}

/// The placement score of `peer` for `file_id`.
pub open spec fn placement_score_of(file_id: Seq<char>, peer: Seq<char>) -> Seq<u8> {
    blake3_hash(encode_utf8(score_input(file_id, peer)))
}

/// The scores of all peers for `file_id`, in peer order.
pub open spec fn scores_for(file_id: Seq<char>, peers: Seq<Seq<char>>) -> Seq<Seq<u8>> {
    peers.map_values(|p: Seq<char>| placement_score_of(file_id, p))
}

/// Peer `i` ranks before peer `j`: a lower score, or the same score and an
/// earlier place in the list (the order of a stable sort by score).
pub open spec fn ranks_before(scores: Seq<Seq<u8>>, i: int, j: int) -> bool {
    bytes_lt(scores[i], scores[j]) || (scores[i] == scores[j] && i < j)
}

/// `order` lists the first `k` peers by rank, best first: each index in
/// range, each ranking before the next, and every peer left out ranking
/// after every peer listed.
pub open spec fn is_placement_order(scores: Seq<Seq<u8>>, order: Seq<int>, k: int) -> bool {
    &&& order.len() == k
    &&& forall|a: int| 0 <= a < k ==> 0 <= #[trigger] order[a] < scores.len()
    &&& forall|a: int, b: int|
        0 <= a < b < k ==> ranks_before(scores, #[trigger] order[a], #[trigger] order[b])
    &&& forall|a: int, j: int|
        0 <= a < k && 0 <= j < scores.len() && !order.contains(j) ==> #[trigger] ranks_before(
            scores,
            order[a],
            j,
        )
}

/// The number of peers that hold replicas: what the policy asks for, or all
/// the peers there are when there are fewer.
pub open spec fn target_count(remote: int, n: int) -> int {
    if remote < n {
        remote
    } else {
        n
    }
}

/// The first `k` peers by rank.
pub open spec fn placement_order(scores: Seq<Seq<u8>>, k: int) -> Seq<int> {
    choose|order: Seq<int>| is_placement_order(scores, order, k)
}

/// The peers that receive replicas of `file_id` under `policy`: the
/// `remote_replica_count` lowest-scored peers, lowest first.
pub open spec fn placement_targets(file_id: Seq<char>, peers: Seq<Seq<char>>, factor: int) -> Seq<
    Seq<char>,
> {
    let scores = scores_for(file_id, peers);
    placement_order(scores, target_count(remote_count(factor), peers.len() as int)).map_values(
        |i: int| peers[i],
    )
}

proof fn lemma_ranks_before_irreflexive(scores: Seq<Seq<u8>>, i: int)
    ensures
        !ranks_before(scores, i, i),
{
    lemma_bytes_lt_irreflexive(scores[i]);
}

proof fn lemma_ranks_before_transitive(scores: Seq<Seq<u8>>, i: int, j: int, l: int)
    requires
        ranks_before(scores, i, j),
        ranks_before(scores, j, l),
    ensures
        ranks_before(scores, i, l),
{
    if bytes_lt(scores[i], scores[j]) && bytes_lt(scores[j], scores[l]) {
        lemma_bytes_lt_transitive(scores[i], scores[j], scores[l]);
    }
}

proof fn lemma_ranks_before_total(scores: Seq<Seq<u8>>, i: int, j: int)
    requires
        i != j,
    ensures
        ranks_before(scores, i, j) || ranks_before(scores, j, i),
{
    lemma_bytes_lt_total(scores[i], scores[j]);
}

proof fn lemma_ranks_before_asymmetric(scores: Seq<Seq<u8>>, i: int, j: int)
    requires
        ranks_before(scores, i, j),
    ensures
        !ranks_before(scores, j, i),
{
    if ranks_before(scores, j, i) {
        lemma_ranks_before_transitive(scores, i, j, i);
        lemma_ranks_before_irreflexive(scores, i);
    }
}

/// The first `k` peers by rank are determined by the scores: two lists that
/// both are the first `k` by rank are the same list.
pub proof fn lemma_placement_order_unique(scores: Seq<Seq<u8>>, p: Seq<int>, q: Seq<int>, k: int)
    requires
        is_placement_order(scores, p, k),
        is_placement_order(scores, q, k),
    ensures
        p == q,
{
    if p != q {
        assert(exists|r: int| 0 <= r < k && p[r] != q[r]) by {
            if forall|r: int| 0 <= r < k ==> p[r] == q[r] {
                assert(p == q);
            }
        }
        assert(exists|r: int| 0 <= r < k && p[r] != q[r] && forall|s: int| 0 <= s < r ==> p[s] == q[s]) by {
            let r0 = choose|r: int| 0 <= r < k && p[r] != q[r];
            lemma_first_difference(p, q, r0);
        }
        let r = choose|r: int| 0 <= r < k && p[r] != q[r] && forall|s: int|
            0 <= s < r ==> p[s] == q[s];
        let i = p[r];
        let j = q[r];
        // At the first difference, p puts i before j and q puts j before i.
        assert(ranks_before(scores, i, j)) by {
            if p.contains(j) {
                let s = choose|s: int| 0 <= s < p.len() && p[s] == j;
                if s < r {
                    assert(q[s] == j);
                    lemma_ranks_before_irreflexive(scores, j);
                }
            }
        }
        assert(ranks_before(scores, j, i)) by {
            if q.contains(i) {
                let s = choose|s: int| 0 <= s < q.len() && q[s] == i;
                if s < r {
                    assert(p[s] == i);
                    lemma_ranks_before_irreflexive(scores, i);
                }
            }
        }
        lemma_ranks_before_asymmetric(scores, i, j);
    }
}

proof fn lemma_first_difference(p: Seq<int>, q: Seq<int>, r0: int)
    requires
        0 <= r0 < p.len(),
        p.len() == q.len(),
        p[r0] != q[r0],
    ensures
        exists|r: int| 0 <= r < p.len() && p[r] != q[r] && forall|s: int| 0 <= s < r ==> p[s] == q[s],
    decreases r0,
{
    if exists|s: int| 0 <= s < r0 && p[s] != q[s] {
        let s = choose|s: int| 0 <= s < r0 && p[s] != q[s];
        lemma_first_difference(p, q, s);
    } else {
        assert(forall|s: int| 0 <= s < r0 ==> p[s] == q[s]);
    }
}

/// The placement score of `peer` for `file_id`.
fn placement_score(file_id: &str, peer: &str) -> (score: [u8; 32])
    ensures
        score@ == placement_score_of(file_id@, peer@),
{
    let mut input = String::from_str("file:");
    input.append(file_id);
    input.append("|peer:");
    input.append(peer);
    blake3_digest(input.as_str().as_bytes())
}

/// Decides `ranks_before` on computed scores.
fn ranks_before_exec(scores: &Vec<[u8; 32]>, i: usize, j: usize) -> (r: bool)
    requires
        i < scores@.len(),
        j < scores@.len(),
    ensures
        r == ranks_before(scores@.map_values(|a: [u8; 32]| a@), i as int, j as int),
{
    let ghost views = scores@.map_values(|a: [u8; 32]| a@);
    let a = scores[i].as_slice();
    let b = scores[j].as_slice();
    assert(a@ == views[i as int]);
    assert(b@ == views[j as int]);
    if slice_lt(a, b) {
        true
    } else if slice_lt(b, a) {
        false
    } else {
        proof {
            lemma_bytes_lt_total(a@, b@);
        }
        i < j
    }
}

/// The first `k` peers by rank, best first, as `is_placement_order` states.
pub fn first_by_rank(scores: &Vec<[u8; 32]>, k: usize) -> (order: Vec<usize>)
    requires
        k <= scores@.len(),
    ensures
        is_placement_order(
            scores@.map_values(|a: [u8; 32]| a@),
            order@.map_values(|i: usize| i as int),
            k as int,
        ),
{
    let ghost views = scores@.map_values(|a: [u8; 32]| a@);
    let n = scores.len();
    let mut order: Vec<usize> = Vec::new();
    let mut r: usize = 0;
    while r < k
        invariant
            n == scores@.len(),
            views == scores@.map_values(|a: [u8; 32]| a@),
            k <= n,
            r <= k,
            order@.len() == r,
            is_placement_order(views, order@.map_values(|i: usize| i as int), r as int),
        decreases k - r,
    {
        let ghost ord = order@.map_values(|i: usize| i as int);
        // The peers not yet listed are exactly those ranking after the last one listed.
        let mut best: usize = n;
        let mut j: usize = 0;
        while j < n
            invariant
                n == scores@.len(),
                views == scores@.map_values(|a: [u8; 32]| a@),
                r < k <= n,
                order@.len() == r,
                ord == order@.map_values(|i: usize| i as int),
                is_placement_order(views, ord, r as int),
                j <= n,
                best == n || (best < j && !ord.contains(best as int)),
                best < n ==> forall|l: int|
                    0 <= l < j && !ord.contains(l) && l != best ==> ranks_before(views, best as int, l),
                best == n ==> forall|l: int| 0 <= l < j ==> ord.contains(l),
            decreases n - j,
        {
            proof {
                if r > 0 {
                    assert(ord[r - 1] == order@[r - 1] as int);
                }
            }
            let candidate = if r == 0 {
                true
            } else {
                ranks_before_exec(scores, order[r - 1], j)
            };
            proof {
                if r > 0 {
                    let last = ord[r - 1];
                    if ord.contains(j as int) {
                        let s = choose|s: int| 0 <= s < r && ord[s] == j as int;
                        if s < r - 1 {
                            lemma_ranks_before_asymmetric(views, ord[s], last);
                        } else {
                            lemma_ranks_before_irreflexive(views, last);
                        }
                        assert(!candidate);
                    } else {
                        assert(candidate);
                    }
                } else {
                    assert(!ord.contains(j as int));
                }
            }
            if candidate {
                if best == n {
                    best = j;
                } else if ranks_before_exec(scores, j, best) {
                    proof {
                        assert forall|l: int|
                            0 <= l < j + 1 && !ord.contains(l) && l != j implies ranks_before(
                                views,
                                j as int,
                                l,
                            ) by {
                            if l != best {
                                lemma_ranks_before_transitive(views, j as int, best as int, l);
                            }
                        }
                    }
                    best = j;
                } else {
                    proof {
                        lemma_ranks_before_total(views, j as int, best as int);
                    }
                }
            }
            j = j + 1;
        }
        proof {
            assert(best < n) by {
                if best == n {
                    assert forall|a: int, b: int| 0 <= a < b < ord.len() implies ord[a] != ord[b] by {
                        lemma_ranks_before_irreflexive(views, ord[a]);
                    }
                    lemma_listed_indices_bound(ord, n as int);
                }
            }
        }
        let ghost old_ord = ord;
        order.push(best);
        proof {
            let new_ord = order@.map_values(|i: usize| i as int);
            assert(new_ord == old_ord.push(best as int));
            assert forall|a: int, b: int|
                0 <= a < b < r + 1 implies ranks_before(views, #[trigger] new_ord[a], #[trigger] new_ord[b]) by {
                if b < r {
                    assert(new_ord[a] == old_ord[a] && new_ord[b] == old_ord[b]);
                } else {
                    assert(new_ord[a] == old_ord[a]);
                }
            }
            assert forall|a: int, l: int|
                0 <= a < r + 1 && 0 <= l < n && !new_ord.contains(l) implies #[trigger] ranks_before(
                views,
                new_ord[a],
                l,
            ) by {
                assert(!old_ord.contains(l)) by {
                    if old_ord.contains(l) {
                        let s = choose|s: int| 0 <= s < r && old_ord[s] == l;
                        assert(new_ord[s] == l);
                    }
                }
                assert(l != best) by {
                    assert(new_ord[r as int] == best);
                }
                if a < r {
                    assert(new_ord[a] == old_ord[a]);
                }
            }
        }
        r = r + 1;
    }
    order
}

/// `r` distinct indices below `n` in `ord`, with `r < n`, leave one out.
proof fn lemma_listed_indices_bound(ord: Seq<int>, n: int)
    requires
        ord.len() < n,
        forall|a: int, b: int| 0 <= a < b < ord.len() ==> ord[a] != ord[b],
    ensures
        exists|l: int| 0 <= l < n && !ord.contains(l),
{
    if forall|l: int| 0 <= l < n ==> ord.contains(l) {
        let range = vstd::set_lib::set_int_range(0, n);
        vstd::set_lib::lemma_int_range(0, n);
        ord.lemma_cardinality_of_set();
        assert(range.subset_of(ord.to_set()));
        vstd::set_lib::lemma_len_subset(range, ord.to_set());
    }
}

} // verus!

verus! {

/// A rule that picks the peers to hold a file's replicas.
pub trait ReplicaPlacement {
    fn target_peers_for_file(
        &self,
        file_id: &str,
        peers: &[String],
        policy: &ReplicationPolicy,
    ) -> Vec<String>;
}

/// Placement by BLAKE3 scores: the peers whose digest of
/// `file:{file_id}|peer:{peer}` is lowest receive the replicas.
#[derive(Debug, Clone)]
pub struct Blake3ReplicaPlacement;

impl ReplicaPlacement for Blake3ReplicaPlacement {
    /// The `remote_replica_count` lowest-scored peers, lowest score first and,
    /// among equal scores, in the order of `peers`.
    fn target_peers_for_file(
        &self,
        file_id: &str,
        peers: &[String],
        policy: &ReplicationPolicy,
    ) -> (targets: Vec<String>)
        ensures
            crate::text::string_views(targets@) == placement_targets(
                file_id@,
                crate::text::string_views(peers@),
                policy.replication_factor as int,
            ),
    {
        let ghost peer_views = crate::text::string_views(peers@);
        let remote = policy.remote_replica_count();
        let n = peers.len();
        let mut scores: Vec<[u8; 32]> = Vec::new();
        let mut i: usize = 0;
        while i < n
            invariant
                n == peers@.len(),
                peer_views == crate::text::string_views(peers@),
                i <= n,
                scores@.map_values(|a: [u8; 32]| a@) == scores_for(file_id@, peer_views).take(
                    i as int,
                ),
            decreases n - i,
        {
            let score = placement_score(file_id, peers[i].as_str());
            let ghost before = scores@;
            scores.push(score);
            proof {
                before.lemma_push_map_commute(|a: [u8; 32]| a@, score);
                assert(scores_for(file_id@, peer_views).take(i as int + 1) == scores_for(
                    file_id@,
                    peer_views,
                ).take(i as int).push(score@));
            }
            i = i + 1;
        }
        let ghost views = scores@.map_values(|a: [u8; 32]| a@);
        assert(views == scores_for(file_id@, peer_views)) by {
            assert(scores_for(file_id@, peer_views).take(n as int) == scores_for(file_id@, peer_views));
        }
        let k = if remote < n {
            remote
        } else {
            n
        };
        let order = first_by_rank(&scores, k);
        let ghost ord = order@.map_values(|i: usize| i as int);
        proof {
            lemma_placement_order_unique(views, ord, placement_order(views, k as int), k as int);
        }
        let mut targets: Vec<String> = Vec::new();
        let mut r: usize = 0;
        while r < k
            invariant
                k <= n == peers@.len(),
                peer_views == crate::text::string_views(peers@),
                order@.len() == k,
                ord == order@.map_values(|i: usize| i as int),
                is_placement_order(views, ord, k as int),
                views.len() == n,
                r <= k,
                crate::text::string_views(targets@) == ord.map_values(|i: int| peer_views[i]).take(
                    r as int,
                ),
            decreases k - r,
        {
            assert(ord[r as int] == order@[r as int] as int);
            let t = crate::models::copy_string(&peers[order[r]]);
            let ghost before = targets@;
            targets.push(t);
            proof {
                before.lemma_push_map_commute(|s: String| s@, t);
                assert(ord.map_values(|i: int| peer_views[i]).take(r as int + 1) == ord.map_values(
                    |i: int| peer_views[i],
                ).take(r as int).push(t@));
            }
            r = r + 1;
        }
        assert(ord.map_values(|i: int| peer_views[i]).take(k as int) == ord.map_values(
            |i: int| peer_views[i],
        ));
        targets
    }
}

} // verus!

verus! {

/// The replicas go to as many peers as the policy asks for, or to all peers
/// when there are fewer; each is a peer of the list, at its own place in it.
pub proof fn lemma_targets_are_distinct_peers(file_id: Seq<char>, peers: Seq<Seq<char>>, factor: int)
    ensures
        placement_targets(file_id, peers, factor).len() == target_count(
            remote_count(factor),
            peers.len() as int,
        ),
        target_count(remote_count(factor), peers.len() as int) <= peers.len(),
        forall|r: int|
            0 <= r < placement_targets(file_id, peers, factor).len() ==> #[trigger] peers.contains(
                placement_targets(file_id, peers, factor)[r],
            ),
        forall|a: int, b: int|
            0 <= a < b < placement_targets(file_id, peers, factor).len() ==> placement_order(
                scores_for(file_id, peers),
                target_count(remote_count(factor), peers.len() as int),
            )[a] != placement_order(
                scores_for(file_id, peers),
                target_count(remote_count(factor), peers.len() as int),
            )[b],
{
    let scores = scores_for(file_id, peers);
    let k = target_count(remote_count(factor), peers.len() as int);
    lemma_placement_order_exists(scores, k);
    let order = placement_order(scores, k);
    let targets = placement_targets(file_id, peers, factor);
    assert forall|r: int| 0 <= r < targets.len() implies #[trigger] peers.contains(targets[r]) by {
        assert(targets[r] == peers[order[r]]);
    }
    assert forall|a: int, b: int| 0 <= a < b < targets.len() implies order[a] != order[b] by {
        lemma_ranks_before_irreflexive(scores, order[a]);
    }
}

} // verus!

verus! {

/// `j` is a peer not yet listed in `ord` and ranks before every other such peer.
pub open spec fn is_next_by_rank(scores: Seq<Seq<u8>>, ord: Seq<int>, j: int, m: int) -> bool {
    &&& 0 <= j < m
    &&& !ord.contains(j)
    &&& forall|l: int|
        0 <= l < m && !ord.contains(l) && l != j ==> #[trigger] ranks_before(scores, j, l)
}

proof fn lemma_next_by_rank_below(scores: Seq<Seq<u8>>, ord: Seq<int>, m: int)
    requires
        0 <= m,
    ensures
        (exists|c: int| 0 <= c < m && !ord.contains(c)) ==> exists|j: int|
            #[trigger] is_next_by_rank(scores, ord, j, m),
    decreases m,
{
    if m > 0 {
        lemma_next_by_rank_below(scores, ord, m - 1);
        let last = m - 1;
        if exists|c: int| 0 <= c < m && !ord.contains(c) {
            if ord.contains(last) {
                let c = choose|c: int| 0 <= c < m && !ord.contains(c);
                assert(c < m - 1);
                let j = choose|j: int| #[trigger] is_next_by_rank(scores, ord, j, m - 1);
                assert(is_next_by_rank(scores, ord, j, m));
            } else if exists|c: int| 0 <= c < m - 1 && !ord.contains(c) {
                let j = choose|j: int| #[trigger] is_next_by_rank(scores, ord, j, m - 1);
                lemma_ranks_before_total(scores, j, last);
                if ranks_before(scores, j, last) {
                    assert(is_next_by_rank(scores, ord, j, m));
                } else {
                    assert forall|l: int|
                        0 <= l < m && !ord.contains(l) && l != last implies #[trigger] ranks_before(
                        scores,
                        last,
                        l,
                    ) by {
                        if l != j {
                            lemma_ranks_before_transitive(scores, last, j, l);
                        }
                    }
                    assert(is_next_by_rank(scores, ord, last, m));
                }
            } else {
                assert(is_next_by_rank(scores, ord, last, m));
            }
        }
    }
}

/// For any scores and any `k` up to the number of peers, the first `k` peers
/// by rank exist.
pub proof fn lemma_placement_order_exists(scores: Seq<Seq<u8>>, k: int)
    requires
        0 <= k <= scores.len(),
    ensures
        is_placement_order(scores, placement_order(scores, k), k),
    decreases k,
{
    if k == 0 {
        assert(is_placement_order(scores, Seq::<int>::empty(), 0));
    } else {
        lemma_placement_order_exists(scores, k - 1);
        let ord = placement_order(scores, k - 1);
        let n = scores.len() as int;
        assert forall|a: int, b: int| 0 <= a < b < ord.len() implies ord[a] != ord[b] by {
            lemma_ranks_before_irreflexive(scores, ord[a]);
        }
        lemma_listed_indices_bound(ord, n);
        lemma_next_by_rank_below(scores, ord, n);
        let j = choose|j: int| #[trigger] is_next_by_rank(scores, ord, j, n);
        let next = ord.push(j);
        assert forall|a: int, b: int|
            0 <= a < b < k implies ranks_before(scores, #[trigger] next[a], #[trigger] next[b]) by {
            if b < k - 1 {
                assert(next[a] == ord[a] && next[b] == ord[b]);
            } else {
                assert(next[a] == ord[a]);
                assert(next[b] == j);
            }
        }
        assert forall|a: int, l: int|
            0 <= a < k && 0 <= l < n && !next.contains(l) implies #[trigger] ranks_before(
            scores,
            next[a],
            l,
        ) by {
            assert(!ord.contains(l)) by {
                if ord.contains(l) {
                    let s = choose|s: int| 0 <= s < ord.len() && ord[s] == l;
                    assert(next[s] == l);
                }
            }
            assert(l != j) by {
                assert(next[k - 1] == j);
            }
            if a < k - 1 {
                assert(next[a] == ord[a]);
            } else {
                assert(next[a] == j);
            }
        }
        assert(is_placement_order(scores, next, k));
    }
}

/// The strings at the positions `perm` lists, in that order.
pub open spec fn pick(p: Seq<Seq<char>>, perm: Seq<int>) -> Seq<Seq<char>> {
    perm.map_values(|i: int| p[i])
}

/// `perm` lists every position below `n` exactly once.
pub open spec fn is_index_permutation(perm: Seq<int>, n: int) -> bool {
    &&& perm.len() == n
    &&& perm.no_duplicates()
    &&& forall|j: int| 0 <= j < n ==> 0 <= #[trigger] perm[j] < n
}

/// Picking every position once, in any order, keeps the multiset of strings.
proof fn lemma_pick_permutation_multiset(p: Seq<Seq<char>>, perm: Seq<int>)
    requires
        is_index_permutation(perm, p.len() as int),
    ensures
        pick(p, perm).to_multiset() == p.to_multiset(),
    decreases p.len(),
{
    broadcast use vstd::multiset::group_multiset_axioms;

    let n = p.len() as int;
    if n == 0 {
        assert(pick(p, perm) == Seq::<Seq<char>>::empty());
        assert(p == Seq::<Seq<char>>::empty());
    } else {
        let range = vstd::set_lib::set_int_range(0, n);
        vstd::set_lib::lemma_int_range(0, n);
        perm.unique_seq_to_set();
        assert(perm.to_set().subset_of(range));
        vstd::set_lib::lemma_subset_equality(perm.to_set(), range);
        assert(range.contains(n - 1));
        assert(perm.contains(n - 1));
        let j = choose|j: int| 0 <= j < perm.len() && perm[j] == n - 1;
        let rest = perm.remove(j);
        let init = p.drop_last();
        assert forall|a: int, b: int| 0 <= a < rest.len() && 0 <= b < rest.len() && a != b implies rest[a]
            != rest[b] by {
            let fa = if a < j { a } else { a + 1 };
            let fb = if b < j { b } else { b + 1 };
            assert(rest[a] == perm[fa] && rest[b] == perm[fb]);
        }
        assert forall|a: int| 0 <= a < n - 1 implies 0 <= #[trigger] rest[a] < n - 1 by {
            let fa = if a < j { a } else { a + 1 };
            assert(rest[a] == perm[fa]);
            assert(fa != j);
        }
        lemma_pick_permutation_multiset(init, rest);
        let x = pick(p, perm);
        assert(x.remove(j) == pick(init, rest)) by {
            assert forall|a: int| 0 <= a < n - 1 implies x.remove(j)[a] == pick(init, rest)[a] by {
                let fa = if a < j { a } else { a + 1 };
                assert(rest[a] == perm[fa]);
            }
        }
        vstd::seq_lib::to_multiset_remove(x, j);
        assert(x[j] == p.last());
        assert(init.push(p.last()) == p);
        vstd::seq_lib::to_multiset_build(init, p.last());
        vstd::seq_lib::to_multiset_contains(x, p.last());
        assert(x.contains(p.last())) by {
            assert(x[j] == p.last());
        }
        assert(x.to_multiset() =~= p.to_multiset());
    }
}

/// `t` is in the order of placement scores (not strictly).
pub open spec fn in_score_order(file_id: Seq<char>, t: Seq<Seq<char>>) -> bool {
    forall|a: int, b: int|
        0 <= a < b < t.len() ==> crate::order::bytes_le(
            placement_score_of(file_id, #[trigger] t[a]),
            placement_score_of(file_id, #[trigger] t[b]),
        )
}

/// Distinct strings of `t` have distinct placement scores.
pub open spec fn scores_separate(file_id: Seq<char>, t: Seq<Seq<char>>) -> bool {
    forall|a: int, b: int|
        0 <= a < t.len() && 0 <= b < t.len() && t[a] != t[b] ==> #[trigger] placement_score_of(
            file_id,
            t[a],
        ) != #[trigger] placement_score_of(file_id, t[b])
}

/// Two lists in score order with the same strings, counted with repeats, are
/// the same list when distinct strings have distinct scores.
proof fn lemma_score_order_unique(file_id: Seq<char>, a: Seq<Seq<char>>, b: Seq<Seq<char>>)
    requires
        in_score_order(file_id, a),
        in_score_order(file_id, b),
        a.to_multiset() == b.to_multiset(),
        scores_separate(file_id, a),
    ensures
        a == b,
    decreases a.len(),
{
    broadcast use vstd::multiset::group_multiset_axioms;

    vstd::seq_lib::to_multiset_len(a);
    vstd::seq_lib::to_multiset_len(b);
    if a.len() > 0 {
        let x = a[0];
        let y = b[0];
        vstd::seq_lib::to_multiset_contains(a, y);
        vstd::seq_lib::to_multiset_contains(b, y);
        vstd::seq_lib::to_multiset_contains(a, x);
        vstd::seq_lib::to_multiset_contains(b, x);
        assert(b.contains(y));
        assert(a.contains(x));
        let iy = choose|i: int| 0 <= i < a.len() && a[i] == y;
        let ix = choose|i: int| 0 <= i < b.len() && b[i] == x;
        let sx = placement_score_of(file_id, x);
        let sy = placement_score_of(file_id, y);
        assert(crate::order::bytes_le(sx, sy)) by {
            if iy > 0 {
                assert(crate::order::bytes_le(placement_score_of(file_id, a[0]), placement_score_of(file_id, a[iy])));
            } else {
                lemma_bytes_lt_irreflexive(sx);
            }
        }
        assert(crate::order::bytes_le(sy, sx)) by {
            if ix > 0 {
                assert(crate::order::bytes_le(placement_score_of(file_id, b[0]), placement_score_of(file_id, b[ix])));
            } else {
                lemma_bytes_lt_irreflexive(sy);
            }
        }
        lemma_bytes_lt_total(sx, sy);
        assert(x == y) by {
            if x != y {
                assert(placement_score_of(file_id, a[0]) != placement_score_of(file_id, a[iy]));
            }
        }
        vstd::seq_lib::to_multiset_remove(a, 0);
        vstd::seq_lib::to_multiset_remove(b, 0);
        assert(a.remove(0) == a.drop_first());
        assert(b.remove(0) == b.drop_first());
        let a1 = a.drop_first();
        let b1 = b.drop_first();
        assert forall|i: int, j: int| 0 <= i < j < a1.len() implies crate::order::bytes_le(
            placement_score_of(file_id, #[trigger] a1[i]),
            placement_score_of(file_id, #[trigger] a1[j]),
        ) by {
            assert(a1[i] == a[i + 1] && a1[j] == a[j + 1]);
        }
        assert forall|i: int, j: int| 0 <= i < j < b1.len() implies crate::order::bytes_le(
            placement_score_of(file_id, #[trigger] b1[i]),
            placement_score_of(file_id, #[trigger] b1[j]),
        ) by {
            assert(b1[i] == b[i + 1] && b1[j] == b[j + 1]);
        }
        assert forall|i: int, j: int|
            0 <= i < a1.len() && 0 <= j < a1.len() && a1[i] != a1[j] implies #[trigger] placement_score_of(
            file_id,
            a1[i],
        ) != #[trigger] placement_score_of(file_id, a1[j]) by {
            assert(a1[i] == a[i + 1] && a1[j] == a[j + 1]);
        }
        lemma_score_order_unique(file_id, a1, b1);
        assert(a == seq![x] + a1);
        assert(b == seq![y] + b1);
    }
}

/// The first `k` peers by rank are the first `k` of the full ranking.
proof fn lemma_placement_prefix(scores: Seq<Seq<u8>>, k: int)
    requires
        0 <= k <= scores.len(),
    ensures
        placement_order(scores, k) == placement_order(scores, scores.len() as int).take(k),
{
    let n = scores.len() as int;
    lemma_placement_order_exists(scores, n);
    lemma_placement_order_exists(scores, k);
    let full = placement_order(scores, n);
    let t = full.take(k);
    assert forall|a: int, b: int| 0 <= a < b < k implies ranks_before(scores, #[trigger] t[a], #[trigger] t[b]) by {
        assert(t[a] == full[a] && t[b] == full[b]);
    }
    assert forall|a: int, l: int|
        0 <= a < k && 0 <= l < n && !t.contains(l) implies #[trigger] ranks_before(scores, t[a], l) by {
        assert(t[a] == full[a]);
        if full.contains(l) {
            let s = choose|s: int| 0 <= s < full.len() && full[s] == l;
            if s < k {
                assert(t[s] == l);
            }
        }
    }
    assert forall|a: int| 0 <= a < k implies 0 <= #[trigger] t[a] < n by {
        assert(t[a] == full[a]);
    }
    lemma_placement_order_unique(scores, t, placement_order(scores, k), k);
}

/// The full ranking of `p`, as strings, is in score order and holds the
/// strings of `p`, counted with repeats.
proof fn lemma_full_ranking(file_id: Seq<char>, p: Seq<Seq<char>>)
    ensures
        in_score_order(file_id, pick(p, placement_order(scores_for(file_id, p), p.len() as int))),
        pick(p, placement_order(scores_for(file_id, p), p.len() as int)).to_multiset() == p.to_multiset(),
{
    let sp = scores_for(file_id, p);
    let n = p.len() as int;
    lemma_placement_order_exists(sp, n);
    let o = placement_order(sp, n);
    let t = pick(p, o);
    assert forall|a: int, b: int| 0 <= a < b < t.len() implies crate::order::bytes_le(
        placement_score_of(file_id, #[trigger] t[a]),
        placement_score_of(file_id, #[trigger] t[b]),
    ) by {
        assert(ranks_before(sp, o[a], o[b]));
        assert(sp[o[a]] == placement_score_of(file_id, t[a]));
        assert(sp[o[b]] == placement_score_of(file_id, t[b]));
        if bytes_lt(sp[o[a]], sp[o[b]]) {
            lemma_bytes_lt_asymmetric(sp[o[a]], sp[o[b]]);
        } else {
            lemma_bytes_lt_irreflexive(sp[o[a]]);
        }
    }
    assert(o.no_duplicates()) by {
        assert forall|a: int, b: int| 0 <= a < o.len() && 0 <= b < o.len() && a != b implies o[a] != o[b] by {
            if a < b {
                lemma_ranks_before_irreflexive(sp, o[a]);
            } else {
                lemma_ranks_before_irreflexive(sp, o[b]);
            }
        }
    }
    lemma_pick_permutation_multiset(p, o);
}

/// `q` lists the peers of `p` in another order: `q[j] == p[perm[j]]`, with
/// `perm` a permutation of the positions.
pub open spec fn reorders(p: Seq<Seq<char>>, q: Seq<Seq<char>>, perm: Seq<int>) -> bool {
    &&& is_index_permutation(perm, p.len() as int)
    &&& q == pick(p, perm)
}

/// Where replicas go does not depend on the order in which the peers are
/// listed, repeated entries included, as long as different peers have
/// different scores.
pub proof fn lemma_placement_ignores_peer_order(
    file_id: Seq<char>,
    p: Seq<Seq<char>>,
    q: Seq<Seq<char>>,
    perm: Seq<int>,
    factor: int,
)
    requires
        reorders(p, q, perm),
        scores_separate(file_id, p),
    ensures
        placement_targets(file_id, p, factor) == placement_targets(file_id, q, factor),
{
    let n = p.len() as int;
    let k = target_count(remote_count(factor), n);
    let sp = scores_for(file_id, p);
    let sq = scores_for(file_id, q);
    lemma_full_ranking(file_id, p);
    lemma_full_ranking(file_id, q);
    lemma_pick_permutation_multiset(p, perm);
    let tp = pick(p, placement_order(sp, n));
    let tq = pick(q, placement_order(sq, n));
    lemma_placement_order_exists(sp, n);
    assert forall|a: int, b: int|
        0 <= a < tp.len() && 0 <= b < tp.len() && tp[a] != tp[b] implies #[trigger] placement_score_of(
        file_id,
        tp[a],
    ) != #[trigger] placement_score_of(file_id, tp[b]) by {
        let o = placement_order(sp, n);
        assert(tp[a] == p[o[a]] && tp[b] == p[o[b]]);
    }
    lemma_score_order_unique(file_id, tp, tq);
    lemma_placement_prefix(sp, k);
    lemma_placement_prefix(sq, k);
    let gp = placement_targets(file_id, p, factor);
    let gq = placement_targets(file_id, q, factor);
    assert forall|r: int| 0 <= r < k implies gp[r] == gq[r] by {
        assert(gp[r] == tp[r]);
        assert(gq[r] == tq[r]);
    }
    assert(gp == gq);
}

} // verus!

verus! {

/// A list of `n` distinct positions below `n` holds every position below `n`.
proof fn lemma_distinct_positions_cover(perm: Seq<int>, n: int, l: int)
    requires
        perm.len() == n,
        forall|a: int, b: int| 0 <= a < b < n ==> perm[a] != perm[b],
        forall|a: int| 0 <= a < n ==> 0 <= #[trigger] perm[a] < n,
        0 <= l < n,
    ensures
        perm.contains(l),
{
    assert(perm.no_duplicates()) by {
        assert forall|a: int, b: int| 0 <= a < perm.len() && 0 <= b < perm.len() && a != b implies perm[a]
            != perm[b] by {
            if a > b {
                assert(perm[b] != perm[a]);
            }
        }
    }
    let range = vstd::set_lib::set_int_range(0, n);
    vstd::set_lib::lemma_int_range(0, n);
    perm.unique_seq_to_set();
    assert(perm.to_set().subset_of(range));
    vstd::set_lib::lemma_subset_equality(perm.to_set(), range);
    assert(range.contains(l));
}

/// Dropping a peer that holds no replica of a file does not move the file's
/// replicas.
pub proof fn lemma_placement_ignores_unchosen_peer(
    file_id: Seq<char>,
    peers: Seq<Seq<char>>,
    i: int,
    factor: int,
)
    requires
        0 <= i < peers.len(),
        !placement_targets(file_id, peers, factor).contains(peers[i]),
    ensures
        placement_targets(file_id, peers.remove(i), factor) == placement_targets(
            file_id,
            peers,
            factor,
        ),
{
    let n = peers.len() as int;
    let rest = peers.remove(i);
    let sp = scores_for(file_id, peers);
    let sr = scores_for(file_id, rest);
    let k = target_count(remote_count(factor), n);
    lemma_placement_order_exists(sp, k);
    let o = placement_order(sp, k);
    let targets = placement_targets(file_id, peers, factor);
    assert(!o.contains(i)) by {
        if o.contains(i) {
            let r = choose|r: int| 0 <= r < o.len() && o[r] == i;
            assert(targets[r] == peers[i]);
        }
    }
    assert(k < n) by {
        if k == n {
            assert forall|a: int, b: int| 0 <= a < b < n implies o[a] != o[b] by {
                lemma_ranks_before_irreflexive(sp, o[a]);
            }
            lemma_distinct_positions_cover(o, n, i);
        }
    }
    assert(target_count(remote_count(factor), n - 1) == k);
    assert forall|x: int| 0 <= x < n - 1 implies #[trigger] sr[x] == sp[if x < i { x } else { x + 1 }] by {}
    let shift = |x: int| if x < i { x } else { x - 1 };
    let o2 = o.map_values(shift);
    assert forall|a: int| 0 <= a < k implies 0 <= #[trigger] o2[a] < n - 1 && o[a] != i && sr[o2[a]] == sp[o[a]] by {
        assert(o[a] != i);
    }
    assert forall|a: int, b: int| 0 <= a < b < k implies ranks_before(sr, #[trigger] o2[a], #[trigger] o2[b]) by {
        assert(ranks_before(sp, o[a], o[b]));
        assert(o[a] != i && o[b] != i);
    }
    assert forall|a: int, l: int|
        0 <= a < k && 0 <= l < n - 1 && !o2.contains(l) implies #[trigger] ranks_before(sr, o2[a], l) by {
        let m = if l < i { l } else { l + 1 };
        assert(sr[l] == sp[m]);
        assert(!o.contains(m)) by {
            if o.contains(m) {
                let s = choose|s: int| 0 <= s < o.len() && o[s] == m;
                assert(o2[s] == l);
            }
        }
        assert(ranks_before(sp, o[a], m));
        assert(o[a] != i);
    }
    assert(is_placement_order(sr, o2, k));
    lemma_placement_order_exists(sr, k);
    lemma_placement_order_unique(sr, o2, placement_order(sr, k), k);
    let t2 = placement_targets(file_id, rest, factor);
    assert forall|r: int| 0 <= r < k implies t2[r] == targets[r] by {
        assert(o[r] != i);
        assert(t2[r] == rest[o2[r]]);
    }
    assert(t2 == targets);
}

} // verus!

verus! {

/// A peer's score hashes the UTF-8 bytes of the whole text
/// `file:{file_id}|peer:{peer}`, and that text pins down the file id (for a
/// given peer) and the peer (for a given file id): file ids that differ
/// anywhere, or peers that differ anywhere, hash different texts.
pub proof fn lemma_score_hashes_whole_ids(f1: Seq<char>, f2: Seq<char>, p1: Seq<char>, p2: Seq<char>)
    ensures
        placement_score_of(f1, p1) == blake3_hash(encode_utf8("file:"@ + f1 + "|peer:"@ + p1)),
        score_input(f1, p1) == score_input(f2, p1) ==> f1 == f2,
        score_input(f1, p1) == score_input(f1, p2) ==> p1 == p2,
        score_input(f1, p1).len() == "file:"@.len() + f1.len() + "|peer:"@.len() + p1.len(),
{
    let a = "file:"@;
    let b = "|peer:"@;
    if score_input(f1, p1) == score_input(f2, p1) {
        let t1 = a + f1 + b + p1;
        let t2 = a + f2 + b + p1;
        assert(t1 == score_input(f1, p1) && t2 == score_input(f2, p1));
        assert(t1.len() == a.len() + f1.len() + b.len() + p1.len());
        assert(t2.len() == a.len() + f2.len() + b.len() + p1.len());
        assert(f1.len() == f2.len());
        assert forall|k: int| 0 <= k < f1.len() implies f1[k] == f2[k] by {
            assert(t1[a.len() + k] == f1[k]);
            assert(t2[a.len() + k] == f2[k]);
        }
        assert(f1 == f2);
    }
    if score_input(f1, p1) == score_input(f1, p2) {
        let t1 = a + f1 + b + p1;
        let t2 = a + f1 + b + p2;
        let off = a.len() + f1.len() + b.len();
        assert(t1 == score_input(f1, p1) && t2 == score_input(f1, p2));
        assert(t1.len() == off + p1.len());
        assert(t2.len() == off + p2.len());
        assert(p1.len() == p2.len());
        assert forall|k: int| 0 <= k < p1.len() implies p1[k] == p2[k] by {
            assert(t1[off + k] == p1[k]);
            assert(t2[off + k] == p2[k]);
        }
        assert(p1 == p2);
    }
}

} // verus!

verus! {

/// The replicas go to the peers with the lowest scores, each score taken over
/// the whole file id and peer: the targets come in order of score, and every
/// peer of the list that is not a target scores no lower than every target.
pub proof fn lemma_targets_have_lowest_scores(file_id: Seq<char>, peers: Seq<Seq<char>>, factor: int)
    ensures
        ({
            let t = placement_targets(file_id, peers, factor);
            &&& t.len() == target_count(remote_count(factor), peers.len() as int)
            &&& forall|r: int, s: int|
                0 <= r < s < t.len() ==> crate::order::bytes_le(
                    blake3_hash(encode_utf8("file:"@ + file_id + "|peer:"@ + #[trigger] t[r])),
                    blake3_hash(encode_utf8("file:"@ + file_id + "|peer:"@ + #[trigger] t[s])),
                )
            &&& forall|r: int, j: int|
                0 <= r < t.len() && 0 <= j < peers.len() && !t.contains(peers[j]) ==> crate::order::bytes_le(
                    blake3_hash(encode_utf8("file:"@ + file_id + "|peer:"@ + #[trigger] t[r])),
                    blake3_hash(encode_utf8("file:"@ + file_id + "|peer:"@ + #[trigger] peers[j])),
                )
        }),
{
    let sp = scores_for(file_id, peers);
    let n = peers.len() as int;
    let k = target_count(remote_count(factor), n);
    lemma_placement_order_exists(sp, k);
    let o = placement_order(sp, k);
    let t = placement_targets(file_id, peers, factor);
    assert forall|i: int| 0 <= i < n implies #[trigger] sp[i] == blake3_hash(
        encode_utf8("file:"@ + file_id + "|peer:"@ + peers[i]),
    ) by {}
    assert forall|r: int, s: int| 0 <= r < s < t.len() implies crate::order::bytes_le(
        blake3_hash(encode_utf8("file:"@ + file_id + "|peer:"@ + #[trigger] t[r])),
        blake3_hash(encode_utf8("file:"@ + file_id + "|peer:"@ + #[trigger] t[s])),
    ) by {
        assert(t[r] == peers[o[r]] && t[s] == peers[o[s]]);
        assert(ranks_before(sp, o[r], o[s]));
        if bytes_lt(sp[o[r]], sp[o[s]]) {
            lemma_bytes_lt_asymmetric(sp[o[r]], sp[o[s]]);
        } else {
            lemma_bytes_lt_irreflexive(sp[o[r]]);
        }
    }
    assert forall|r: int, j: int|
        0 <= r < t.len() && 0 <= j < peers.len() && !t.contains(peers[j]) implies crate::order::bytes_le(
        blake3_hash(encode_utf8("file:"@ + file_id + "|peer:"@ + #[trigger] t[r])),
        blake3_hash(encode_utf8("file:"@ + file_id + "|peer:"@ + #[trigger] peers[j])),
    ) by {
        assert(t[r] == peers[o[r]]);
        assert(!o.contains(j)) by {
            if o.contains(j) {
                let s = choose|s: int| 0 <= s < o.len() && o[s] == j;
                assert(t[s] == peers[j]);
            }
        }
        assert(ranks_before(sp, o[r], j));
        if bytes_lt(sp[o[r]], sp[j]) {
            lemma_bytes_lt_asymmetric(sp[o[r]], sp[j]);
        } else {
            lemma_bytes_lt_irreflexive(sp[j]);
        }
    }
}

} // verus!
