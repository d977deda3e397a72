use private_vault::config::Config;
use private_vault::models::{FileManifest, HealthResponse, Peer, PeerAdresses};
use private_vault::paths::{chunk_path, chunks_dir, database_url_for_path, join_path};
use private_vault::placement::{Blake3ReplicaPlacement, ReplicaPlacement};
use private_vault::policy::ReplicationPolicy;
use private_vault::registry::PeerRegistry;
use private_vault::replication::{
    accept_fetched_chunk, first_search_step, next_search_step, plan_replication, PushAction,
    PushRun, SearchStep,
};
use private_vault::text::parse_peers;

fn peer(id: &str, url: &str) -> Peer {
    Peer { node_id: id.to_string(), adresses: PeerAdresses { http: url.to_string() } }
}

fn expected_targets(file_id: &str, peers: &[&str], count: usize) -> Vec<String> {
    let mut scored: Vec<([u8; 32], String)> = peers
        .iter()
        .map(|p| (*blake3::hash(format!("file:{file_id}|peer:{p}").as_bytes()).as_bytes(), p.to_string()))
        .collect();
    scored.sort_by_key(|(s, _)| *s);
    scored.into_iter().take(count).map(|(_, p)| p).collect()
}

#[test]
fn parse_peers_trims_and_drops_empty_entries() {
    assert_eq!(
        parse_peers("http://a:1, http://b:2 ,, ,http://c"),
        vec!["http://a:1", "http://b:2", "http://c"]
    );
}

#[test]
fn parse_peers_of_blank_settings_is_empty() {
    assert!(parse_peers("").is_empty());
    assert!(parse_peers(" , \t,\n").is_empty());
}

#[test]
fn parse_peers_trims_unicode_white_space() {
    assert_eq!(parse_peers("\u{a0}node-a\u{3000},\u{2028}node-b"), vec!["node-a", "node-b"]);
    assert_eq!(parse_peers("a b"), vec!["a b"]);
}

#[test]
fn config_defaults() {
    let c = Config::from_settings(None, None, None, None);
    assert_eq!(c.node_id, "unknown-node");
    assert_eq!(c.port, "8080");
    assert_eq!(c.storage_path, "./data");
    assert!(c.peers.is_empty());
}

#[test]
fn config_takes_given_settings() {
    let c = Config::from_settings(
        Some("node-1".to_string()),
        Some("9000".to_string()),
        Some("/var/vault".to_string()),
        Some("http://x, http://y".to_string()),
    );
    assert_eq!(c.node_id, "node-1");
    assert_eq!(c.port, "9000");
    assert_eq!(c.storage_path, "/var/vault");
    assert_eq!(c.peers, vec!["http://x", "http://y"]);
}

#[test]
fn join_path_follows_path_join() {
    assert_eq!(join_path("data", "chunks"), "data/chunks");
    assert_eq!(join_path("data/", "chunks"), "data/chunks");
    assert_eq!(join_path("", "chunks"), "chunks");
    assert_eq!(join_path("data", "/etc/x"), "/etc/x");
    for (base, comp) in [("data", "chunks"), ("data/", "c"), ("", "c"), ("a", "/b"), ("./d", "")] {
        let expected = std::path::Path::new(base).join(comp);
        assert_eq!(join_path(base, comp), expected.to_str().unwrap());
    }
}

#[test]
fn chunk_and_database_locations() {
    assert_eq!(chunks_dir("./data"), "./data/chunks");
    assert_eq!(chunk_path("./data", "abc"), "./data/chunks/abc");
    assert_eq!(database_url_for_path("./data"), "sqlite://./data/vault.db?mode=rwc");
    assert_eq!(database_url_for_path("/srv/"), "sqlite:///srv/vault.db?mode=rwc");
}

#[test]
fn policy_keeps_at_least_one_replica() {
    assert_eq!(ReplicationPolicy::new(0).replication_factor, 1);
    assert_eq!(ReplicationPolicy::new(3).replication_factor, 3);
    assert_eq!(ReplicationPolicy::new(0).remote_replica_count(), 0);
    assert_eq!(ReplicationPolicy::new(2).remote_replica_count(), 1);
    assert_eq!(ReplicationPolicy { replication_factor: 0 }.remote_replica_count(), 0);
}

#[test]
fn placement_picks_lowest_scores() {
    let peers = vec!["node-a".to_string(), "node-b".to_string(), "node-c".to_string(), "node-d".to_string()];
    let names = ["node-a", "node-b", "node-c", "node-d"];
    let placement = Blake3ReplicaPlacement;
    for factor in 0..6 {
        let policy = ReplicationPolicy::new(factor);
        let got = placement.target_peers_for_file("file-1", &peers, &policy);
        assert_eq!(got, expected_targets("file-1", &names, policy.remote_replica_count()));
    }
}

#[test]
fn placement_with_no_peers_is_empty() {
    let placement = Blake3ReplicaPlacement;
    assert!(placement.target_peers_for_file("f", &[], &ReplicationPolicy::new(3)).is_empty());
}

#[test]
fn placement_ignores_peer_order() {
    let placement = Blake3ReplicaPlacement;
    let policy = ReplicationPolicy::new(3);
    let a = vec!["n1".to_string(), "n2".to_string(), "n3".to_string(), "n4".to_string()];
    let b = vec!["n4".to_string(), "n2".to_string(), "n1".to_string(), "n3".to_string()];
    assert_eq!(
        placement.target_peers_for_file("file-x", &a, &policy),
        placement.target_peers_for_file("file-x", &b, &policy)
    );
}

#[test]
fn registry_upsert_adds_and_replaces() {
    let mut registry = PeerRegistry::new();
    assert!(registry.list().is_empty());
    registry.upsert(peer("a", "http://a:1"));
    registry.upsert(peer("b", "http://b:1"));
    registry.upsert(peer("a", "http://a:2"));
    let list = registry.list();
    assert_eq!(list.len(), 2);
    assert_eq!(list[0].node_id, "a");
    assert_eq!(list[0].adresses.http, "http://a:2");
    assert_eq!(list[1].adresses.http, "http://b:1");
    assert_eq!(registry.get(&"b".to_string()).unwrap().adresses.http, "http://b:1");
    assert!(registry.get(&"c".to_string()).is_none());
}

#[test]
fn registry_upsert_twice_is_upsert_once() {
    let mut registry = PeerRegistry::new();
    registry.upsert(peer("a", "u"));
    registry.upsert(peer("a", "u"));
    assert_eq!(registry.list().len(), 1);
}

fn sample_manifest() -> FileManifest {
    private_vault::files::build_manifest("file-9".to_string(), "n".to_string(), b"0123456789").0
}

#[test]
fn plan_replication_without_peers_changes_nothing() {
    let mut manifest = sample_manifest();
    let targets = plan_replication(&mut manifest, &vec![], &ReplicationPolicy::new(2), &Blake3ReplicaPlacement);
    assert!(targets.is_empty());
    assert!(manifest.target_peers.is_empty());
    assert_eq!(manifest.replication_factor, 1);
}

#[test]
fn plan_replication_records_and_resolves_targets() {
    let mut manifest = sample_manifest();
    let peers = vec![peer("p1", "http://p1"), peer("p2", "http://p2"), peer("p3", "http://p3")];
    let policy = ReplicationPolicy::new(3);
    let targets = plan_replication(&mut manifest, &peers, &policy, &Blake3ReplicaPlacement);
    let expected = expected_targets("file-9", &["p1", "p2", "p3"], 2);
    assert_eq!(manifest.target_peers, expected);
    assert_eq!(manifest.replication_factor, 3);
    assert_eq!(targets.len(), 2);
    for (t, id) in targets.iter().zip(expected.iter()) {
        assert_eq!(&t.node_id, id);
        assert_eq!(t.adresses.http, format!("http://{id}"));
    }
}

#[test]
fn fetched_chunks_are_checked() {
    let data = b"chunk data".to_vec();
    let hash = blake3::hash(&data).to_hex().to_string();
    assert_eq!(accept_fetched_chunk(&hash, Some(data.clone())), Some(data));
    assert_eq!(accept_fetched_chunk(&hash, Some(b"tampered".to_vec())), None);
    assert_eq!(accept_fetched_chunk(&hash, None), None);
}

#[test]
fn push_run_checks_sends_then_sends_manifest() {
    let manifest = private_vault::files::build_manifest(
        "f".to_string(),
        "n".to_string(),
        &vec![3u8; private_vault::chunker::DEFAULT_CHUNK_SIZE + 1],
    )
    .0;
    let targets = vec![peer("a", "http://a"), peer("b", "http://b")];
    let mut run = PushRun::new(&targets, &manifest);
    let mut log: Vec<String> = Vec::new();
    loop {
        match run.next_action() {
            PushAction::CheckChunk { peer_url, hash } => {
                let idx = manifest.chunks.iter().position(|c| c.hash == hash).unwrap();
                log.push(format!("check {peer_url} {idx}"));
                // peer b already holds the first chunk; the check of a's second chunk fails
                let answer = if peer_url == "http://b" && idx == 0 {
                    Some(true)
                } else if peer_url == "http://a" && idx == 1 {
                    None
                } else {
                    Some(false)
                };
                run.record_check(answer);
            }
            PushAction::SendChunk { peer_url, hash } => {
                let idx = manifest.chunks.iter().position(|c| c.hash == hash).unwrap();
                log.push(format!("send {peer_url} {idx}"));
                run.record_send();
            }
            PushAction::SendManifest { peer_url } => {
                log.push(format!("manifest {peer_url}"));
                run.record_manifest();
            }
            PushAction::Finished => break,
        }
    }
    assert_eq!(
        log,
        vec![
            "check http://a 0",
            "send http://a 0",
            "check http://a 1",
            "send http://a 1",
            "manifest http://a",
            "check http://b 0",
            "check http://b 1",
            "send http://b 1",
            "manifest http://b",
        ]
    );
}

#[test]
fn push_run_of_empty_file_sends_manifests_only() {
    let manifest = private_vault::files::build_manifest("f".to_string(), "n".to_string(), b"").0;
    let mut run = PushRun::new(&vec![peer("a", "http://a")], &manifest);
    match run.next_action() {
        PushAction::SendManifest { peer_url } => assert_eq!(peer_url, "http://a"),
        _ => panic!("expected the manifest first"),
    }
    run.record_manifest();
    assert!(matches!(run.next_action(), PushAction::Finished));
    let none = PushRun::new(&vec![], &manifest);
    assert!(matches!(none.next_action(), PushAction::Finished));
}

#[test]
fn health_response_is_ok() {
    let r = HealthResponse::ok(peer("n", "http://n"));
    assert_eq!(r.status, "ok");
    assert_eq!(r.peer_info.node_id, "n");
}

#[test]
fn distinct_hashes_get_distinct_chunk_files() {
    let a = chunk_path("/data", "aa");
    let b = chunk_path("/data", "ab");
    assert_ne!(a, b);
    assert!(a.starts_with(&chunks_dir("/data")));
}

#[test]
fn search_stops_at_first_acceptable_answer() {
    assert!(matches!(first_search_step::<u8>(0), SearchStep::Exhausted));
    assert!(matches!(first_search_step::<u8>(3), SearchStep::Ask(0)));
    assert!(matches!(next_search_step::<u8>(3, 0, None), SearchStep::Ask(1)));
    assert!(matches!(next_search_step(3, 1, Some(7u8)), SearchStep::Found(7)));
    assert!(matches!(next_search_step::<u8>(3, 2, None), SearchStep::Exhausted));
}

#[test]
fn placement_ignores_order_with_repeated_peers() {
    let placement = Blake3ReplicaPlacement;
    let policy = ReplicationPolicy::new(4);
    let a: Vec<String> = ["n1", "n2", "n1", "n3", "n2"].iter().map(|s| s.to_string()).collect();
    let b: Vec<String> = ["n2", "n1", "n3", "n2", "n1"].iter().map(|s| s.to_string()).collect();
    assert_eq!(
        placement.target_peers_for_file("file-r", &a, &policy),
        placement.target_peers_for_file("file-r", &b, &policy)
    );
}

#[test]
fn dropping_an_unchosen_peer_keeps_targets() {
    let placement = Blake3ReplicaPlacement;
    let policy = ReplicationPolicy::new(2);
    let peers: Vec<String> = ["n1", "n2", "n3", "n4"].iter().map(|s| s.to_string()).collect();
    let chosen = placement.target_peers_for_file("file-z", &peers, &policy);
    for (i, p) in peers.iter().enumerate() {
        if !chosen.contains(p) {
            let mut fewer = peers.clone();
            fewer.remove(i);
            assert_eq!(placement.target_peers_for_file("file-z", &fewer, &policy), chosen);
        }
    }
}

#[test]
fn metadata_sizes_sum_to_file_length() {
    let data = vec![9u8; 3 * private_vault::chunker::DEFAULT_CHUNK_SIZE + 17];
    let chunks = private_vault::chunker::chunk_bytes(&data, private_vault::chunker::DEFAULT_CHUNK_SIZE);
    let meta = private_vault::chunker::to_metadata(&chunks);
    assert_eq!(meta.iter().map(|m| m.size).sum::<i64>(), data.len() as i64);
    for (i, m) in meta.iter().enumerate() {
        assert_eq!(m.index, i as i64);
        assert!(m.size > 0);
    }
}
