//! A node's settings.

use vstd::prelude::*;

use crate::text::{parse_peers, peer_list, string_views};

verus! {

/// Who a node is, where it listens, where it stores data, and its peers.
#[derive(Debug, Clone)]
pub struct Config {
    pub node_id: String,
    pub port: String,
    pub storage_path: String,
    pub peers: Vec<String>,
}

/// A setting's value, or `default` when it is not set.
pub open spec fn setting_or(value: Option<String>, default: Seq<char>) -> Seq<char> {
    match value {
        Some(v) => v@,
        None => default,
    }
}

fn string_or(value: Option<String>, default: &str) -> (r: String)
    ensures
        r@ == setting_or(value, default@),
{
    match value {
        Some(v) => v,
        None => String::from_str(default),
    }
}

impl Config {
    /// The settings that the values of `NODE_ID`, `PORT`, `STORAGE_PATH` and
    /// `PEERS` give, each `None` when unset: a node named `unknown-node`,
    /// port `8080`, data under `./data` and no peers by default; the peers
    /// are the comma-separated list, trimmed, empty entries dropped.
    pub fn from_settings(
        node_id: Option<String>,
        port: Option<String>,
        storage_path: Option<String>,
        peers: Option<String>,
    ) -> (config: Config)
        ensures
            config.node_id@ == setting_or(node_id, "unknown-node"@),
            config.port@ == setting_or(port, "8080"@),
            config.storage_path@ == setting_or(storage_path, "./data"@),
            string_views(config.peers@) == peer_list(setting_or(peers, Seq::empty())),
    {
        let node_id = string_or(node_id, "unknown-node");
        let port = string_or(port, "8080");
        let storage_path = string_or(storage_path, "./data");
        let peers_setting = match peers {
            Some(v) => v,
            None => String::new(),
        };
        let peers = parse_peers(peers_setting.as_str());
        Config { node_id, port, storage_path, peers }
    }
}

} // verus!
