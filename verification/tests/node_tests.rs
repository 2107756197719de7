use raft::node::{ClusterConfig, Peer};

fn peer(id: i32, addr: &str) -> Peer {
    Peer { id, addr: addr.to_string() }
}

#[test]
fn remote_peers_leave_out_self_and_keep_order() {
    let config = ClusterConfig {
        peers: vec![peer(1, "a:1"), peer(2, "b:2"), peer(3, "c:3")],
    };
    let remote = config.remote_peers(2);
    let ids: Vec<i32> = remote.iter().map(|p| p.id).collect();
    let addrs: Vec<String> = remote.iter().map(|p| p.addr.clone()).collect();
    assert_eq!(ids, vec![1, 3]);
    assert_eq!(addrs, vec!["a:1".to_string(), "c:3".to_string()]);
}

#[test]
fn remote_peers_are_all_when_self_is_not_listed() {
    let config = ClusterConfig { peers: vec![peer(1, "a:1"), peer(3, "c:3")] };
    let ids: Vec<i32> = config.remote_peers(9).iter().map(|p| p.id).collect();
    assert_eq!(ids, vec![1, 3]);
}

#[test]
fn remote_peers_of_an_empty_cluster_are_none() {
    let config = ClusterConfig { peers: vec![] };
    assert!(config.remote_peers(1).is_empty());
}
