use blockyard::raft::tcp_transport::{PeerRegistry, TcpTransportConfig};


#[test]
fn test_peer_registry_register_get() {
    let mut reg: PeerRegistry<String> = PeerRegistry::new();
    let addr = "127.0.0.1:9000".to_string();
    reg.register(1, addr.clone());
    assert_eq!(reg.get(1), Some(&addr));
    assert_eq!(reg.get(2), None);
}

#[test]
fn test_peer_registry_unregister() {
    let mut reg: PeerRegistry<String> = PeerRegistry::new();
    let addr = "127.0.0.1:9000".to_string();
    reg.register(1, addr.clone());
    reg.unregister(1);
    assert_eq!(reg.get(1), None);
}

#[test]
fn test_peer_registry_list() {
    let mut reg: PeerRegistry<String> = PeerRegistry::new();
    let a1 = "127.0.0.1:9000".to_string();
    let a2 = "127.0.0.1:9001".to_string();
    reg.register(1, a1.clone());
    reg.register(2, a2);
    let list = reg.list();
    assert_eq!(list.len(), 2);
}

#[test]
fn test_peer_registry_default() {
    let mut reg: PeerRegistry<String> = PeerRegistry::default();
    assert!(reg.list().is_empty());
}

#[test]
fn test_tcp_transport_config_default() {
    let cfg = TcpTransportConfig::default();
    assert_eq!(cfg.connect_timeout_ms, 5_000);
    assert_eq!(cfg.rpc_timeout_ms, 5_000);
}

#[test]
fn test_tcp_connection_send_rpc_no_peer() {
    let peers: PeerRegistry<String> = PeerRegistry::new();
    let result = peers.address_of(99);
    assert!(result.is_err());
    assert_eq!(result.unwrap_err(), "no address registered for node 99");
}

#[test]
fn test_peer_registry_overwrite() {
    let mut reg: PeerRegistry<String> = PeerRegistry::new();
    let a1 = "127.0.0.1:9000".to_string();
    let a2 = "127.0.0.1:9001".to_string();
    reg.register(1, a1.clone());
    reg.register(1, a2.clone());
    assert_eq!(reg.get(1), Some(&a2));
}

#[test]
fn test_peer_registry_unregister_nonexistent() {
    let mut reg: PeerRegistry<String> = PeerRegistry::new();
    reg.unregister(42);
    assert!(reg.list().is_empty());
}
