use blockyard::raft::network::Router;


#[test]
fn test_router_add_remove() {
    let mut router = Router::<u8>::new();
    assert!(router.get(1).is_none());
    router.remove_node(1);
}

#[test]
fn test_router_default() {
    let router = Router::<u8>::default();
    assert!(router.targets.is_empty());
}

#[test]
fn test_network_connection_target_not_found() {
    let router = Router::<u8>::new();
    let result = router.get_target(99);
    assert!(result.is_err());
}
#[test]
fn a_router_finds_what_was_added() {
    let mut router = Router::<&str>::new();
    router.add_node(1, "one");
    router.add_node(2, "two");
    router.add_node(1, "uno");
    assert_eq!(router.get_target(1), Ok(&"uno"));
    router.remove_node(2);
    assert_eq!(router.get(2), None);
    assert_eq!(router.get_target(2), Err("node 2 not found in router".to_string()));
}
