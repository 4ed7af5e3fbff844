use thermite_core::core_ping;

#[test]
fn test_core_ping() {
    assert_eq!(core_ping(), "core_pong");
}
