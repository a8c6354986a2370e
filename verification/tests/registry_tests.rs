use nft_relay::dispatch::send_command;
use nft_relay::dispatch::send_result;
use nft_relay::dispatch::DispatchError;
use nft_relay::registry::Registry;

#[test]
fn register_twice_exactly_one_succeeds() {
    let mut registry: Registry<u32> = Registry::new();
    let first = registry.register("addr-1".to_string(), 7);
    let second = registry.register("addr-1".to_string(), 8);
    assert!(first.is_ok());
    assert!(second.is_err());
    assert_eq!(registry.total_clients(), 1);
    assert_eq!(registry.lookup(&"addr-1".to_string()), Some(&7));
}

#[test]
fn deregister_frees_the_address() {
    let mut registry: Registry<u32> = Registry::new();
    assert!(registry.register("addr-1".to_string(), 7).is_ok());
    registry.deregister(&"addr-1".to_string());
    assert!(registry.lookup(&"addr-1".to_string()).is_none());
    assert_eq!(registry.total_clients(), 0);
    assert!(registry.register("addr-1".to_string(), 9).is_ok());
    assert_eq!(registry.lookup(&"addr-1".to_string()), Some(&9));
}

#[test]
fn deregister_absent_address_is_a_no_op() {
    let mut registry: Registry<u32> = Registry::new();
    assert!(registry.register("addr-1".to_string(), 7).is_ok());
    registry.deregister(&"someone-else".to_string());
    assert_eq!(registry.total_clients(), 1);
    assert_eq!(registry.lookup(&"addr-1".to_string()), Some(&7));
}

#[test]
fn registry_tracks_independent_addresses() {
    let mut registry: Registry<u32> = Registry::new();
    assert!(registry.register("a".to_string(), 1).is_ok());
    assert!(registry.register("b".to_string(), 2).is_ok());
    assert_eq!(registry.total_clients(), 2);
    registry.deregister(&"a".to_string());
    assert!(registry.lookup(&"a".to_string()).is_none());
    assert_eq!(registry.lookup(&"b".to_string()), Some(&2));
    assert_eq!(registry.total_clients(), 1);
}

#[test]
fn send_command_without_entry_fails_with_no_such_connection() {
    let registry: Registry<u32> = Registry::new();
    let r = send_command(&registry, &"ghost".to_string(), "game-start".to_string());
    assert_eq!(r.unwrap_err(), DispatchError::NoSuchConnection);
}

#[test]
fn send_command_with_entry_hands_back_sink_and_message() {
    let mut registry: Registry<u32> = Registry::new();
    assert!(registry.register("addr-1".to_string(), 42).is_ok());
    let (sink, message) =
        send_command(&registry, &"addr-1".to_string(), "game-end".to_string()).unwrap();
    assert_eq!(*sink, 42);
    assert_eq!(message, "game-end");
}

#[test]
fn send_result_reflects_the_transport_outcome() {
    assert!(send_result(true).is_ok());
    assert_eq!(send_result(false).unwrap_err(), DispatchError::SendFailed);
}
