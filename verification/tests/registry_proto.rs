//! The registry actor's bootstrap and wire protocol.

use kindling::Capability;
use kindling::InitError;
use kindling::Registry;
use kindling::RegistryConfig;
use kindling::RegistryRequest;
use kindling::RegistryResponse;

fn cap(handle: u64) -> Capability {
    Capability { handle }
}

fn names(entries: &[&str]) -> Vec<String> {
    entries.iter().map(|n| n.to_string()).collect()
}

#[test]
fn bootstrap_needs_one_capability_per_name() {
    let config = RegistryConfig { service_names: names(&["a", "b", "c"]) };
    let reg = Registry::boot(config, vec![cap(1), cap(2), cap(3)]);
    assert!(reg.is_ok());
}

#[test]
fn bootstrap_count_mismatch_is_fatal() {
    let config = RegistryConfig { service_names: names(&["a", "b", "c"]) };
    let err = Registry::boot(config, vec![cap(1), cap(2)]).unwrap_err();
    assert_eq!(err, InitError::RegistryBootstrapMismatch { names: 3, capabilities: 2 });

    let config = RegistryConfig { service_names: names(&["a"]) };
    let err = Registry::boot(config, vec![cap(1), cap(2)]).unwrap_err();
    assert_eq!(err, InitError::RegistryBootstrapMismatch { names: 1, capabilities: 2 });
}

#[test]
fn capabilities_are_matched_positionally() {
    let config = RegistryConfig { service_names: names(&["first", "second"]) };
    let reg = Registry::boot(config, vec![cap(100), cap(200)]).unwrap();
    assert_eq!(reg.get(&"first".to_string()), Some(cap(100)));
    assert_eq!(reg.get(&"second".to_string()), Some(cap(200)));
}

#[test]
fn get_returns_the_exact_capability_or_nothing() {
    let config = RegistryConfig { service_names: names(&["known"]) };
    let reg = Registry::boot(config, vec![cap(77)]).unwrap();

    let (response, attached) =
        reg.handle(&RegistryRequest::Get { name: "known".to_string() });
    assert_eq!(response, RegistryResponse::Get(true));
    assert_eq!(attached, Some(cap(77)));

    let (response, attached) =
        reg.handle(&RegistryRequest::Get { name: "unknown".to_string() });
    assert_eq!(response, RegistryResponse::Get(false));
    assert_eq!(attached, None);
}

#[test]
fn list_returns_the_bootstrap_name_set_once_each() {
    let config = RegistryConfig { service_names: names(&["a", "b"]) };
    let reg = Registry::boot(config, vec![cap(1), cap(2)]).unwrap();
    let (response, attached) = reg.handle(&RegistryRequest::List);
    assert_eq!(attached, None);
    match response {
        RegistryResponse::List(mut listed) => {
            listed.sort();
            assert_eq!(listed, names(&["a", "b"]));
        }
        other => panic!("expected a List response, got {:?}", other),
    }
}

#[test]
fn list_never_repeats_a_name() {
    // a duplicated bootstrap name is served once, the later entry winning
    let config = RegistryConfig { service_names: names(&["dup", "dup"]) };
    let reg = Registry::boot(config, vec![cap(1), cap(2)]).unwrap();
    let (response, _) = reg.handle(&RegistryRequest::List);
    match response {
        RegistryResponse::List(listed) => assert_eq!(listed, names(&["dup"])),
        other => panic!("expected a List response, got {:?}", other),
    }
    assert_eq!(reg.get(&"dup".to_string()), Some(cap(2)));
}

#[test]
fn register_is_always_unsupported() {
    let config = RegistryConfig { service_names: names(&["a"]) };
    let reg = Registry::boot(config, vec![cap(1)]).unwrap();
    let (response, attached) =
        reg.handle(&RegistryRequest::Register { name: "b".to_string() });
    assert_eq!(response, RegistryResponse::Register);
    assert_eq!(attached, None);
    // the directory is untouched: still only the bootstrap name
    assert_eq!(reg.get(&"b".to_string()), None);
    assert_eq!(reg.get(&"a".to_string()), Some(cap(1)));
}
