//! Lazy, idempotent service starting.

use kindling::Capability;
use kindling::Dependencies;
use kindling::InitError;
use kindling::Service;
use kindling::ServiceConfig;
use kindling::service::first_attached;

fn bare_config() -> ServiceConfig {
    ServiceConfig {
        description: Some("a service".to_string()),
        license: Vec::new(),
        targets: Vec::new(),
        dependencies: Dependencies::none(),
    }
}

#[test]
fn start_memoizes_the_first_capability() {
    let mut svc = Service::new("echo".to_string(), bare_config());
    assert!(svc.needs_spawn());
    let first = svc.start(Capability { handle: 41 });
    assert_eq!(first, Capability { handle: 41 });
    assert!(!svc.needs_spawn());
}

#[test]
fn start_twice_returns_the_identical_capability() {
    let mut svc = Service::new("echo".to_string(), bare_config());
    let first = svc.start(Capability { handle: 7 });
    // a second start changes nothing, whatever capability it is offered
    let second = svc.start(Capability { handle: 1000 });
    assert_eq!(first, second);
    assert!(!svc.needs_spawn());
    let third = svc.start(Capability { handle: 2000 });
    assert_eq!(third, Capability { handle: 7 });
}

#[test]
fn accessors_return_what_was_given() {
    let svc = Service::new("mirror".to_string(), bare_config());
    assert_eq!(svc.get_name(), "mirror");
    assert_eq!(svc.get_config().description.as_deref(), Some("a service"));
}

#[test]
fn spawn_reply_needs_an_attached_capability() {
    assert_eq!(first_attached(&Vec::new()), Err(InitError::MissingSpawnCapability));
    let caps = vec![Capability { handle: 3 }, Capability { handle: 4 }];
    assert_eq!(first_attached(&caps), Ok(Capability { handle: 3 }));
}
