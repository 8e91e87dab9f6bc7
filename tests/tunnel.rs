use std::cell::RefCell;
use std::rc::Rc;

use iceoryx2_tunnels_zenoh::registry::Registry;
use iceoryx2_tunnels_zenoh::tunnel::Backend;
use iceoryx2_tunnels_zenoh::tunnel::Connection;
use iceoryx2_tunnels_zenoh::tunnel::Tunnel;
use iceoryx2_tunnels_zenoh::types::ConnectionError;
use iceoryx2_tunnels_zenoh::types::CreationError;
use iceoryx2_tunnels_zenoh::types::DiscoveryError;
use iceoryx2_tunnels_zenoh::types::MessagingPattern;
use iceoryx2_tunnels_zenoh::types::PropagationError;
use iceoryx2_tunnels_zenoh::types::Scope;
use iceoryx2_tunnels_zenoh::types::ServiceDescriptor;
use iceoryx2_tunnels_zenoh::types::TunnelConfig;
use iceoryx2_tunnels_zenoh::types::TunnelEvent;

struct FakeConnection {
    id: String,
    fail: bool,
    calls: Rc<RefCell<Vec<String>>>,
}

impl Connection for FakeConnection {
    fn propagate(&self) -> Result<(), PropagationError> {
        self.calls.borrow_mut().push(self.id.clone());
        if self.fail {
            Err(PropagationError::Error)
        } else {
            Ok(())
        }
    }
}

#[derive(Default)]
struct FakeBackend {
    local: Vec<ServiceDescriptor>,
    remote: Vec<ServiceDescriptor>,
    local_fails: bool,
    remote_fails: bool,
    failing_creation: Vec<String>,
    failing_propagation: Vec<String>,
    scans: Vec<&'static str>,
    created: Vec<String>,
    calls: Rc<RefCell<Vec<String>>>,
}

impl Backend for FakeBackend {
    type Connection = FakeConnection;

    fn discover_local(&mut self, found: &mut Vec<ServiceDescriptor>) -> Result<(), DiscoveryError> {
        self.scans.push("local");
        found.extend(self.local.iter().cloned());
        if self.local_fails {
            Err(DiscoveryError::Error)
        } else {
            Ok(())
        }
    }

    fn discover_remote(&mut self, found: &mut Vec<ServiceDescriptor>) -> Result<(), DiscoveryError> {
        self.scans.push("remote");
        found.extend(self.remote.iter().cloned());
        if self.remote_fails {
            Err(DiscoveryError::Error)
        } else {
            Ok(())
        }
    }

    fn create_connection(
        &mut self,
        descriptor: &ServiceDescriptor,
    ) -> Result<FakeConnection, ConnectionError> {
        self.created.push(descriptor.id.clone());
        if self.failing_creation.contains(&descriptor.id) {
            return Err(ConnectionError::Error);
        }
        Ok(FakeConnection {
            id: descriptor.id.clone(),
            fail: self.failing_propagation.contains(&descriptor.id),
            calls: self.calls.clone(),
        })
    }
}

fn service(id: &str, pattern: MessagingPattern) -> ServiceDescriptor {
    ServiceDescriptor {
        id: id.to_string(),
        name: format!("name of {id}"),
        pattern,
    }
}

fn sorted(mut v: Vec<String>) -> Vec<String> {
    v.sort();
    v
}

fn bridged_ids(events: &[TunnelEvent]) -> Vec<(Scope, String)> {
    events
        .iter()
        .filter_map(|e| match e {
            TunnelEvent::Bridged { source, id, .. } => Some((*source, id.clone())),
            _ => None,
        })
        .collect()
}

#[test]
fn scope_names() {
    assert_eq!(Scope::Iceoryx.to_string(), "iceoryx");
    assert_eq!(Scope::Zenoh.to_string(), "zenoh");
    assert_eq!(Scope::Both.to_string(), "both");
}

#[test]
fn error_names() {
    assert_eq!(CreationError::Error.to_string(), "CreationError::Error");
    assert_eq!(DiscoveryError::Error.to_string(), "DiscoveryError::Error");
}

#[test]
fn default_config_has_no_discovery_service() {
    assert_eq!(TunnelConfig::default().discovery_service, None);
}

#[test]
fn registry_keeps_insertion_order() {
    let mut r: Registry<u32> = Registry::new();
    assert_eq!(r.len(), 0);
    r.insert("a".to_string(), 1);
    r.insert("b".to_string(), 2);
    assert!(r.contains(&"a".to_string()));
    assert!(!r.contains(&"c".to_string()));
    assert_eq!(r.len(), 2);
    assert_eq!(r.id(1), "b");
    assert_eq!(*r.connection(0), 1);
    assert_eq!(r.ids(), vec!["a".to_string(), "b".to_string()]);
}

#[test]
fn new_tunnel_is_empty() {
    let mut t = Tunnel::create(FakeBackend::default());
    assert!(t.tunneled_services().is_empty());
    assert!(t.take_events().is_empty());
}

#[test]
fn repeated_discovery_bridges_each_service_once() {
    let backend = FakeBackend {
        local: vec![
            service("a", MessagingPattern::PublishSubscribe),
            service("b", MessagingPattern::Event),
        ],
        remote: vec![service("a", MessagingPattern::PublishSubscribe)],
        ..Default::default()
    };
    let mut t = Tunnel::create(backend);
    for _ in 0..3 {
        assert_eq!(t.discover(Scope::Both), Ok(()));
    }
    assert_eq!(sorted(t.tunneled_services()), vec!["a".to_string(), "b".to_string()]);
    assert_eq!(t.backend().created, vec!["a".to_string(), "b".to_string()]);
    assert_eq!(bridged_ids(&t.take_events()).len(), 2);
}

#[test]
fn patterns_are_kept_apart() {
    let backend = FakeBackend {
        local: vec![
            service("p", MessagingPattern::PublishSubscribe),
            service("e", MessagingPattern::Event),
            service("u", MessagingPattern::Unsupported),
        ],
        ..Default::default()
    };
    let mut t = Tunnel::create(backend);
    assert_eq!(t.discover(Scope::Iceoryx), Ok(()));
    // publish-subscribe identities come first, then event identities
    assert_eq!(t.tunneled_services(), vec!["p".to_string(), "e".to_string()]);
    assert_eq!(t.backend().created, vec!["p".to_string(), "e".to_string()]);
    let events = t.take_events();
    assert_eq!(events.len(), 2);
    match &events[0] {
        TunnelEvent::Bridged { pattern, id, name, .. } => {
            assert_eq!(*pattern, MessagingPattern::PublishSubscribe);
            assert_eq!(id, "p");
            assert_eq!(name, "name of p");
        }
        other => panic!("unexpected event {other:?}"),
    }
    match &events[1] {
        TunnelEvent::Bridged { pattern, id, .. } => {
            assert_eq!(*pattern, MessagingPattern::Event);
            assert_eq!(id, "e");
        }
        other => panic!("unexpected event {other:?}"),
    }
}

#[test]
fn same_identity_under_two_patterns_is_listed_once() {
    let backend = FakeBackend {
        local: vec![
            service("x", MessagingPattern::PublishSubscribe),
            service("x", MessagingPattern::Event),
        ],
        ..Default::default()
    };
    let mut t = Tunnel::create(backend);
    assert_eq!(t.discover(Scope::Iceoryx), Ok(()));
    // one connection per pattern, but the snapshot names the identity once
    assert_eq!(t.backend().created, vec!["x".to_string(), "x".to_string()]);
    assert_eq!(t.tunneled_services(), vec!["x".to_string()]);
}

#[test]
fn failing_propagation_does_not_stop_the_others() {
    let backend = FakeBackend {
        local: vec![
            service("a", MessagingPattern::PublishSubscribe),
            service("bad", MessagingPattern::PublishSubscribe),
            service("c", MessagingPattern::Event),
        ],
        failing_propagation: vec!["bad".to_string()],
        ..Default::default()
    };
    let calls = backend.calls.clone();
    let mut t = Tunnel::create(backend);
    assert_eq!(t.discover(Scope::Iceoryx), Ok(()));
    t.take_events();
    t.propagate();
    assert_eq!(
        sorted(calls.borrow().clone()),
        vec!["a".to_string(), "bad".to_string(), "c".to_string()]
    );
    let events = t.take_events();
    assert_eq!(events.len(), 1);
    match &events[0] {
        TunnelEvent::PropagationFailed { id, error } => {
            assert_eq!(id, "bad");
            assert_eq!(*error, PropagationError::Error);
        }
        other => panic!("unexpected event {other:?}"),
    }
    // the next tick drives every connection again
    t.propagate();
    assert_eq!(calls.borrow().len(), 6);
}

#[test]
fn propagate_without_connections_logs_nothing() {
    let mut t = Tunnel::create(FakeBackend::default());
    t.propagate();
    assert!(t.take_events().is_empty());
}

#[test]
fn failing_creation_does_not_stop_the_others() {
    let backend = FakeBackend {
        local: vec![
            service("bad", MessagingPattern::PublishSubscribe),
            service("good", MessagingPattern::PublishSubscribe),
        ],
        failing_creation: vec!["bad".to_string()],
        ..Default::default()
    };
    let mut t = Tunnel::create(backend);
    assert_eq!(t.discover(Scope::Iceoryx), Ok(()));
    assert_eq!(t.tunneled_services(), vec!["good".to_string()]);
    let events = t.take_events();
    assert_eq!(events.len(), 2);
    match &events[0] {
        TunnelEvent::BridgeFailed { source, id, error, .. } => {
            assert_eq!(*source, Scope::Iceoryx);
            assert_eq!(id, "bad");
            assert_eq!(*error, ConnectionError::Error);
        }
        other => panic!("unexpected event {other:?}"),
    }
    assert_eq!(bridged_ids(&events), vec![(Scope::Iceoryx, "good".to_string())]);
    // a failed service is attempted again on the next pass
    assert_eq!(t.discover(Scope::Iceoryx), Ok(()));
    assert_eq!(
        t.backend().created,
        vec!["bad".to_string(), "good".to_string(), "bad".to_string()]
    );
}

#[test]
fn local_scope_queries_only_the_local_source() {
    let backend = FakeBackend {
        local: vec![service("l", MessagingPattern::Event)],
        remote: vec![service("r", MessagingPattern::Event)],
        ..Default::default()
    };
    let mut t = Tunnel::create(backend);
    assert_eq!(t.discover(Scope::Iceoryx), Ok(()));
    assert_eq!(t.backend().scans, vec!["local"]);
    assert_eq!(t.tunneled_services(), vec!["l".to_string()]);
}

#[test]
fn remote_scope_queries_only_the_remote_source() {
    let backend = FakeBackend {
        local: vec![service("l", MessagingPattern::Event)],
        remote: vec![service("r", MessagingPattern::Event)],
        ..Default::default()
    };
    let mut t = Tunnel::create(backend);
    assert_eq!(t.discover(Scope::Zenoh), Ok(()));
    assert_eq!(t.backend().scans, vec!["remote"]);
    assert_eq!(bridged_ids(&t.take_events()), vec![(Scope::Zenoh, "r".to_string())]);
}

#[test]
fn both_scope_finishes_local_before_remote() {
    let backend = FakeBackend {
        local: vec![
            service("l1", MessagingPattern::PublishSubscribe),
            service("l2", MessagingPattern::Event),
        ],
        remote: vec![
            service("r1", MessagingPattern::Event),
            service("l1", MessagingPattern::PublishSubscribe),
        ],
        ..Default::default()
    };
    let mut t = Tunnel::create(backend);
    assert_eq!(t.discover(Scope::Both), Ok(()));
    assert_eq!(t.backend().scans, vec!["local", "remote"]);
    assert_eq!(
        bridged_ids(&t.take_events()),
        vec![
            (Scope::Iceoryx, "l1".to_string()),
            (Scope::Iceoryx, "l2".to_string()),
            (Scope::Zenoh, "r1".to_string()),
        ]
    );
}

#[test]
fn local_discovery_failure_skips_remote_and_keeps_what_was_found() {
    let backend = FakeBackend {
        local: vec![service("l", MessagingPattern::PublishSubscribe)],
        remote: vec![service("r", MessagingPattern::PublishSubscribe)],
        local_fails: true,
        ..Default::default()
    };
    let mut t = Tunnel::create(backend);
    assert_eq!(t.discover(Scope::Both), Err(DiscoveryError::Error));
    assert_eq!(t.backend().scans, vec!["local"]);
    assert_eq!(t.tunneled_services(), vec!["l".to_string()]);
}

#[test]
fn remote_discovery_failure_is_reported() {
    let backend = FakeBackend {
        local: vec![service("l", MessagingPattern::PublishSubscribe)],
        remote: vec![service("r", MessagingPattern::Event)],
        remote_fails: true,
        ..Default::default()
    };
    let mut t = Tunnel::create(backend);
    assert_eq!(t.discover(Scope::Both), Err(DiscoveryError::Error));
    assert_eq!(t.backend().scans, vec!["local", "remote"]);
    assert_eq!(t.tunneled_services(), vec!["l".to_string(), "r".to_string()]);
}

#[test]
fn snapshot_is_the_union_of_both_registries() {
    let backend = FakeBackend {
        local: vec![
            service("a", MessagingPattern::Event),
            service("b", MessagingPattern::PublishSubscribe),
        ],
        remote: vec![service("c", MessagingPattern::PublishSubscribe)],
        ..Default::default()
    };
    let mut t = Tunnel::create(backend);
    assert_eq!(t.discover(Scope::Both), Ok(()));
    assert_eq!(t.discover(Scope::Zenoh), Ok(()));
    assert_eq!(
        t.tunneled_services(),
        vec!["b".to_string(), "c".to_string(), "a".to_string()]
    );
}

#[test]
fn register_files_an_outcome() {
    let mut t = Tunnel::create(FakeBackend::default());
    let calls = Rc::new(RefCell::new(Vec::new()));
    let d = service("s", MessagingPattern::Event);
    t.register(Scope::Zenoh, &d, Err(ConnectionError::Error));
    assert!(t.tunneled_services().is_empty());
    let conn = FakeConnection { id: "s".to_string(), fail: false, calls: calls.clone() };
    t.register(Scope::Zenoh, &d, Ok(conn));
    assert_eq!(t.tunneled_services(), vec!["s".to_string()]);
    // a second connection for the same service is not kept
    let again = FakeConnection { id: "s".to_string(), fail: false, calls: calls.clone() };
    t.register(Scope::Iceoryx, &d, Ok(again));
    assert_eq!(t.tunneled_services(), vec!["s".to_string()]);
    assert_eq!(t.take_events().len(), 2);
    t.propagate();
    assert_eq!(calls.borrow().len(), 1);
}

#[test]
fn reconcile_found_handles_each_descriptor() {
    let mut t = Tunnel::create(FakeBackend::default());
    let found = vec![
        service("a", MessagingPattern::PublishSubscribe),
        service("a", MessagingPattern::PublishSubscribe),
        service("u", MessagingPattern::Unsupported),
    ];
    let _ = t.reconcile_found(Scope::Iceoryx, &found);
    assert_eq!(t.tunneled_services(), vec!["a".to_string()]);
    assert_eq!(t.backend().created, vec!["a".to_string()]);
}

#[test]
fn settled_pass_calls_no_creator() {
    let backend = FakeBackend {
        local: vec![
            service("a", MessagingPattern::PublishSubscribe),
            service("u", MessagingPattern::Unsupported),
        ],
        ..Default::default()
    };
    let mut t = Tunnel::create(backend);
    assert_eq!(t.discover(Scope::Iceoryx), Ok(()));
    t.take_events();
    let again = vec![
        service("a", MessagingPattern::PublishSubscribe),
        service("u", MessagingPattern::Unsupported),
    ];
    let _ = t.reconcile_found(Scope::Zenoh, &again);
    assert_eq!(t.backend().created, vec!["a".to_string()]);
    assert!(t.take_events().is_empty());
    assert_eq!(t.tunneled_services(), vec!["a".to_string()]);
}

#[test]
fn service_reported_by_both_sources_is_bridged_from_the_local_report() {
    let backend = FakeBackend {
        local: vec![service("s", MessagingPattern::Event)],
        remote: vec![service("s", MessagingPattern::Event)],
        ..Default::default()
    };
    let mut t = Tunnel::create(backend);
    assert_eq!(t.discover(Scope::Both), Ok(()));
    assert_eq!(t.backend().created, vec!["s".to_string()]);
    assert_eq!(bridged_ids(&t.take_events()), vec![(Scope::Iceoryx, "s".to_string())]);
}
