use vstd::prelude::*;

verus! {

/// Selects which discovery source(s) take part in one discovery pass.
///
/// `Iceoryx` is the local shared-memory domain, `Zenoh` the network domain,
/// `Both` runs the local one first and then the network one.
#[derive(Debug, Clone, Copy, PartialEq, Eq, Structural)]
pub enum Scope {
    Iceoryx,
    Zenoh,
    Both,
}

/// The text by which a scope is shown in log output.
pub open spec fn scope_text(s: Scope) -> Seq<char> {
    match s {
        Scope::Iceoryx => seq!['i', 'c', 'e', 'o', 'r', 'y', 'x'],
        Scope::Zenoh => seq!['z', 'e', 'n', 'o', 'h'],
        Scope::Both => seq!['b', 'o', 't', 'h'],
    }
}

impl Scope {
    /// Whether a pass with this scope queries the local discovery source.
    pub open spec fn includes_local(self) -> bool {
        self == Scope::Iceoryx || self == Scope::Both
    }

    /// Whether a pass with this scope queries the network discovery source.
    pub open spec fn includes_remote(self) -> bool {
        self == Scope::Zenoh || self == Scope::Both
    }

    /// Lower-case name of the scope: "iceoryx", "zenoh" or "both".
    pub fn to_string(&self) -> (r: String)
        ensures
            r@ == scope_text(*self),
    {
        let r = match self {
            Scope::Iceoryx => String::from_str("iceoryx"),
            Scope::Zenoh => String::from_str("zenoh"),
            Scope::Both => String::from_str("both"),
        };
        proof {
            reveal_strlit("iceoryx");
            reveal_strlit("zenoh");
            reveal_strlit("both");
        }
        r
    }
}

/// Failure while building a tunnel: opening a transport or a discovery source.
#[derive(Debug, Clone, Copy, PartialEq, Eq, Structural)]
pub enum CreationError {
    Error,
}

impl CreationError {
    /// The error's name, as "CreationError::Error".
    pub fn to_string(&self) -> (r: String)
        ensures
            r@ == "CreationError::Error"@,
    {
        String::from_str("CreationError::Error")
    }
}

/// Failure of a discovery source to complete a scan of its domain.
#[derive(Debug, Clone, Copy, PartialEq, Eq, Structural)]
pub enum DiscoveryError {
    Error,
}

impl DiscoveryError {
    /// The error's name, as "DiscoveryError::Error".
    pub fn to_string(&self) -> (r: String)
        ensures
            r@ == "DiscoveryError::Error"@,
    {
        String::from_str("DiscoveryError::Error")
    }
}

/// Failure to establish the bridging connection of one service.
#[derive(Debug, Clone, Copy, PartialEq, Eq, Structural)]
pub enum ConnectionError {
    Error,
}

/// Failure of one connection to forward its pending data on one tick.
#[derive(Debug, Clone, Copy, PartialEq, Eq, Structural)]
pub enum PropagationError {
    Error,
}

/// Settings of a tunnel: an optional name of the service on which the local
/// domain announces its services; `None` selects the domain's default.
#[derive(Debug, Clone)]
pub struct TunnelConfig {
    pub discovery_service: Option<String>,
}

impl Default for TunnelConfig {
    /// The configuration without a discovery service override.
    fn default() -> (r: TunnelConfig)
        ensures
            r.discovery_service is None,
    {
        TunnelConfig { discovery_service: None }
    }
}

/// Communication style of a service. Only the first two can be bridged;
/// every other style is reported as `Unsupported` and skipped.
#[derive(Debug, Clone, Copy, PartialEq, Eq, Structural)]
pub enum MessagingPattern {
    PublishSubscribe,
    Event,
    Unsupported,
}

/// A service as a discovery source reports it.
#[derive(Debug, Clone)]
pub struct ServiceDescriptor {
    pub id: String,
    pub name: String,
    pub pattern: MessagingPattern,
}

/// What a descriptor says, as plain values.
pub struct DescriptorView {
    pub id: Seq<char>,
    pub name: Seq<char>,
    pub pattern: MessagingPattern,
}

impl View for ServiceDescriptor {
    type V = DescriptorView;

    open spec fn view(&self) -> DescriptorView {
        DescriptorView { id: self.id@, name: self.name@, pattern: self.pattern }
    }
}

/// Something that happened in a tunnel and is reported to its driver.
#[derive(Debug, Clone)]
pub enum TunnelEvent {
    /// A new connection now bridges a service found by `source`.
    Bridged { source: Scope, pattern: MessagingPattern, id: String, name: String },
    /// The connection of a service found by `source` could not be created.
    BridgeFailed { source: Scope, pattern: MessagingPattern, id: String, error: ConnectionError },
    /// A connection failed to forward its data on one tick.
    PropagationFailed { id: String, error: PropagationError },
}

/// A tunnel event as plain values.
pub enum EventView {
    Bridged { source: Scope, pattern: MessagingPattern, id: Seq<char>, name: Seq<char> },
    BridgeFailed { source: Scope, pattern: MessagingPattern, id: Seq<char>, error: ConnectionError },
    PropagationFailed { id: Seq<char>, error: PropagationError },
}

impl View for TunnelEvent {
    type V = EventView;

    open spec fn view(&self) -> EventView {
        match self {
            TunnelEvent::Bridged { source, pattern, id, name } => EventView::Bridged {
                source: *source,
                pattern: *pattern,
                id: id@,
                name: name@,
            },
            TunnelEvent::BridgeFailed { source, pattern, id, error } => EventView::BridgeFailed {
                source: *source,
                pattern: *pattern,
                id: id@,
                error: *error,
            },
            TunnelEvent::PropagationFailed { id, error } => EventView::PropagationFailed {
                id: id@,
                error: *error,
            },
        }
    }
}

} // verus!
