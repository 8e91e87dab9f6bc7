use vstd::prelude::*;

use crate::model::apply_all;
use crate::model::empty_state;
use crate::model::failure_log;
use crate::model::lemma_apply_concat;
use crate::model::needs_bridge;
use crate::model::reconcile;
use crate::model::requests_of;
use crate::model::lemma_requests_concat;
use crate::model::sources_fit;
use crate::model::Step;
use crate::model::ScanRecord;
use crate::model::CallRecord;
use crate::model::paired;
use crate::model::reported;
use crate::model::follows_reports;
use crate::model::scans_fit;
use crate::model::TunnelState;
use crate::model::unique_registries;
use crate::registry::ids_of;
use crate::model::lemma_push_contains;
use crate::model::lemma_push_unique;
use crate::registry::Registry;
use crate::types::ConnectionError;
use crate::types::DescriptorView;
use crate::types::DiscoveryError;
use crate::types::EventView;
use crate::types::MessagingPattern;
use crate::types::PropagationError;
use crate::types::Scope;
use crate::types::ServiceDescriptor;
use crate::types::TunnelEvent;

verus! {

/// The bridging connection of one service.
pub trait Connection {
    /// Forwards the data pending in either direction for this service. Safe to
    /// call repeatedly; does a bounded amount of work per call.
    fn propagate(&self) -> Result<(), PropagationError>;
}

/// The two domains as a tunnel drives them: one discovery source for each,
/// and the transport handles from which connections are made.
pub trait Backend {
    type Connection: Connection;

    /// Scans the local domain, pushing one descriptor onto `found` for each
    /// service visible there. On failure the descriptors pushed so far stand.
    fn discover_local(&mut self, found: &mut Vec<ServiceDescriptor>) -> Result<
        (),
        DiscoveryError,
    >;

    /// Scans the network domain, in the same way as `discover_local`.
    fn discover_remote(&mut self, found: &mut Vec<ServiceDescriptor>) -> Result<
        (),
        DiscoveryError,
    >;

    /// Establishes the connection that bridges one service. On failure it
    /// has released whatever it acquired.
    fn create_connection(&mut self, descriptor: &ServiceDescriptor) -> Result<
        Self::Connection,
        ConnectionError,
    >;
}

/// What a connection attempt gave, with the connection itself left out.
pub open spec fn outcome_of<C>(r: Result<C, ConnectionError>) -> Result<(), ConnectionError> {
    match r {
        Ok(_) => Ok(()),
        Err(e) => Err(e),
    }
}

/// The views of a sequence of events.
pub open spec fn events_view(v: Seq<TunnelEvent>) -> Seq<EventView> {
    v.map_values(|e: TunnelEvent| e@)
}

/// A bridge between the local and the network domain that keeps at most one
/// connection per service and pattern.
pub struct Tunnel<B: Backend> {
    backend: B,
    publish_subscribe_connections: Registry<B::Connection>,
    event_connections: Registry<B::Connection>,
    events: Vec<TunnelEvent>,
    requested: Ghost<Seq<DescriptorView>>,
    scans: Ghost<Seq<ScanRecord>>,
    calls: Ghost<Seq<CallRecord>>,
}

impl<B: Backend> Tunnel<B> {
    /// What the tunnel holds, as plain values.
    pub closed spec fn state(&self) -> TunnelState {
        TunnelState {
            publish_subscribe: self.publish_subscribe_connections.view(),
            event: self.event_connections.view(),
            log: events_view(self.events@),
        }
    }

    /// Every descriptor handed to the backend's connection creator, in order.
    pub closed spec fn requested(&self) -> Seq<DescriptorView> {
        self.requested@
    }

    /// Every scan of a discovery source, in order.
    pub closed spec fn scans(&self) -> Seq<ScanRecord> {
        self.scans@
    }

    /// Every call of a connection's propagation, in order.
    pub closed spec fn calls(&self) -> Seq<CallRecord> {
        self.calls@
    }

    /// The scans made since `earlier`.
    pub open spec fn scans_since(&self, earlier: &Self) -> Seq<ScanRecord> {
        self.scans().skip(earlier.scans().len() as int)
    }

    /// The backend the tunnel drives.
    pub closed spec fn backend_view(&self) -> B {
        self.backend
    }

    /// The connections held for a pattern, entry by entry in the order of
    /// the pattern's identities; none for an unsupported pattern.
    pub closed spec fn connections(&self, p: MessagingPattern) -> Seq<B::Connection> {
        match p {
            MessagingPattern::PublishSubscribe => self.publish_subscribe_connections.stored(),
            MessagingPattern::Event => self.event_connections.stored(),
            MessagingPattern::Unsupported => Seq::empty(),
        }
    }

    /// Every connection of `earlier` is still held, in its place.
    pub open spec fn keeps_connections(&self, earlier: &Self) -> bool {
        &&& earlier.connections(MessagingPattern::PublishSubscribe).is_prefix_of(
            self.connections(MessagingPattern::PublishSubscribe),
        )
        &&& earlier.connections(MessagingPattern::Event).is_prefix_of(
            self.connections(MessagingPattern::Event),
        )
    }

    /// Holding the same connections keeps them.
    proof fn lemma_keeps_same(earlier: &Self, later: &Self)
        requires
            later.connections(MessagingPattern::PublishSubscribe) == earlier.connections(
                MessagingPattern::PublishSubscribe,
            ),
            later.connections(MessagingPattern::Event) == earlier.connections(
                MessagingPattern::Event,
            ),
        ensures
            later.keeps_connections(earlier),
    {
        let a = earlier.connections(MessagingPattern::PublishSubscribe);
        let b = earlier.connections(MessagingPattern::Event);
        assert(a =~= a.subrange(0, a.len() as int));
        assert(b =~= b.subrange(0, b.len() as int));
    }

    /// Keeping connections is transitive.
    proof fn lemma_keeps_trans(a: &Self, b: &Self, c: &Self)
        requires
            b.keeps_connections(a),
            c.keeps_connections(b),
        ensures
            c.keeps_connections(a),
    {
        let p = MessagingPattern::PublishSubscribe;
        let e = MessagingPattern::Event;
        assert(a.connections(p) =~= c.connections(p).subrange(0, a.connections(p).len() as int)) by {
            assert forall|i: int| 0 <= i < a.connections(p).len() implies a.connections(p)[i]
                == c.connections(p)[i] by {
                assert(a.connections(p)[i] == b.connections(p).subrange(0, a.connections(p).len() as int)[i]);
                assert(b.connections(p)[i] == c.connections(p).subrange(0, b.connections(p).len() as int)[i]);
            }
        }
        assert(a.connections(e) =~= c.connections(e).subrange(0, a.connections(e).len() as int)) by {
            assert forall|i: int| 0 <= i < a.connections(e).len() implies a.connections(e)[i]
                == c.connections(e)[i] by {
                assert(a.connections(e)[i] == b.connections(e).subrange(0, a.connections(e).len() as int)[i]);
                assert(b.connections(e)[i] == c.connections(e).subrange(0, b.connections(e).len() as int)[i]);
            }
        }
    }

    /// The registries are well formed.
    pub closed spec fn wf(&self) -> bool {
        self.publish_subscribe_connections.wf() && self.event_connections.wf()
    }

    /// No service is bridged twice for one pattern.
    pub proof fn lemma_unique(&self)
        requires
            self.wf(),
        ensures
            unique_registries(self.state()),
            self.connections(MessagingPattern::PublishSubscribe).len()
                == self.state().publish_subscribe.len(),
            self.connections(MessagingPattern::Event).len() == self.state().event.len(),
    {
        self.publish_subscribe_connections.lemma_unique();
        self.event_connections.lemma_unique();
    }

    /// A tunnel over `backend`, with no connection yet.
    pub fn create(backend: B) -> (r: Self)
        ensures
            r.wf(),
            r.state() == empty_state(),
            r.backend_view() == backend,
            r.requested() == Seq::<DescriptorView>::empty(),
            r.scans() == Seq::<ScanRecord>::empty(),
            r.calls() == Seq::<CallRecord>::empty(),
            r.connections(MessagingPattern::PublishSubscribe) == Seq::<B::Connection>::empty(),
            r.connections(MessagingPattern::Event) == Seq::<B::Connection>::empty(),
    {
        let r = Tunnel {
            backend,
            publish_subscribe_connections: Registry::new(),
            event_connections: Registry::new(),
            events: Vec::new(),
            requested: Ghost(Seq::empty()),
            scans: Ghost(Seq::empty()),
            calls: Ghost(Seq::empty()),
        };
        assert(events_view(r.events@) =~= Seq::<EventView>::empty());
        r
    }

    /// Files the outcome of a connection attempt for a descriptor reported by
    /// `source`: a new connection joins the registry of its pattern unless the
    /// service is already bridged there, and the attempt is logged.
    pub fn register(
        &mut self,
        source: Scope,
        descriptor: &ServiceDescriptor,
        created: Result<B::Connection, ConnectionError>,
    )
        requires
            old(self).wf(),
        ensures
            final(self).wf(),
            final(self).state() == reconcile(
                old(self).state(),
                (Step { source, descriptor: descriptor@, created: outcome_of(created) }),
            ),
            final(self).backend_view() == old(self).backend_view(),
            final(self).requested() == old(self).requested(),
            final(self).scans() == old(self).scans(),
            final(self).calls() == old(self).calls(),
            needs_bridge(old(self).state(), descriptor@) && created is Ok ==> final(self).connections(descriptor.pattern) == old(self).connections(descriptor.pattern).push(
                created->Ok_0,
            ),
            forall|p: MessagingPattern|
                !(needs_bridge(old(self).state(), descriptor@) && created is Ok && p
                    == descriptor.pattern) ==> #[trigger] final(self).connections(p) == old(self).connections(p),
    {
        let ghost step = Step { source, descriptor: descriptor@, created: outcome_of(created) };
        let pattern = descriptor.pattern;
        let present = match pattern {
            MessagingPattern::PublishSubscribe => self.publish_subscribe_connections.contains(
                &descriptor.id,
            ),
            MessagingPattern::Event => self.event_connections.contains(&descriptor.id),
            MessagingPattern::Unsupported => true,
        };
        if present {
            return ;
        }
        match created {
            Ok(connection) => {
                let event = TunnelEvent::Bridged {
                    source,
                    pattern,
                    id: descriptor.id.clone(),
                    name: descriptor.name.clone(),
                };
                if pattern == MessagingPattern::PublishSubscribe {
                    self.publish_subscribe_connections.insert(descriptor.id.clone(), connection);
                } else {
                    self.event_connections.insert(descriptor.id.clone(), connection);
                }
                self.push_event(event);
            },
            Err(error) => {
                let event = TunnelEvent::BridgeFailed {
                    source,
                    pattern,
                    id: descriptor.id.clone(),
                    error,
                };
                self.push_event(event);
            },
        }
        assert(self.state() =~= reconcile(old(self).state(), step));
    }

    fn push_event(&mut self, event: TunnelEvent)
        ensures
            final(self).backend == old(self).backend,
            final(self).publish_subscribe_connections == old(self).publish_subscribe_connections,
            final(self).event_connections == old(self).event_connections,
            final(self).requested == old(self).requested,
            final(self).scans == old(self).scans,
            final(self).calls == old(self).calls,
            events_view(final(self).events@) == events_view(old(self).events@).push(event@),
    {
        self.events.push(event);
        assert(events_view(self.events@) =~= events_view(old(self).events@).push(event@));
    }

    /// Reconciles one descriptor reported by `source`: a connection is created
    /// only where the pattern is bridgeable and the service not yet bridged.
    fn on_discovery(&mut self, source: Scope, descriptor: &ServiceDescriptor)
        requires
            old(self).wf(),
        ensures
            final(self).wf(),
            exists|c: Result<(), ConnectionError>|
                final(self).state() == #[trigger] reconcile(
                    old(self).state(),
                    (Step { source, descriptor: descriptor@, created: c }),
                ),
            !needs_bridge(old(self).state(), descriptor@) ==> {
                &&& final(self).backend_view() == old(self).backend_view()
                &&& final(self).connections(MessagingPattern::PublishSubscribe) == old(
                    self).connections(MessagingPattern::PublishSubscribe)
                &&& final(self).connections(MessagingPattern::Event) == old(self).connections(
                    MessagingPattern::Event,
                )
            },
            final(self).keeps_connections(old(self)),
            final(self).requested() == if needs_bridge(old(self).state(), descriptor@) {
                old(self).requested().push(descriptor@)
            } else {
                old(self).requested()
            },
            final(self).scans() == old(self).scans(),
            final(self).calls() == old(self).calls(),
            forall|p: MessagingPattern|
                p != descriptor.pattern ==> #[trigger] final(self).connections(p) == old(self).connections(p),
    {
        let needed = match descriptor.pattern {
            MessagingPattern::PublishSubscribe => !self.publish_subscribe_connections.contains(
                &descriptor.id,
            ),
            MessagingPattern::Event => !self.event_connections.contains(&descriptor.id),
            MessagingPattern::Unsupported => false,
        };
        if needed {
            proof {
                self.requested@ = self.requested@.push(descriptor@);
            }
            let created = self.backend.create_connection(descriptor);
            let ghost c = outcome_of(created);
            self.register(source, descriptor, created);
            assert(self.state() == reconcile(
                old(self).state(),
                (Step { source, descriptor: descriptor@, created: c }),
            ));
        } else {
            assert(!needs_bridge(self.state(), descriptor@));
            assert(self.state() == reconcile(
                old(self).state(),
                (Step { source, descriptor: descriptor@, created: Ok(()) }),
            ));
        }
    }

    /// Reconciles, in order, each descriptor that one scan of `source`
    /// reported; the steps returned say what each connection attempt gave.
    pub fn reconcile_found(&mut self, source: Scope, found: &Vec<ServiceDescriptor>) -> (steps: Ghost<
        Seq<Step>,
    >)
        requires
            old(self).wf(),
        ensures
            final(self).wf(),
            final(self).state() == apply_all(old(self).state(), steps@),
            steps@.len() == found@.len(),
            forall|i: int|
                0 <= i < steps@.len() ==> (#[trigger] steps@[i]).source == source
                    && steps@[i].descriptor == found@[i]@,
            final(self).keeps_connections(old(self)),
            final(self).requested() == old(self).requested() + requests_of(old(self).state(), steps@),
            final(self).scans() == old(self).scans(),
            final(self).calls() == old(self).calls(),
            (forall|i: int|
                0 <= i < found@.len() ==> !needs_bridge(old(self).state(), #[trigger] found@[i]@))
                ==> {
                &&& final(self).backend_view() == old(self).backend_view()
                &&& final(self).state() == old(self).state()
                &&& final(self).connections(MessagingPattern::PublishSubscribe) == old(self).connections(MessagingPattern::PublishSubscribe)
                &&& final(self).connections(MessagingPattern::Event) == old(self).connections(
                    MessagingPattern::Event,
                )
            },
    {
        let ghost mut steps: Seq<Step> = Seq::empty();
        let mut i: usize = 0;
        while i < found.len()
            invariant
                self.wf(),
                0 <= i <= found@.len(),
                steps.len() == i,
                self.state() == apply_all(old(self).state(), steps),
                forall|k: int|
                    0 <= k < steps.len() ==> (#[trigger] steps[k]).source == source
                        && steps[k].descriptor == found@[k]@,
                self.keeps_connections(old(self)),
                self.requested() == old(self).requested() + requests_of(old(self).state(), steps),
                self.scans() == old(self).scans(),
                self.calls() == old(self).calls(),
                (forall|k: int|
                    0 <= k < found@.len() ==> !needs_bridge(old(self).state(), #[trigger] found@[k]@))
                    ==> {
                    &&& self.backend_view() == old(self).backend_view()
                    &&& self.state() == old(self).state()
                    &&& self.connections(MessagingPattern::PublishSubscribe) == old(self).connections(MessagingPattern::PublishSubscribe)
                    &&& self.connections(MessagingPattern::Event) == old(self).connections(
                        MessagingPattern::Event,
                    )
                },
            decreases found@.len() - i,
        {
            let ghost before = self.state();
            let ghost prev = *self;
            self.on_discovery(source, &found[i]);
            proof {
                let c = choose|c: Result<(), ConnectionError>|
                    self.state() == #[trigger] reconcile(
                        before,
                        (Step { source, descriptor: found@[i as int]@, created: c }),
                    );
                Self::lemma_keeps_trans(old(self), &prev, self);
                if forall|k: int|
                    0 <= k < found@.len() ==> !needs_bridge(old(self).state(), #[trigger] found@[k]@) {
                    assert(!needs_bridge(before, found@[i as int]@));
                }
                let step = Step { source, descriptor: found@[i as int]@, created: c };
                let next = steps.push(step);
                assert(next.drop_last() =~= steps);
                assert(next.last() == step);
                let earlier = old(self).requested();
                let r = requests_of(old(self).state(), steps);
                assert((earlier + r).push(step.descriptor) =~= earlier + r.push(step.descriptor));
                steps = next;
            }
            i = i + 1;
        }
        Ghost(steps)
    }

    /// Runs one discovery pass over the domains that `scope` selects, the
    /// local one first, and bridges each newly found service of a bridgeable
    /// pattern. A source that fails ends the pass with its error; what was
    /// bridged until then stays.
    pub fn discover(&mut self, scope: Scope) -> (r: Result<(), DiscoveryError>)
        requires
            old(self).wf(),
        ensures
            final(self).wf(),
            final(self).keeps_connections(old(self)),
            final(self).calls() == old(self).calls(),
            final(self).scans() == old(self).scans() + final(self).scans_since(old(self)),
            scans_fit(scope, final(self).scans_since(old(self))),
            r is Ok <==> final(self).scans_since(old(self)).last().outcome is Ok,
            r is Err ==> final(self).scans_since(old(self)).last().outcome == r,
            exists|steps: Seq<Step>|
                follows_reports(steps, reported(final(self).scans_since(old(self))))
                    && sources_fit(scope, steps) && final(self).state() == #[trigger] apply_all(
                    old(self).state(),
                    steps,
                ) && final(self).requested() == old(self).requested() + requests_of(
                    old(self).state(),
                    steps,
                ),
    {
        let ghost start = self.state();
        let ghost scans0 = self.scans();
        let ghost mut steps: Seq<Step> = Seq::empty();
        let ghost mut new_scans: Seq<ScanRecord> = Seq::empty();
        proof {
            Self::lemma_keeps_same(old(self), self);
            assert(scans0 + new_scans =~= scans0);
            assert(self.requested() + requests_of(start, steps) =~= self.requested());
        }
        if scope == Scope::Iceoryx || scope == Scope::Both {
            let mut found: Vec<ServiceDescriptor> = Vec::new();
            let scanned = self.backend.discover_local(&mut found);
            let ghost record = ScanRecord {
                source: Scope::Iceoryx,
                found: found@.map_values(|d: ServiceDescriptor| d@),
                outcome: scanned,
            };
            proof {
                self.scans@ = self.scans@.push(record);
                new_scans = seq![record];
            }
            let ghost scanned_state = *self;
            proof {
                Self::lemma_keeps_same(old(self), &scanned_state);
            }
            let local = self.reconcile_found(Scope::Iceoryx, &found);
            proof {
                Self::lemma_keeps_trans(old(self), &scanned_state, self);
                steps = local@;
                assert(new_scans.drop_last() =~= Seq::<ScanRecord>::empty());
                assert(new_scans.last() == record);
                assert(reported(Seq::<ScanRecord>::empty()) == Seq::<(Scope, DescriptorView)>::empty());
                assert(reported(new_scans) =~= record.found.map_values(
                    |d: DescriptorView| (Scope::Iceoryx, d),
                ));
                assert(steps =~= Seq::<Step>::empty() + local@);
                assert(self.scans() =~= scans0 + new_scans);
                assert(self.scans_since(old(self)) =~= new_scans);
            }
            if let Err(e) = scanned {
                assert(sources_fit(scope, steps));
                return Err(e);
            }
            assert(scanned is Ok);
            assert(new_scans.last() == record);
            assert(new_scans.last().outcome is Ok);
        }
        assert(sources_fit(scope, steps));
        assert(self.state() == apply_all(start, steps));
        assert(follows_reports(steps, reported(new_scans)));
        if scope == Scope::Zenoh || scope == Scope::Both {
            let ghost before_scan = *self;
            let mut found: Vec<ServiceDescriptor> = Vec::new();
            let scanned = self.backend.discover_remote(&mut found);
            let ghost record = ScanRecord {
                source: Scope::Zenoh,
                found: found@.map_values(|d: ServiceDescriptor| d@),
                outcome: scanned,
            };
            proof {
                self.scans@ = self.scans@.push(record);
            }
            let ghost scanned_state = *self;
            proof {
                Self::lemma_keeps_same(&before_scan, &scanned_state);
                Self::lemma_keeps_trans(old(self), &before_scan, &scanned_state);
            }
            let remote = self.reconcile_found(Scope::Zenoh, &found);
            proof {
                Self::lemma_keeps_trans(old(self), &scanned_state, self);
                lemma_apply_concat(start, steps, remote@);
                lemma_requests_concat(start, steps, remote@);
                let earlier = old(self).requested();
                assert(earlier + requests_of(start, steps) + requests_of(
                    apply_all(start, steps),
                    remote@,
                ) =~= earlier + (requests_of(start, steps) + requests_of(
                    apply_all(start, steps),
                    remote@,
                )));
                let all = steps + remote@;
                assert forall|i: int| 0 <= i < all.len() implies {
                    let src = #[trigger] all[i].source;
                    &&& src != Scope::Both
                    &&& (src == Scope::Iceoryx ==> scope.includes_local())
                    &&& (src == Scope::Zenoh ==> scope.includes_remote())
                } by {
                    if i >= steps.len() {
                        assert(all[i] == remote@[i - steps.len()]);
                    }
                }
                assert forall|i: int, j: int|
                    0 <= i < j < all.len() && #[trigger] all[i].source == Scope::Zenoh
                        implies #[trigger] all[j].source == Scope::Zenoh by {
                    if j < steps.len() {
                        assert(all[i] == steps[i]);
                        assert(all[j] == steps[j]);
                    } else {
                        assert(all[j] == remote@[j - steps.len()]);
                    }
                }
                let first = reported(new_scans);
                let ns = new_scans.push(record);
                assert(ns.drop_last() =~= new_scans);
                let tail = record.found.map_values(|d: DescriptorView| (Scope::Zenoh, d));
                assert(reported(ns) == first + tail);
                assert forall|i: int| 0 <= i < all.len() implies (#[trigger] all[i]).source
                    == reported(ns)[i].0 && all[i].descriptor == reported(ns)[i].1 by {
                    if i < steps.len() {
                        assert(all[i] == steps[i]);
                        assert(reported(ns)[i] == first[i]);
                    } else {
                        assert(all[i] == remote@[i - steps.len()]);
                        assert(reported(ns)[i] == tail[i - steps.len()]);
                    }
                }
                steps = all;
                new_scans = ns;
                assert(self.scans() =~= scans0 + new_scans);
                assert(self.scans_since(old(self)) =~= new_scans);
            }
            if let Err(e) = scanned {
                return Err(e);
            }
            assert(scanned is Ok);
            assert(new_scans.last() == record);
            assert(new_scans.last().outcome is Ok);
        }
        assert(self.scans_since(old(self)) =~= new_scans);
        Ok(())
    }

    /// Asks every connection of both registries to forward its pending data.
    /// A failure is logged with the service's identity and does not keep the
    /// remaining connections from their turn; the pass itself never fails.
    pub fn propagate(&mut self)
        requires
            old(self).wf(),
        ensures
            final(self).wf(),
            final(self).state().publish_subscribe == old(self).state().publish_subscribe,
            final(self).state().event == old(self).state().event,
            final(self).backend_view() == old(self).backend_view(),
            final(self).requested() == old(self).requested(),
            final(self).connections(MessagingPattern::PublishSubscribe) == old(self).connections(
                MessagingPattern::PublishSubscribe,
            ),
            final(self).connections(MessagingPattern::Event) == old(self).connections(
                MessagingPattern::Event,
            ),
            final(self).scans() == old(self).scans(),
            exists|outcomes: Seq<Result<(), PropagationError>>|
                #![trigger paired(old(self).state().publish_subscribe + old(self).state().event, outcomes)]
                {
                    let ids = old(self).state().publish_subscribe + old(self).state().event;
                    &&& outcomes.len() == ids.len()
                    &&& final(self).calls() == old(self).calls() + paired(ids, outcomes)
                    &&& final(self).state().log == old(self).state().log + failure_log(
                        ids,
                        outcomes,
                    )
                },
    {
        let ghost ps = self.state().publish_subscribe;
        let ghost ev = self.state().event;
        let ghost log0 = self.state().log;
        let ghost mut outcomes: Seq<Result<(), PropagationError>> = Seq::empty();
        let ghost ids = ps + ev;
        let ghost calls0 = self.calls();
        assert(paired(ids, outcomes) =~= Seq::<CallRecord>::empty());
        assert(calls0 + paired(ids, outcomes) =~= calls0);
        let n = self.publish_subscribe_connections.len();
        let mut i: usize = 0;
        while i < n
            invariant
                self.wf(),
                n == ps.len(),
                0 <= i <= n,
                outcomes.len() == i,
                self.state().publish_subscribe == ps,
                self.state().event == ev,
                self.backend == old(self).backend,
                self.publish_subscribe_connections == old(self).publish_subscribe_connections,
                self.event_connections == old(self).event_connections,
                self.requested == old(self).requested,
                self.scans == old(self).scans,
                ids == ps + ev,
                self.calls() == calls0 + paired(ids, outcomes),
                self.state().log == log0 + failure_log(ps.take(i as int), outcomes),
            decreases n - i,
        {
            let result = self.publish_subscribe_connections.connection(i).propagate();
            proof {
                let next = outcomes.push(match result {
                    Ok(_) => Ok(()),
                    Err(e) => Err(e),
                });
                assert(next.drop_last() =~= outcomes);
                assert(ps.take(i + 1).drop_last() =~= ps.take(i as int));
                let call = (ids[i as int], next.last());
                assert(paired(ids, next) =~= paired(ids, outcomes).push(call));
                assert(calls0 + paired(ids, next) =~= (calls0 + paired(ids, outcomes)).push(call));
                self.calls@ = self.calls@.push(call);
                outcomes = next;
            }
            if let Err(error) = result {
                let id = self.publish_subscribe_connections.id(i).clone();
                self.push_event(TunnelEvent::PropagationFailed { id, error });
            }
            i = i + 1;
        }
        assert(ps.take(n as int) =~= ps + ev.take(0));
        let m = self.event_connections.len();
        let mut j: usize = 0;
        while j < m
            invariant
                self.wf(),
                n == ps.len(),
                m == ev.len(),
                0 <= j <= m,
                outcomes.len() == n + j,
                self.state().publish_subscribe == ps,
                self.state().event == ev,
                self.backend == old(self).backend,
                self.publish_subscribe_connections == old(self).publish_subscribe_connections,
                self.event_connections == old(self).event_connections,
                self.requested == old(self).requested,
                self.scans == old(self).scans,
                ids == ps + ev,
                self.calls() == calls0 + paired(ids, outcomes),
                self.state().log == log0 + failure_log(ps + ev.take(j as int), outcomes),
            decreases m - j,
        {
            let result = self.event_connections.connection(j).propagate();
            proof {
                let next = outcomes.push(match result {
                    Ok(_) => Ok(()),
                    Err(e) => Err(e),
                });
                assert(next.drop_last() =~= outcomes);
                assert((ps + ev.take(j + 1)).drop_last() =~= ps + ev.take(j as int));
                assert((ps + ev.take(j + 1)).last() == ev[j as int]);
                let call = (ids[n + j], next.last());
                assert(paired(ids, next) =~= paired(ids, outcomes).push(call));
                assert(calls0 + paired(ids, next) =~= (calls0 + paired(ids, outcomes)).push(call));
                self.calls@ = self.calls@.push(call);
                outcomes = next;
            }
            if let Err(error) = result {
                let id = self.event_connections.id(j).clone();
                self.push_event(TunnelEvent::PropagationFailed { id, error });
            }
            j = j + 1;
        }
        assert(ps + ev.take(m as int) =~= ps + ev);
        assert(outcomes.len() == ids.len());
    }

    /// A copy of the identity of every bridged service, each once: those of
    /// the publish-subscribe registry, then those of the event registry that
    /// are not already listed.
    pub fn tunneled_services(&self) -> (r: Vec<String>)
        requires
            self.wf(),
        ensures
            ids_of(r@).no_duplicates(),
            ids_of(r@).to_set() == self.state().publish_subscribe.to_set().union(
                self.state().event.to_set(),
            ),
    {
        let mut r = self.publish_subscribe_connections.ids();
        let ghost ps = self.state().publish_subscribe;
        let ghost ev = self.state().event;
        proof {
            self.lemma_unique();
            assert(ev.take(0).to_set() =~= Set::<Seq<char>>::empty());
            assert(ids_of(r@).to_set() =~= ps.to_set().union(ev.take(0).to_set()));
        }
        let m = self.event_connections.len();
        let mut j: usize = 0;
        while j < m
            invariant
                self.wf(),
                m == ev.len(),
                ev == self.event_connections.view(),
                ps == self.publish_subscribe_connections.view(),
                ev.no_duplicates(),
                0 <= j <= m,
                ids_of(r@).no_duplicates(),
                ids_of(r@).to_set() == ps.to_set().union(ev.take(j as int).to_set()),
            decreases m - j,
        {
            let s = self.event_connections.id(j).clone();
            let ghost before = ids_of(r@);
            let ghost y = ev[j as int];
            if !self.publish_subscribe_connections.contains(&s) {
                proof {
                    let prev = r@;
                    assert(ids_of(prev.push(s)) =~= ids_of(prev).push(s@));
                    if before.contains(y) {
                        assert(before.to_set().contains(y));
                        assert(ev.take(j as int).contains(y));
                        let k = choose|k: int| 0 <= k < j && ev.take(j as int)[k] == y;
                        assert(ev[k] == ev[j as int]);
                    }
                    lemma_push_unique(before, y);
                }
                r.push(s);
            }
            proof {
                let now = ids_of(r@);
                let want = ps.to_set().union(ev.take(j + 1).to_set());
                assert(ev.take(j + 1) =~= ev.take(j as int).push(y));
                assert forall|x: Seq<char>| now.to_set().contains(x) <==> want.contains(x) by {
                    lemma_push_contains(ev.take(j as int), y, x);
                    lemma_push_contains(before, y, x);
                    assert(before.to_set().contains(x) == before.contains(x));
                }
                assert(now.to_set() =~= want);
            }
            j = j + 1;
        }
        assert(ev.take(m as int) =~= ev);
        r
    }

    /// Hands over the events logged since the last call, oldest first.
    pub fn take_events(&mut self) -> (r: Vec<TunnelEvent>)
        requires
            old(self).wf(),
        ensures
            final(self).wf(),
            events_view(r@) == old(self).state().log,
            final(self).state() == (TunnelState { log: Seq::empty(), ..old(self).state() }),
            final(self).backend_view() == old(self).backend_view(),
            final(self).requested() == old(self).requested(),
            final(self).scans() == old(self).scans(),
            final(self).calls() == old(self).calls(),
            final(self).connections(MessagingPattern::PublishSubscribe) == old(self).connections(
                MessagingPattern::PublishSubscribe,
            ),
            final(self).connections(MessagingPattern::Event) == old(self).connections(
                MessagingPattern::Event,
            ),
    {
        let mut r: Vec<TunnelEvent> = Vec::new();
        std::mem::swap(&mut r, &mut self.events);
        assert(events_view(self.events@) =~= Seq::<EventView>::empty());
        r
    }

    /// The backend the tunnel drives.
    pub fn backend(&self) -> (r: &B)
        ensures
            *r == self.backend_view(),
    {
        &self.backend
    }
}

} // verus!
