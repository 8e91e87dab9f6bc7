use vstd::prelude::*;

use crate::types::ConnectionError;
use crate::types::DescriptorView;
use crate::types::DiscoveryError;
use crate::types::EventView;
use crate::types::MessagingPattern;
use crate::types::PropagationError;
use crate::types::Scope;

verus! {

/// The observable state of a tunnel: the identities bridged for each pattern,
/// in order of bridging, and the events not yet taken by the driver.
pub struct TunnelState {
    pub publish_subscribe: Seq<Seq<char>>,
    pub event: Seq<Seq<char>>,
    pub log: Seq<EventView>,
}

/// One reconciliation: a descriptor reported by `source`, and what creating
/// its connection gave, were it attempted.
pub struct Step {
    pub source: Scope,
    pub descriptor: DescriptorView,
    pub created: Result<(), ConnectionError>,
}

/// An element is in `a.push(y)` exactly when it is `y` or in `a`.
pub proof fn lemma_push_contains<A>(a: Seq<A>, y: A, x: A)
    ensures
        a.push(y).contains(x) <==> (a.contains(x) || x == y),
{
    let t = a.push(y);
    if t.contains(x) {
        let k = choose|k: int| 0 <= k < t.len() && t[k] == x;
        if k < a.len() {
            assert(a[k] == x);
        }
    }
    if a.contains(x) {
        let k = choose|k: int| 0 <= k < a.len() && a[k] == x;
        assert(t[k] == x);
    }
    if x == y {
        assert(t[a.len() as int] == x);
    }
}

/// Pushing an element that is not yet there keeps a sequence free of repeats.
pub proof fn lemma_push_unique<A>(a: Seq<A>, y: A)
    requires
        a.no_duplicates(),
        !a.contains(y),
    ensures
        a.push(y).no_duplicates(),
{
    let t = a.push(y);
    assert forall|i: int, j: int| 0 <= i < t.len() && 0 <= j < t.len() && i != j implies t[i]
        != t[j] by {
        if i == a.len() {
            assert(a[j] == t[j]);
        } else if j == a.len() {
            assert(a[i] == t[i]);
        } else {
            assert(a[i] == t[i] && a[j] == t[j]);
        }
    }
}

/// One scan of a discovery source: the source, the descriptors it reported,
/// and whether the scan completed.
pub struct ScanRecord {
    pub source: Scope,
    pub found: Seq<DescriptorView>,
    pub outcome: Result<(), DiscoveryError>,
}

/// One call of a connection's propagation: the service's identity and what
/// the call returned.
pub type CallRecord = (Seq<char>, Result<(), PropagationError>);

/// The descriptors reported by a run of scans, each with its source, in the
/// order the scans ran and reported them.
pub open spec fn reported(scans: Seq<ScanRecord>) -> Seq<(Scope, DescriptorView)>
    decreases scans.len(),
{
    if scans.len() == 0 {
        Seq::empty()
    } else {
        let last = scans.last();
        reported(scans.drop_last()) + last.found.map_values(
            |d: DescriptorView| (last.source, d),
        )
    }
}

/// The steps reconcile exactly the reported descriptors, in order.
pub open spec fn follows_reports(steps: Seq<Step>, reports: Seq<(Scope, DescriptorView)>) -> bool {
    &&& steps.len() == reports.len()
    &&& forall|i: int|
        0 <= i < steps.len() ==> (#[trigger] steps[i]).source == reports[i].0
            && steps[i].descriptor == reports[i].1
}

/// The scans of one discovery pass with `scope`: the local source first when
/// the scope selects it, then the network source when the scope selects it
/// and no local scan failed; no other scan.
pub open spec fn scans_fit(scope: Scope, scans: Seq<ScanRecord>) -> bool {
    if !scope.includes_local() {
        scans.len() == 1 && scans[0].source == Scope::Zenoh
    } else {
        &&& scans.len() >= 1
        &&& scans[0].source == Scope::Iceoryx
        &&& if scans[0].outcome is Err || !scope.includes_remote() {
            scans.len() == 1
        } else {
            scans.len() == 2 && scans[1].source == Scope::Zenoh
        }
    }
}

/// Each identity paired with the outcome of its call, for as many calls as
/// there are outcomes.
pub open spec fn paired(ids: Seq<Seq<char>>, outcomes: Seq<Result<(), PropagationError>>) -> Seq<
    CallRecord,
> {
    Seq::new(outcomes.len(), |i: int| (ids[i], outcomes[i]))
}

/// The tunnel without connections or pending events.
pub open spec fn empty_state() -> TunnelState {
    TunnelState {
        publish_subscribe: Seq::empty(),
        event: Seq::empty(),
        log: Seq::empty(),
    }
}

/// The identities bridged for a pattern; none for an unsupported one.
pub open spec fn registry_of(s: TunnelState, p: MessagingPattern) -> Seq<Seq<char>> {
    match p {
        MessagingPattern::PublishSubscribe => s.publish_subscribe,
        MessagingPattern::Event => s.event,
        MessagingPattern::Unsupported => Seq::empty(),
    }
}

/// No identity is bridged twice for one pattern.
pub open spec fn unique_registries(s: TunnelState) -> bool {
    s.publish_subscribe.no_duplicates() && s.event.no_duplicates()
}

/// Whether a descriptor calls for a new connection in state `s`.
pub open spec fn needs_bridge(s: TunnelState, d: DescriptorView) -> bool {
    d.pattern != MessagingPattern::Unsupported && !registry_of(s, d.pattern).contains(d.id)
}

/// The event logged when reconciliation of `step` creates or fails to create
/// its connection.
pub open spec fn bridge_event(step: Step) -> EventView {
    match step.created {
        Ok(_) => EventView::Bridged {
            source: step.source,
            pattern: step.descriptor.pattern,
            id: step.descriptor.id,
            name: step.descriptor.name,
        },
        Err(e) => EventView::BridgeFailed {
            source: step.source,
            pattern: step.descriptor.pattern,
            id: step.descriptor.id,
            error: e,
        },
    }
}

/// Reconciliation of one reported descriptor against the registries.
///
/// An unsupported pattern, or an identity already bridged for its pattern,
/// leaves the state as it is. Otherwise the attempt is logged, and on success
/// the identity joins the registry of its pattern.
pub open spec fn reconcile(s: TunnelState, step: Step) -> TunnelState {
    let d = step.descriptor;
    if !needs_bridge(s, d) {
        s
    } else {
        let log = s.log.push(bridge_event(step));
        let bridged = step.created is Ok;
        TunnelState {
            publish_subscribe: if bridged && d.pattern == MessagingPattern::PublishSubscribe {
                s.publish_subscribe.push(d.id)
            } else {
                s.publish_subscribe
            },
            event: if bridged && d.pattern == MessagingPattern::Event {
                s.event.push(d.id)
            } else {
                s.event
            },
            log,
        }
    }
}

/// The state after reconciling each step in turn.
pub open spec fn apply_all(s: TunnelState, steps: Seq<Step>) -> TunnelState
    decreases steps.len(),
{
    if steps.len() == 0 {
        s
    } else {
        reconcile(apply_all(s, steps.drop_last()), steps.last())
    }
}

/// The steps of one discovery pass with `scope`: each comes from a source
/// the scope selects, and every local step comes before every network step.
pub open spec fn sources_fit(scope: Scope, steps: Seq<Step>) -> bool {
    &&& forall|i: int|
        0 <= i < steps.len() ==> {
            let src = #[trigger] steps[i].source;
            &&& src != Scope::Both
            &&& (src == Scope::Iceoryx ==> scope.includes_local())
            &&& (src == Scope::Zenoh ==> scope.includes_remote())
        }
    &&& forall|i: int, j: int|
        0 <= i < j < steps.len() && #[trigger] steps[i].source == Scope::Zenoh
            ==> #[trigger] steps[j].source == Scope::Zenoh
}

/// The events logged by one propagation pass over connections `ids` whose
/// calls gave `outcomes`: one for each failure, in order.
pub open spec fn failure_log(
    ids: Seq<Seq<char>>,
    outcomes: Seq<Result<(), PropagationError>>,
) -> Seq<EventView>
    decreases outcomes.len(),
{
    if outcomes.len() == 0 || ids.len() == 0 {
        Seq::empty()
    } else {
        let prev = failure_log(ids.drop_last(), outcomes.drop_last());
        match outcomes.last() {
            Ok(_) => prev,
            Err(e) => prev.push(EventView::PropagationFailed { id: ids.last(), error: e }),
        }
    }
}

/// Reconciling `a` and then `b` is reconciling `a + b`.
pub proof fn lemma_apply_concat(s: TunnelState, a: Seq<Step>, b: Seq<Step>)
    ensures
        apply_all(apply_all(s, a), b) == apply_all(s, a + b),
    decreases b.len(),
{
    if b.len() == 0 {
        assert(a + b =~= a);
    } else {
        lemma_apply_concat(s, a, b.drop_last());
        assert((a + b).drop_last() =~= a + b.drop_last());
        assert((a + b).last() == b.last());
    }
}

/// Reconciliation never bridges an identity twice for one pattern.
pub proof fn lemma_reconcile_unique(s: TunnelState, step: Step)
    requires
        unique_registries(s),
    ensures
        unique_registries(reconcile(s, step)),
{
    let d = step.descriptor;
    if needs_bridge(s, d) {
        if d.pattern == MessagingPattern::PublishSubscribe {
            lemma_push_unique(s.publish_subscribe, d.id);
        }
        if d.pattern == MessagingPattern::Event {
            lemma_push_unique(s.event, d.id);
        }
    }
}

/// However many steps are reconciled, no identity is bridged twice for one
/// pattern.
pub proof fn lemma_apply_unique(s: TunnelState, steps: Seq<Step>)
    requires
        unique_registries(s),
    ensures
        unique_registries(apply_all(s, steps)),
    decreases steps.len(),
{
    if steps.len() > 0 {
        lemma_apply_unique(s, steps.drop_last());
        lemma_reconcile_unique(apply_all(s, steps.drop_last()), steps.last());
    }
}

/// A descriptor of one pattern leaves the registry of the other pattern as it
/// is, and an unsupported one leaves the whole state as it is.
pub proof fn lemma_pattern_partition(s: TunnelState, step: Step)
    ensures
        step.descriptor.pattern == MessagingPattern::PublishSubscribe ==> reconcile(s, step).event
            == s.event,
        step.descriptor.pattern == MessagingPattern::Event ==> reconcile(
            s,
            step,
        ).publish_subscribe == s.publish_subscribe,
        step.descriptor.pattern == MessagingPattern::Unsupported ==> reconcile(s, step) == s,
{
}

/// Every identity that a run of reconciliations adds to the registry of a
/// pattern was reported by a descriptor of that very pattern, whose
/// connection was created.
pub proof fn lemma_pattern_partition_all(s: TunnelState, steps: Seq<Step>, id: Seq<char>)
    ensures
        apply_all(s, steps).publish_subscribe.contains(id) && !s.publish_subscribe.contains(id)
            ==> exists|i: int|
            0 <= i < steps.len() && (#[trigger] steps[i]).descriptor.id == id
                && steps[i].descriptor.pattern == MessagingPattern::PublishSubscribe
                && steps[i].created is Ok,
        apply_all(s, steps).event.contains(id) && !s.event.contains(id) ==> exists|i: int|
            0 <= i < steps.len() && (#[trigger] steps[i]).descriptor.id == id
                && steps[i].descriptor.pattern == MessagingPattern::Event && steps[i].created is Ok,
    decreases steps.len(),
{
    if steps.len() > 0 {
        let prefix = steps.drop_last();
        lemma_pattern_partition_all(s, prefix, id);
        let m = apply_all(s, prefix);
        let last = steps.len() - 1;
        assert(steps[last] == steps.last());
        let r = apply_all(s, steps);
        if r.publish_subscribe.contains(id) && !s.publish_subscribe.contains(id) {
            if m.publish_subscribe.contains(id) {
                let i = choose|i: int|
                    0 <= i < prefix.len() && (#[trigger] prefix[i]).descriptor.id == id
                        && prefix[i].descriptor.pattern == MessagingPattern::PublishSubscribe
                        && prefix[i].created is Ok;
                assert(steps[i] == prefix[i]);
            } else {
                let k = choose|k: int| 0 <= k < r.publish_subscribe.len() && r.publish_subscribe[k] == id;
                assert(r.publish_subscribe != m.publish_subscribe);
                assert(r.publish_subscribe == m.publish_subscribe.push(steps.last().descriptor.id));
                if k < m.publish_subscribe.len() {
                    assert(m.publish_subscribe[k] == id);
                }
            }
        }
        if r.event.contains(id) && !s.event.contains(id) {
            if m.event.contains(id) {
                let i = choose|i: int|
                    0 <= i < prefix.len() && (#[trigger] prefix[i]).descriptor.id == id
                        && prefix[i].descriptor.pattern == MessagingPattern::Event
                        && prefix[i].created is Ok;
                assert(steps[i] == prefix[i]);
            } else {
                let k = choose|k: int| 0 <= k < r.event.len() && r.event[k] == id;
                assert(r.event != m.event);
                assert(r.event == m.event.push(steps.last().descriptor.id));
                if k < m.event.len() {
                    assert(m.event[k] == id);
                }
            }
        }
    }
}

/// A service whose connection was created is bridged at the end of the run,
/// whatever the other steps, failed ones included, did.
pub proof fn lemma_failure_isolation(s: TunnelState, steps: Seq<Step>, i: int)
    requires
        0 <= i < steps.len(),
        steps[i].created is Ok,
        steps[i].descriptor.pattern != MessagingPattern::Unsupported,
    ensures
        registry_of(apply_all(s, steps), steps[i].descriptor.pattern).contains(
            steps[i].descriptor.id,
        ),
    decreases steps.len(),
{
    let d = steps[i].descriptor;
    let prefix = steps.drop_last();
    let m = apply_all(s, prefix);
    let r = apply_all(s, steps);
    if i == steps.len() - 1 {
        assert(steps.last() == steps[i]);
        if needs_bridge(m, d) {
            assert(registry_of(r, d.pattern) == registry_of(m, d.pattern).push(d.id));
            assert(registry_of(r, d.pattern)[registry_of(m, d.pattern).len() as int] == d.id);
        }
    } else {
        assert(prefix[i] == steps[i]);
        lemma_failure_isolation(s, prefix, i);
        let k = choose|k: int|
            0 <= k < registry_of(m, d.pattern).len() && registry_of(m, d.pattern)[k] == d.id;
        let e = steps.last().descriptor;
        if needs_bridge(m, e) && steps.last().created is Ok && e.pattern == d.pattern {
            assert(registry_of(r, d.pattern) == registry_of(m, d.pattern).push(e.id));
        } else {
            assert(registry_of(r, d.pattern) == registry_of(m, d.pattern));
        }
        assert(registry_of(r, d.pattern)[k] == d.id);
    }
}

/// Discovering the same service any number of times leaves exactly one
/// connection for it once any attempt succeeded: its identity is in the
/// registry of its pattern, and no identity there occurs twice.
pub proof fn lemma_repeated_discovery(s: TunnelState, d: DescriptorView, steps: Seq<Step>)
    requires
        unique_registries(s),
        d.pattern != MessagingPattern::Unsupported,
        forall|i: int| 0 <= i < steps.len() ==> (#[trigger] steps[i]).descriptor == d,
        exists|i: int| 0 <= i < steps.len() && (#[trigger] steps[i]).created is Ok,
    ensures
        registry_of(apply_all(s, steps), d.pattern).contains(d.id),
        registry_of(apply_all(s, steps), d.pattern).no_duplicates(),
{
    let i = choose|i: int| 0 <= i < steps.len() && (#[trigger] steps[i]).created is Ok;
    lemma_failure_isolation(s, steps, i);
    lemma_apply_unique(s, steps);
}

/// Reconciling a descriptor that was just bridged changes nothing, whatever
/// a second creation attempt would give.
pub proof fn lemma_reconcile_idempotent(s: TunnelState, step: Step, again: Step)
    requires
        step.created is Ok,
        again.descriptor == step.descriptor,
    ensures
        reconcile(reconcile(s, step), again) == reconcile(s, step),
{
    let d = step.descriptor;
    let r = reconcile(s, step);
    if needs_bridge(s, d) {
        assert(registry_of(r, d.pattern) == registry_of(s, d.pattern).push(d.id));
        assert(registry_of(r, d.pattern)[registry_of(s, d.pattern).len() as int] == d.id);
    }
}

/// Where no identity is bridged for both patterns, the identities of the two
/// registries taken together hold no repetition, and are exactly the union of
/// the two.
pub proof fn lemma_snapshot(s: TunnelState)
    requires
        unique_registries(s),
        forall|id: Seq<char>| !(s.publish_subscribe.contains(id) && s.event.contains(id)),
    ensures
        (s.publish_subscribe + s.event).no_duplicates(),
        (s.publish_subscribe + s.event).to_set() == s.publish_subscribe.to_set().union(
            s.event.to_set(),
        ),
{
    let a = s.publish_subscribe;
    let b = s.event;
    let t = a + b;
    assert forall|i: int, j: int| 0 <= i < t.len() && 0 <= j < t.len() && i != j implies t[i]
        != t[j] by {
        if i < a.len() && j >= a.len() {
            assert(a.contains(t[i]));
            assert(b[j - a.len()] == t[j]);
            assert(b.contains(t[j]));
        } else if i >= a.len() && j < a.len() {
            assert(a.contains(t[j]));
            assert(b[i - a.len()] == t[i]);
            assert(b.contains(t[i]));
        } else if i >= a.len() {
            assert(b[i - a.len()] == t[i]);
            assert(b[j - a.len()] == t[j]);
        }
    }
    assert forall|x: Seq<char>| t.to_set().contains(x) <==> a.to_set().union(b.to_set()).contains(x)
        by {
        if t.contains(x) {
            let k = choose|k: int| 0 <= k < t.len() && t[k] == x;
            if k >= a.len() {
                assert(b[k - a.len()] == x);
            }
        }
        if a.contains(x) {
            let k = choose|k: int| 0 <= k < a.len() && a[k] == x;
            assert(t[k] == x);
        }
        if b.contains(x) {
            let k = choose|k: int| 0 <= k < b.len() && b[k] == x;
            assert(t[k + a.len()] == x);
        }
    }
    assert(t.to_set() =~= a.to_set().union(b.to_set()));
}

/// A pass in which every reported service is already bridged, or of an
/// unsupported pattern, changes nothing and asks for no connection.
pub proof fn lemma_settled_pass(s: TunnelState, steps: Seq<Step>)
    requires
        forall|i: int| 0 <= i < steps.len() ==> !needs_bridge(s, #[trigger] steps[i].descriptor),
    ensures
        apply_all(s, steps) == s,
        requests_of(s, steps) == Seq::<DescriptorView>::empty(),
    decreases steps.len(),
{
    if steps.len() > 0 {
        let prefix = steps.drop_last();
        assert forall|i: int| 0 <= i < prefix.len() implies !needs_bridge(
            s,
            #[trigger] prefix[i].descriptor,
        ) by {
            assert(prefix[i] == steps[i]);
        }
        lemma_settled_pass(s, prefix);
        assert(!needs_bridge(s, steps[steps.len() - 1].descriptor));
    }
}

/// The descriptors for which a run of steps asks for a new connection, in
/// order: those that need a bridge when their turn comes.
pub open spec fn requests_of(s: TunnelState, steps: Seq<Step>) -> Seq<DescriptorView>
    decreases steps.len(),
{
    if steps.len() == 0 {
        Seq::empty()
    } else {
        let prefix = steps.drop_last();
        let d = steps.last().descriptor;
        if needs_bridge(apply_all(s, prefix), d) {
            requests_of(s, prefix).push(d)
        } else {
            requests_of(s, prefix)
        }
    }
}

/// The requests of `a + b` are those of `a`, then those of `b` from where `a`
/// left off.
pub proof fn lemma_requests_concat(s: TunnelState, a: Seq<Step>, b: Seq<Step>)
    ensures
        requests_of(s, a + b) == requests_of(s, a) + requests_of(apply_all(s, a), b),
    decreases b.len(),
{
    if b.len() == 0 {
        assert(a + b =~= a);
        assert(requests_of(s, a) + Seq::<DescriptorView>::empty() =~= requests_of(s, a));
    } else {
        lemma_requests_concat(s, a, b.drop_last());
        lemma_apply_concat(s, a, b.drop_last());
        assert((a + b).drop_last() =~= a + b.drop_last());
        assert((a + b).last() == b.last());
        let r = requests_of(s, a);
        let q = requests_of(apply_all(s, a), b.drop_last());
        assert((r + q).push(b.last().descriptor) =~= r + q.push(b.last().descriptor));
    }
}

/// Once a service is bridged for its pattern it stays bridged, and no later
/// step asks for another connection for it.
pub proof fn lemma_bridged_not_requested(s: TunnelState, steps: Seq<Step>, d: DescriptorView)
    requires
        d.pattern != MessagingPattern::Unsupported,
        registry_of(s, d.pattern).contains(d.id),
    ensures
        registry_of(apply_all(s, steps), d.pattern).contains(d.id),
        forall|i: int|
            0 <= i < requests_of(s, steps).len() ==> !(#[trigger] requests_of(s, steps)[i].id
                == d.id && requests_of(s, steps)[i].pattern == d.pattern),
    decreases steps.len(),
{
    if steps.len() > 0 {
        let prefix = steps.drop_last();
        lemma_bridged_not_requested(s, prefix, d);
        let m = apply_all(s, prefix);
        let e = steps.last().descriptor;
        let k = choose|k: int|
            0 <= k < registry_of(m, d.pattern).len() && registry_of(m, d.pattern)[k] == d.id;
        let r = apply_all(s, steps);
        if needs_bridge(m, e) && steps.last().created is Ok && e.pattern == d.pattern {
            assert(registry_of(r, d.pattern) == registry_of(m, d.pattern).push(e.id));
        } else {
            assert(registry_of(r, d.pattern) == registry_of(m, d.pattern));
        }
        assert(registry_of(r, d.pattern)[k] == d.id);
        let before = requests_of(s, prefix);
        if needs_bridge(m, e) {
            assert(!(e.id == d.id && e.pattern == d.pattern));
            assert forall|i: int| 0 <= i < requests_of(s, steps).len() implies !(
            #[trigger] requests_of(s, steps)[i].id == d.id && requests_of(s, steps)[i].pattern
                == d.pattern) by {
                if i < before.len() {
                    assert(requests_of(s, steps)[i] == before[i]);
                }
            }
        }
    }
}

/// After any run of reconciliations from the empty tunnel, an identity is
/// bridged, under some pattern, exactly when some step of a bridgeable pattern
/// reported it and its connection was created.
pub proof fn lemma_run_snapshot(steps: Seq<Step>, id: Seq<char>)
    ensures
        apply_all(empty_state(), steps).publish_subscribe.contains(id) || apply_all(
            empty_state(),
            steps,
        ).event.contains(id) <==> exists|i: int|
            0 <= i < steps.len() && (#[trigger] steps[i]).descriptor.id == id
                && steps[i].descriptor.pattern != MessagingPattern::Unsupported
                && steps[i].created is Ok,
{
    let s = empty_state();
    lemma_pattern_partition_all(s, steps, id);
    if exists|i: int|
        0 <= i < steps.len() && (#[trigger] steps[i]).descriptor.id == id
            && steps[i].descriptor.pattern != MessagingPattern::Unsupported
            && steps[i].created is Ok {
        let i = choose|i: int|
            0 <= i < steps.len() && (#[trigger] steps[i]).descriptor.id == id
                && steps[i].descriptor.pattern != MessagingPattern::Unsupported
                && steps[i].created is Ok;
        lemma_failure_isolation(s, steps, i);
    }
}

} // verus!
