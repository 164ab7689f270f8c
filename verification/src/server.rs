//! The per-connection handler decisions and the process-wide relay state:
//! a monotonic identifier counter and the client registry, mutated only
//! under one exclusion domain.
//!
//! The transport layer drives this module as a state machine: on a
//! successful upgrade it creates a `ConnHandler`, then feeds every read
//! result of that connection to its `step` and performs the returned action
//! (send the planned deliveries, or stop reading). All I/O stays with the
//! caller; every decision is made and verified here.

use vstd::prelude::*;

use crate::ids::client_name;
use crate::ids::client_name_seq;
use crate::ids::lemma_client_name_injective;
use crate::registry::Handle;
use crate::registry::Registry;
use crate::router::deliveries_spec;
use crate::router::parse_frame;
use crate::router::parse_spec;
use crate::router::route;
use crate::router::Dispatch;
use crate::router::TargetOutcome;

verus! {

/// Every registered identifier was assigned at some counter value up to
/// `counter`, and there are finitely many of them.
pub open spec fn registry_within(reg: Map<Seq<char>, Handle>, counter: nat) -> bool {
    &&& reg.dom().finite()
    &&& forall|k: Seq<char>|
        reg.contains_key(k) ==> exists|i: nat| 1 <= i <= counter && k == #[trigger] client_name_seq(i)
}

/// The process-wide relay state. Both fields reset with the process; there
/// is no durable storage. The ghost record of every identifier assigned so
/// far, in assignment order, supports the uniqueness and no-reuse laws.
pub struct ServerState {
    pub counter: u64,
    pub registry: Registry,
    pub assigned: Ghost<Seq<Seq<char>>>,
}

impl ServerState {
    /// Well-formedness: the registry is internally consistent, one
    /// identifier was assigned per counter step (the i-th is `client<i+1>`),
    /// and only assigned identifiers are registered.
    pub open spec fn wf(&self) -> bool {
        &&& self.registry.inv()
        &&& self.assigned@.len() == self.counter as nat
        &&& forall|i: int|
            0 <= i < self.assigned@.len() ==> self.assigned@[i] == client_name_seq((i + 1) as nat)
        &&& registry_within(self.registry@, self.counter as nat)
    }

    /// Server start: no clients, counter at zero.
    pub fn new() -> (s: ServerState)
        ensures
            s.wf(),
            s.counter == 0,
            s.registry@ == Map::<Seq<char>, Handle>::empty(),
            s.assigned@ == Seq::<Seq<char>>::empty(),
    {
        let s = ServerState { counter: 0, registry: Registry::new(), assigned: Ghost(Seq::empty()) };
        proof {
            s.registry.lemma_view_finite();
        }
        s
    }

    /// One connection upgrade: allocates the next identifier and registers
    /// the new connection's handle under it, as one logical step under the
    /// shared exclusion domain. The identifier is fresh: distinct from every
    /// identifier ever assigned, registered or not.
    pub fn connect(&mut self, h: Handle) -> (id: String)
        requires
            old(self).wf(),
            old(self).counter < u64::MAX,
        ensures
            final(self).wf(),
            final(self).counter == old(self).counter + 1,
            id@ == client_name_seq((old(self).counter + 1) as nat),
            !old(self).registry@.contains_key(id@),
            final(self).registry@ == old(self).registry@.insert(id@, h),
            final(self).registry@.len() == old(self).registry@.len() + 1,
            final(self).assigned@ == old(self).assigned@.push(id@),
            forall|j: int| 0 <= j < old(self).assigned@.len() ==> id@ != old(self).assigned@[j],
            (final(self).registry@, final(self).counter as nat) == connect_spec(
                old(self).registry@,
                old(self).counter as nat,
                h,
            ),
    {
        self.counter = self.counter + 1;
        let id = client_name(self.counter);
        proof {
            let fresh = (old(self).counter + 1) as nat;
            if self.registry@.contains_key(id@) {
                let i = choose|i: nat| 1 <= i <= old(self).counter && id@ == client_name_seq(i);
                lemma_client_name_injective(fresh, i);
                assert(false);
            }
            assert forall|j: int| 0 <= j < old(self).assigned@.len() implies id@ != old(
                self,
            ).assigned@[j] by {
                if id@ == old(self).assigned@[j] {
                    lemma_client_name_injective(fresh, (j + 1) as nat);
                }
            }
            self.registry.lemma_view_finite();
        }
        let out = id.clone();
        self.registry.register(id, h);
        proof {
            self.assigned@ = self.assigned@.push(out@);
            let c = self.counter as nat;
            assert(self.assigned@[c - 1] == client_name_seq(c));
            assert forall|k: Seq<char>| self.registry@.contains_key(k) implies exists|i: nat|
                1 <= i <= self.counter && k == #[trigger] client_name_seq(i) by {
                if k == out@ {
                    assert(k == client_name_seq(c));
                } else {
                    assert(old(self).registry@.contains_key(k));
                }
            }
        }
        out
    }

    /// One disconnect: removes the identifier from the registry. A no-op
    /// when the identifier is already gone, so the close and read-error
    /// paths may race to remove the same client. The counter never moves
    /// backward, so the identifier is never assigned again.
    pub fn disconnect(&mut self, id: &String)
        requires
            old(self).wf(),
        ensures
            final(self).wf(),
            final(self).registry@ == old(self).registry@.remove(id@),
            final(self).counter == old(self).counter,
            final(self).assigned == old(self).assigned,
    {
        self.registry.deregister(id);
        proof {
            assert forall|k: Seq<char>| self.registry@.contains_key(k) implies exists|i: nat|
                1 <= i <= self.counter && k == #[trigger] client_name_seq(i) by {
                assert(old(self).registry@.contains_key(k));
            }
        }
    }

    /// One step of a connection's reading loop: the handler's reaction to
    /// what the transport reported for `id`'s own stream. Only a close or a
    /// read error ends the connection (and removes only `id`); a text frame
    /// is routed without touching the registry, and a malformed frame is
    /// merely rejected. No event on this connection ever deregisters
    /// another client.
    pub fn handler_step(&mut self, id: &String, ev: &ConnEvent) -> (a: HandlerAction)
        requires
            old(self).wf(),
        ensures
            final(self).wf(),
            final(self).counter == old(self).counter,
            final(self).assigned == old(self).assigned,
            step_effect(old(self).registry@, id@, *ev, final(self).registry@, a),
    {
        match ev {
            ConnEvent::Text(t) => {
                match parse_frame(t.as_str()) {
                    Some(m) => {
                        let dispatch = route(&self.registry, &m);
                        HandlerAction::Deliver { dispatch, payload: m.payload }
                    },
                    None => HandlerAction::Reject,
                }
            },
            ConnEvent::Closed => {
                self.disconnect(id);
                HandlerAction::Stop
            },
            ConnEvent::ReadError => {
                self.disconnect(id);
                HandlerAction::Stop
            },
            ConnEvent::Other => HandlerAction::Continue,
        }
    }
}

/// The obligation one handler step discharges, given the registry before
/// the step, the handler's own identifier and the event on its stream: how
/// the registry changes and which action comes back. A text frame leaves
/// the registry untouched and is either routed (parsed targets resolved
/// against the pre-step registry, in order) or rejected when malformed; a
/// close or read error removes exactly the handler's own identifier; any
/// other frame changes nothing.
pub open spec fn step_effect(
    pre: Map<Seq<char>, Handle>,
    id: Seq<char>,
    ev: ConnEvent,
    post: Map<Seq<char>, Handle>,
    a: HandlerAction,
) -> bool {
    match ev {
        ConnEvent::Text(t) => {
            &&& post == pre
            &&& match parse_spec(t@) {
                Some(p) => {
                    &&& a matches HandlerAction::Deliver { dispatch, payload }
                    &&& dispatch.deliveries@ == deliveries_spec(pre, p.0)
                    &&& payload@ == p.1
                    &&& dispatch.outcomes@.len() == p.0.len()
                    &&& forall|i: int|
                        0 <= i < p.0.len() ==> (dispatch.outcomes@[i] == TargetOutcome::Found
                            <==> pre.contains_key(p.0[i]))
                },
                None => a is Reject,
            }
        },
        ConnEvent::Closed => post == pre.remove(id) && a is Stop,
        ConnEvent::ReadError => post == pre.remove(id) && a is Stop,
        ConnEvent::Other => post == pre && a is Continue,
    }
}

/// What the transport reported for one read on a connection.
pub enum ConnEvent {
    /// A complete text frame with its contents.
    Text(String),
    /// An explicit close frame from the client.
    Closed,
    /// A read error; terminal for this connection only.
    ReadError,
    /// Any other frame kind (binary, ping, pong): ignored.
    Other,
}

/// What the transport layer must do after one handler step.
pub enum HandlerAction {
    /// Send the payload through each listed handle, in order. A failed
    /// send is logged and skipped; it removes nothing here, and the
    /// remaining deliveries are still attempted. Keep reading afterwards.
    Deliver { dispatch: Dispatch, payload: String },
    /// The frame was malformed (no colon): log it, drop it, keep reading.
    Reject,
    /// Nothing to do; keep reading.
    Continue,
    /// The client was deregistered; stop reading, the handler is done.
    Stop,
}

/// The lifecycle phase of one connection's handler.
#[derive(PartialEq, Eq, Structural, Clone, Copy, Debug)]
pub enum HandlerPhase {
    /// Registered; the reading loop is running.
    Reading,
    /// Deregistered; the reading loop is over and must not resume.
    Removed,
}

/// One connection's handler: assigned one identifier at upgrade time, the
/// sole reader of its own stream, and the sole owner of that identifier's
/// removal. It deregisters exactly once — stepping is only possible while
/// the phase is still `Reading`, and the phase leaves `Reading` for good on
/// the step that deregisters.
pub struct ConnHandler {
    pub id: String,
    pub phase: HandlerPhase,
}

impl ConnHandler {
    /// Entry: upon a successful protocol upgrade, assigns the next
    /// identifier and registers the new connection's handle under it, then
    /// starts reading.
    pub fn connect(state: &mut ServerState, h: Handle) -> (c: ConnHandler)
        requires
            old(state).wf(),
            old(state).counter < u64::MAX,
        ensures
            final(state).wf(),
            c.phase == HandlerPhase::Reading,
            c.id@ == client_name_seq((old(state).counter + 1) as nat),
            !old(state).registry@.contains_key(c.id@),
            final(state).registry@ == old(state).registry@.insert(c.id@, h),
            final(state).counter == old(state).counter + 1,
            final(state).assigned@ == old(state).assigned@.push(c.id@),
            forall|j: int| 0 <= j < old(state).assigned@.len() ==> c.id@ != old(state).assigned@[j],
    {
        let id = state.connect(h);
        ConnHandler { id, phase: HandlerPhase::Reading }
    }

    /// One step of this handler's reading loop. Only a handler that is
    /// still reading may step; on a close frame or a read error it
    /// deregisters its own identifier and leaves `Reading`, so the
    /// deregistration happens exactly once and nothing is read afterwards.
    pub fn step(&mut self, state: &mut ServerState, ev: &ConnEvent) -> (a: HandlerAction)
        requires
            old(self).phase == HandlerPhase::Reading,
            old(state).wf(),
        ensures
            final(state).wf(),
            final(self).id == old(self).id,
            final(state).counter == old(state).counter,
            final(state).assigned == old(state).assigned,
            step_effect(old(state).registry@, old(self).id@, *ev, final(state).registry@, a),
            final(self).phase == HandlerPhase::Reading <==> !(a is Stop),
    {
        let a = state.handler_step(&self.id, ev);
        match &a {
            HandlerAction::Stop => {
                self.phase = HandlerPhase::Removed;
            },
            _ => {},
        }
        a
    }
}

/// Law: assigned identifiers are pairwise distinct, and strictly
/// increasing in assignment order: the identifier assigned i-th carries
/// the counter value i+1.
pub proof fn lemma_assigned_ids_unique(s: ServerState)
    requires
        s.wf(),
    ensures
        forall|i: int|
            0 <= i < s.assigned@.len() ==> s.assigned@[i] == client_name_seq((i + 1) as nat),
        forall|i: int, j: int|
            0 <= i < j < s.assigned@.len() ==> s.assigned@[i] != s.assigned@[j],
{
    assert forall|i: int, j: int|
        0 <= i < j < s.assigned@.len() implies s.assigned@[i] != s.assigned@[j] by {
        if s.assigned@[i] == s.assigned@[j] {
            lemma_client_name_injective((i + 1) as nat, (j + 1) as nat);
        }
    }
}

/// Law: a handler step on the frame `B:payload`, sent by any client while
/// `B` is registered, delivers the payload to `B`'s handle exactly once,
/// unmodified, and changes no registration. This composes the router's
/// single-target law with the obligation every handler step discharges.
pub proof fn lemma_step_delivers_exactly_once(
    pre: Map<Seq<char>, Handle>,
    id: Seq<char>,
    ev: ConnEvent,
    post: Map<Seq<char>, Handle>,
    a: HandlerAction,
    b: Seq<char>,
    p: Seq<char>,
)
    requires
        ev matches ConnEvent::Text(t) && t@ == b + seq![':'] + p,
        pre.contains_key(b),
        crate::router::plain_token(b),
        crate::text::trim_spec(p) == p,
        step_effect(pre, id, ev, post, a),
    ensures
        post == pre,
        a matches HandlerAction::Deliver { dispatch, payload } && dispatch.deliveries@ == seq![
            pre[b],
        ] && payload@ == p,
{
    crate::router::lemma_single_target_delivery(pre, b, p);
}

/// Law: once a client's identifier is removed from the registry, a later
/// frame naming it finds no target and delivers nothing to it. (That the
/// identifier is also never assigned to a new connection is part of
/// `connect`'s contract: each new identifier differs from every identifier
/// assigned before it.)
pub proof fn lemma_disconnected_unreachable(reg: Map<Seq<char>, Handle>, id: Seq<char>)
    ensures
        !reg.remove(id).contains_key(id),
        deliveries_spec(reg.remove(id), seq![id]) == Seq::<Handle>::empty(),
{
    crate::router::lemma_deliveries_single(reg.remove(id), id);
}

/// The spec-level effect of one connect: the counter advances and the new
/// handle is registered under the identifier for the new counter value.
pub open spec fn connect_spec(reg: Map<Seq<char>, Handle>, counter: nat, h: Handle) -> (
    Map<Seq<char>, Handle>,
    nat,
) {
    (reg.insert(client_name_seq(counter + 1), h), counter + 1)
}

/// The registry and counter after a burst of connects, one per handle.
pub open spec fn apply_connects(
    reg: Map<Seq<char>, Handle>,
    counter: nat,
    hs: Seq<Handle>,
) -> (Map<Seq<char>, Handle>, nat)
    decreases hs.len(),
{
    if hs.len() == 0 {
        (reg, counter)
    } else {
        let step = connect_spec(reg, counter, hs[0]);
        apply_connects(step.0, step.1, hs.drop_first())
    }
}

/// Law: N connects settle to a registry larger by exactly N. Every connect
/// registers a fresh identifier, so no registration is lost and no
/// identifier is duplicated; from an empty registry, N connecting clients
/// leave exactly N entries.
pub proof fn lemma_connects_all_registered(
    reg: Map<Seq<char>, Handle>,
    counter: nat,
    hs: Seq<Handle>,
)
    requires
        registry_within(reg, counter),
    ensures
        ({
            let r = apply_connects(reg, counter, hs);
            &&& registry_within(r.0, r.1)
            &&& r.1 == counter + hs.len()
            &&& r.0.len() == reg.len() + hs.len()
        }),
    decreases hs.len(),
{
    if hs.len() > 0 {
        let id = client_name_seq(counter + 1);
        if reg.contains_key(id) {
            let i = choose|i: nat| 1 <= i <= counter && id == client_name_seq(i);
            lemma_client_name_injective(counter + 1, i);
            assert(false);
        }
        let reg1 = reg.insert(id, hs[0]);
        vstd::set::axiom_set_insert_finite(reg.dom(), id);
        vstd::set::axiom_set_insert_len(reg.dom(), id);
        assert(reg1.dom() =~= reg.dom().insert(id));
        assert forall|k: Seq<char>| reg1.contains_key(k) implies exists|i: nat|
            1 <= i <= counter + 1 && k == #[trigger] client_name_seq(i) by {
            if k == id {
                assert(k == client_name_seq(counter + 1));
            } else {
                assert(reg.contains_key(k));
            }
        }
        lemma_connects_all_registered(reg1, counter + 1, hs.drop_first());
    }
}

/// Law: from server start, N simultaneously connecting clients settle to a
/// registry of exactly N entries, one per client.
pub proof fn lemma_fresh_server_connects(hs: Seq<Handle>)
    ensures
        ({
            let r = apply_connects(Map::<Seq<char>, Handle>::empty(), 0, hs);
            r.0.len() == hs.len() && r.1 == hs.len()
        }),
{
    let reg = Map::<Seq<char>, Handle>::empty();
    broadcast use vstd::set::axiom_set_empty_len;

    assert(reg.dom() =~= Set::<Seq<char>>::empty());
    lemma_connects_all_registered(reg, 0, hs);
}

} // verus!
