use vstd::prelude::*;

use crate::load_balancer::{LoadBalancer, Server};
use crate::pool::{lemma_select_none_without_healthy, PoolState};

verus! {

/// The one response the proxy makes up itself: sent to a client when no
/// backend is healthy, before its connection is closed.
pub const NO_BACKEND_RESPONSE: &'static str =
    "HTTP/1.1 502 Bad Gateway\r\nContent-Length: 0\r\nConnection: close\r\n\r\n";

/// Largest number of bytes that one read of a relay direction takes.
pub const RELAY_CHUNK: usize = 4096;

/// What to do with a newly accepted client connection.
pub enum Route {
    /// Open a connection to this backend and relay bytes both ways.
    Forward(Server),
    /// Send [`NO_BACKEND_RESPONSE`] and close the connection.
    NoBackend,
}

/// The route that a connection takes when the selection returns `selected`.
pub open spec fn route_for(selected: Option<Server>) -> Route {
    match selected {
        Some(s) => Route::Forward(s),
        None => Route::NoBackend,
    }
}

impl LoadBalancer {
    /// Decides how a newly accepted connection is served: forwarded to the
    /// backend that round-robin selection picks, or answered with
    /// [`NO_BACKEND_RESPONSE`] when there is none.
    pub fn handle(&mut self) -> (r: Route)
        ensures
            r == route_for(old(self)@.selected()),
            final(self)@ == old(self)@.after_select(),
    {
        match self.choose_server() {
            Some(s) => Route::Forward(s),
            None => Route::NoBackend,
        }
    }
}

/// With no healthy backend, a connection gets the made-up 502 response and
/// is closed, and nothing is forwarded.
pub proof fn lemma_no_backend_gets_bad_gateway(p: PoolState)
    requires
        forall|i: int| 0 <= i < p.size() ==> !(#[trigger] p.backends[i]).healthy,
    ensures
        route_for(p.selected()) == Route::NoBackend,
{
    lemma_select_none_without_healthy(p);
}

/// What one direction of a relay observed.
pub enum RelayEvent {
    /// A read from the source returned these bytes; none means that the
    /// source closed its write side cleanly.
    Read(Vec<u8>),
    /// Reading from the source failed.
    ReadFailed,
    /// Writing to the sink failed.
    WriteFailed,
}

/// What one direction of a relay does next.
pub enum RelayAction {
    /// Write these bytes, unchanged, to the sink, then read again.
    Write(Vec<u8>),
    /// Close the sink's write side only; this direction is done.
    CloseWrite,
    /// This direction has ended on an error, or had ended before.
    Stop,
}

/// Where one direction of a relay stands.
#[derive(PartialEq, Eq, Structural, Clone, Copy, Debug)]
pub enum RelayPhase {
    Streaming,
    Finished,
    Failed,
}

/// The phase after `event`, and the action that it asks for.
pub open spec fn relay_step(phase: RelayPhase, event: RelayEvent) -> (RelayPhase, RelayAction) {
    match phase {
        RelayPhase::Streaming => match event {
            RelayEvent::Read(bytes) => if bytes@.len() == 0 {
                (RelayPhase::Finished, RelayAction::CloseWrite)
            } else {
                (RelayPhase::Streaming, RelayAction::Write(bytes))
            },
            _ => (RelayPhase::Failed, RelayAction::Stop),
        },
        _ => (phase, RelayAction::Stop),
    }
}

/// Phase and actions of a relay that starts in `phase` and takes in `events`
/// one after the other.
pub open spec fn relay_run(phase: RelayPhase, events: Seq<RelayEvent>) -> (RelayPhase, Seq<RelayAction>)
    decreases events.len(),
{
    if events.len() == 0 {
        (phase, Seq::empty())
    } else {
        let before = relay_run(phase, events.drop_last());
        let step = relay_step(before.0, events.last());
        (step.0, before.1.push(step.1))
    }
}

/// The bytes that a read event carries.
pub open spec fn read_bytes(event: RelayEvent) -> Seq<u8> {
    match event {
        RelayEvent::Read(bytes) => bytes@,
        _ => Seq::empty(),
    }
}

/// A read that returned data.
pub open spec fn is_data(event: RelayEvent) -> bool {
    event is Read && read_bytes(event).len() > 0
}

/// The bytes that `actions` write to the sink, in order.
pub open spec fn written(actions: Seq<RelayAction>) -> Seq<u8>
    decreases actions.len(),
{
    if actions.len() == 0 {
        Seq::empty()
    } else {
        let tail = match actions.last() {
            RelayAction::Write(bytes) => bytes@,
            _ => Seq::empty(),
        };
        written(actions.drop_last()) + tail
    }
}

/// Byte-exact relay: whatever chunks a payload arrives in, a relay writes
/// exactly those bytes to the sink, in order, and keeps streaming.
pub proof fn lemma_relay_is_byte_exact(events: Seq<RelayEvent>)
    requires
        forall|i: int| 0 <= i < events.len() ==> is_data(#[trigger] events[i]),
    ensures
        relay_run(RelayPhase::Streaming, events).0 == RelayPhase::Streaming,
        relay_run(RelayPhase::Streaming, events).1.len() == events.len(),
        written(relay_run(RelayPhase::Streaming, events).1) == events.map_values(
            |e: RelayEvent| read_bytes(e),
        ).flatten(),
        forall|i: int|
            0 <= i < events.len() ==> (#[trigger] relay_run(RelayPhase::Streaming, events).1[i])
                is Write,
    decreases events.len(),
{
    let chunks = events.map_values(|e: RelayEvent| read_bytes(e));
    chunks.lemma_flatten_and_flatten_alt_are_equivalent();
    if events.len() > 0 {
        let rest = events.drop_last();
        assert(forall|i: int| 0 <= i < rest.len() ==> rest[i] == events[i]);
        lemma_relay_is_byte_exact(rest);
        let before = relay_run(RelayPhase::Streaming, rest);
        assert(is_data(events[events.len() - 1]));
        assert(before.1.push(relay_step(before.0, events.last()).1).drop_last() == before.1);
        assert(chunks.drop_last() =~= rest.map_values(|e: RelayEvent| read_bytes(e)));
        rest.map_values(|e: RelayEvent| read_bytes(e)).lemma_flatten_and_flatten_alt_are_equivalent();
        let after = relay_run(RelayPhase::Streaming, events).1;
        assert forall|i: int| 0 <= i < events.len() implies (#[trigger] after[i]) is Write by {
            if i < rest.len() {
                assert(after[i] == before.1[i]);
            }
        }
    }
}

/// Half-close: after the data, a clean end of stream from the source ends the
/// direction with one close of the sink's write side, which leaves the sink's
/// read side, and so the opposite direction, running.
pub proof fn lemma_clean_end_closes_write_side(events: Seq<RelayEvent>, end: RelayEvent)
    requires
        forall|i: int| 0 <= i < events.len() ==> is_data(#[trigger] events[i]),
        end is Read,
        read_bytes(end).len() == 0,
    ensures
        relay_run(RelayPhase::Streaming, events.push(end)).0 == RelayPhase::Finished,
        relay_run(RelayPhase::Streaming, events.push(end)).1.last() == RelayAction::CloseWrite,
        written(relay_run(RelayPhase::Streaming, events.push(end)).1) == events.map_values(
            |e: RelayEvent| read_bytes(e),
        ).flatten(),
{
    lemma_relay_is_byte_exact(events);
    assert(events.push(end).drop_last() == events);
    let before = relay_run(RelayPhase::Streaming, events);
    assert(before.1.push(RelayAction::CloseWrite).drop_last() == before.1);
}

/// One direction of a proxied connection: it copies each chunk read from its
/// source to its sink, and passes a clean end of stream on as a half-close.
pub struct Relay {
    phase: RelayPhase,
}

impl View for Relay {
    type V = RelayPhase;

    closed spec fn view(&self) -> RelayPhase {
        self.phase
    }
}

impl Relay {
    pub fn new() -> (r: Relay)
        ensures
            r@ == RelayPhase::Streaming,
    {
        Relay { phase: RelayPhase::Streaming }
    }

    pub fn phase(&self) -> (r: RelayPhase)
        ensures
            r == self@,
    {
        self.phase
    }

    /// Whether this direction has ended, cleanly or not.
    pub fn is_done(&self) -> (r: bool)
        ensures
            r == (self@ != RelayPhase::Streaming),
    {
        self.phase != RelayPhase::Streaming
    }

    /// Takes in what the last read or write gave and says what to do next.
    pub fn on_event(&mut self, event: RelayEvent) -> (r: RelayAction)
        ensures
            (final(self)@, r) == relay_step(old(self)@, event),
    {
        match self.phase {
            RelayPhase::Streaming => match event {
                RelayEvent::Read(bytes) => {
                    if bytes.len() == 0 {
                        self.phase = RelayPhase::Finished;
                        RelayAction::CloseWrite
                    } else {
                        RelayAction::Write(bytes)
                    }
                },
                _ => {
                    self.phase = RelayPhase::Failed;
                    RelayAction::Stop
                },
            },
            _ => RelayAction::Stop,
        }
    }
}

} // verus!
