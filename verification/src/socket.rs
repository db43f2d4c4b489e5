//! What the simulation socket does with each request of its client: a
//! start is checked against the rate limits, recorded, and then runs the
//! simulation; a stop or an acknowledgement closes the socket. The checks
//! and records themselves are the caller's work: each step says what to do
//! next, and the caller reports back how it went.
use vstd::prelude::*;

verus! {

/// The close code of a normal closure.
pub const CLOSE_NORMAL: u16 = 1000;

/// The close code of a closure because a request was too large.
pub const CLOSE_SIZE: u16 = 1009;

/// Where a simulation socket stands.
#[derive(Clone, Copy, Debug, PartialEq, Eq, Structural)]
pub enum SocketState {
    /// Waiting for the client's next request.
    Open,
    /// A start for `orders` orders waits for the rate-limit check.
    CheckingLimit { orders: usize },
    /// A start for `orders` orders waits for them to be counted.
    RecordingOrders { orders: usize },
    /// The socket is done.
    Closed,
}

/// What happened on the socket.
#[derive(Clone, Copy, Debug, PartialEq, Eq, Structural)]
pub enum SocketEvent {
    /// The client asks for a simulation of `total_objects` orders.
    Start { total_objects: usize },
    /// The client asks to stop the simulation.
    Stop,
    /// The client acknowledges that the simulation is complete.
    Ack,
    /// The rate-limit check answered.
    LimitChecked { within_limit: bool },
    /// Counting the orders against the limits succeeded or failed.
    OrdersRecorded { recorded: bool },
    /// The client closed the socket, or sent what is no request.
    ClientGone,
}

/// What the caller does next, in order.
#[derive(Debug)]
pub enum SocketAction {
    /// Check `orders` more orders against the rate limits.
    CheckLimit { orders: usize },
    /// Tell the client its request exceeds the rate limit.
    SendRateLimitExceeded,
    /// Log the visit with its order count and whether it was refused.
    RecordVisit { orders: usize, rate_limited: bool },
    /// Count `orders` orders against the rate limits.
    RecordOrders { orders: usize },
    /// Run a simulation of `orders` orders.
    StartSimulation { orders: usize },
    /// Close the socket with a code and a reason.
    Close { code: u16, reason: String },
}

/// The state a socket moves to on an event. An event that does not fit
/// the state changes nothing; a closed socket stays closed.
pub open spec fn next_state(s: SocketState, e: SocketEvent) -> SocketState {
    match (s, e) {
        (SocketState::Closed, _) => SocketState::Closed,
        (_, SocketEvent::ClientGone) => SocketState::Closed,
        (SocketState::Open, SocketEvent::Start { total_objects }) => SocketState::CheckingLimit { orders: total_objects },
        (SocketState::Open, SocketEvent::Stop) => SocketState::Closed,
        (SocketState::Open, SocketEvent::Ack) => SocketState::Closed,
        (SocketState::CheckingLimit { orders }, SocketEvent::LimitChecked { within_limit }) => if within_limit {
            SocketState::RecordingOrders { orders }
        } else {
            SocketState::Closed
        },
        (SocketState::RecordingOrders { .. }, SocketEvent::OrdersRecorded { recorded }) => if recorded {
            SocketState::Open
        } else {
            SocketState::Closed
        },
        _ => s,
    }
}

/// `a` is a closing action with `code` and `reason`.
pub open spec fn closes_with(a: SocketAction, code: u16, reason: Seq<char>) -> bool {
    a matches SocketAction::Close { code: c, reason: r } && c == code && r@ == reason
}

/// The actions a socket takes on an event, in order.
pub open spec fn actions_for(s: SocketState, e: SocketEvent, acts: Seq<SocketAction>) -> bool {
    match (s, e) {
        (SocketState::Closed, _) => acts.len() == 0,
        (_, SocketEvent::ClientGone) => acts.len() == 0,
        (SocketState::Open, SocketEvent::Start { total_objects }) => {
            &&& acts.len() == 1
            &&& acts[0] matches SocketAction::CheckLimit { orders } && orders == total_objects
        },
        (SocketState::Open, SocketEvent::Stop) => acts.len() == 1 && closes_with(acts[0], CLOSE_NORMAL, "client requested to stop simulation"@),
        (SocketState::Open, SocketEvent::Ack) => acts.len() == 1 && closes_with(acts[0], CLOSE_NORMAL, "simulation complete"@),
        (SocketState::CheckingLimit { orders }, SocketEvent::LimitChecked { within_limit }) => if within_limit {
            &&& acts.len() == 2
            &&& acts[0] matches SocketAction::RecordVisit { orders: n, rate_limited } && n == orders && !rate_limited
            &&& acts[1] matches SocketAction::RecordOrders { orders: n } && n == orders
        } else {
            &&& acts.len() == 3
            &&& acts[0] is SendRateLimitExceeded
            &&& acts[1] matches SocketAction::RecordVisit { orders: n, rate_limited } && n == 0 && rate_limited
            &&& closes_with(acts[2], CLOSE_SIZE, "max order limit reached"@)
        },
        (SocketState::RecordingOrders { orders }, SocketEvent::OrdersRecorded { recorded }) => if recorded {
            &&& acts.len() == 1
            &&& acts[0] matches SocketAction::StartSimulation { orders: n } && n == orders
        } else {
            acts.len() == 0
        },
        _ => acts.len() == 0,
    }
}

/// One step of a simulation socket: the state it moves to on `event`, and
/// what to do, in order.
pub fn socket_step(state: SocketState, event: SocketEvent) -> (r: (SocketState, Vec<SocketAction>))
    ensures
        r.0 == next_state(state, event),
        actions_for(state, event, r.1@),
{
    let mut acts: Vec<SocketAction> = Vec::new();
    match (state, event) {
        (SocketState::Closed, _) => (SocketState::Closed, acts),
        (_, SocketEvent::ClientGone) => (SocketState::Closed, acts),
        (SocketState::Open, SocketEvent::Start { total_objects }) => {
            acts.push(SocketAction::CheckLimit { orders: total_objects });
            (SocketState::CheckingLimit { orders: total_objects }, acts)
        },
        (SocketState::Open, SocketEvent::Stop) => {
            proof {
                reveal_strlit("client requested to stop simulation");
            }
            acts.push(SocketAction::Close { code: CLOSE_NORMAL, reason: "client requested to stop simulation".to_owned() });
            (SocketState::Closed, acts)
        },
        (SocketState::Open, SocketEvent::Ack) => {
            proof {
                reveal_strlit("simulation complete");
            }
            acts.push(SocketAction::Close { code: CLOSE_NORMAL, reason: "simulation complete".to_owned() });
            (SocketState::Closed, acts)
        },
        (SocketState::CheckingLimit { orders }, SocketEvent::LimitChecked { within_limit }) => {
            if within_limit {
                acts.push(SocketAction::RecordVisit { orders, rate_limited: false });
                acts.push(SocketAction::RecordOrders { orders });
                (SocketState::RecordingOrders { orders }, acts)
            } else {
                proof {
                    reveal_strlit("max order limit reached");
                }
                acts.push(SocketAction::SendRateLimitExceeded);
                acts.push(SocketAction::RecordVisit { orders: 0, rate_limited: true });
                acts.push(SocketAction::Close { code: CLOSE_SIZE, reason: "max order limit reached".to_owned() });
                (SocketState::Closed, acts)
            }
        },
        (SocketState::RecordingOrders { orders }, SocketEvent::OrdersRecorded { recorded }) => {
            if recorded {
                acts.push(SocketAction::StartSimulation { orders });
                (SocketState::Open, acts)
            } else {
                (SocketState::Closed, acts)
            }
        },
        _ => (state, acts),
    }
}

} // verus!
