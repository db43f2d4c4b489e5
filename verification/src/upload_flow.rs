//! What the upload routes do with each chunk, in order: the first chunk of
//! an upload is checked against the rate limits (a refusal is logged and
//! answered), every chunk is stored, and once all have arrived the upload
//! is counted against the limits and replayed. A large upload is parsed
//! first: one without a valid order is answered with the parse figures
//! alone, any other is checked against the limits again by its real order
//! count. The checks, stores and records are the caller's work: each step
//! says what to do next, and the caller reports back how it went.
use vstd::prelude::*;

verus! {

/// Which upload route a chunk came by.
#[derive(Clone, Copy, Debug, PartialEq, Eq, Structural)]
pub enum UploadKind {
    /// Already parsed orders; the first chunk announces how many in all.
    Small,
    /// Raw file bytes, parsed once complete.
    Large,
}

/// Where the handling of one chunk stands.
#[derive(Clone, Copy, Debug, PartialEq, Eq, Structural)]
pub enum UploadState {
    /// Nothing has happened yet.
    Idle,
    /// The first chunk waits for the rate-limit check of `orders` orders.
    CheckingChunk { kind: UploadKind, orders: usize },
    /// The chunk is being stored.
    Storing { kind: UploadKind, orders: usize },
    /// The complete large upload is being parsed.
    Parsing,
    /// The parsed upload waits for the rate-limit check of its orders.
    CheckingUpload { orders: usize },
    /// The upload's orders are being counted against the limits.
    Recording { orders: usize },
    /// The orders are being replayed.
    Running,
    /// The answer has been given.
    Done,
}

/// What happened while handling a chunk.
#[derive(Clone, Copy, Debug, PartialEq, Eq, Structural)]
pub enum UploadEvent {
    /// Chunk `chunk_number` arrived; `orders` is the number of orders the
    /// upload announces (small) or is estimated to hold (large).
    ChunkArrived { kind: UploadKind, chunk_number: usize, orders: usize },
    /// The rate-limit check answered.
    LimitChecked { within_limit: bool },
    /// The chunk was stored; `complete` when every chunk is now in.
    Stored { complete: bool },
    /// The complete large upload holds `orders` valid orders.
    Parsed { orders: usize },
    /// Counting the orders against the limits succeeded or failed.
    OrdersRecorded { recorded: bool },
    /// The orders were replayed.
    Ran,
}

/// What the caller does next, in order.
#[derive(Clone, Copy, Debug, PartialEq, Eq, Structural)]
pub enum UploadAction {
    /// Check `orders` more orders against the rate limits.
    CheckLimit { orders: usize },
    /// Log the visit with its order count and whether it was refused.
    RecordVisit { orders: usize, rate_limited: bool },
    /// Answer that the rate limit is exceeded.
    RefuseRateLimited,
    /// Store the chunk.
    Store,
    /// Answer that the upload is not complete yet.
    AnswerPending,
    /// Parse the complete large upload.
    Parse,
    /// Answer with the parse figures alone: no valid order was found.
    AnswerParsedOnly,
    /// Count `orders` orders against the rate limits.
    RecordOrders { orders: usize },
    /// Answer that counting the orders failed.
    FailRecording,
    /// Replay the orders.
    Run,
    /// End the session and answer with the results.
    ClearAndAnswer,
}

/// The state and the actions, in order, that an event leads to. An event
/// that does not fit the state changes nothing.
pub open spec fn upload_next(s: UploadState, e: UploadEvent) -> (UploadState, Seq<UploadAction>) {
    match (s, e) {
        (UploadState::Idle, UploadEvent::ChunkArrived { kind, chunk_number, orders }) => if chunk_number == 0 {
            (UploadState::CheckingChunk { kind, orders }, seq![UploadAction::CheckLimit { orders }])
        } else {
            (UploadState::Storing { kind, orders }, seq![UploadAction::Store])
        },
        (UploadState::CheckingChunk { kind, orders }, UploadEvent::LimitChecked { within_limit }) => if within_limit {
            (UploadState::Storing { kind, orders }, seq![UploadAction::Store])
        } else {
            (
                UploadState::Done,
                seq![UploadAction::RecordVisit { orders: 0, rate_limited: true }, UploadAction::RefuseRateLimited],
            )
        },
        (UploadState::Storing { kind, orders }, UploadEvent::Stored { complete }) => if !complete {
            (UploadState::Done, seq![UploadAction::AnswerPending])
        } else {
            match kind {
                UploadKind::Small => (
                    UploadState::Recording { orders },
                    seq![
                        UploadAction::RecordVisit { orders, rate_limited: false },
                        UploadAction::RecordOrders { orders },
                    ],
                ),
                UploadKind::Large => (UploadState::Parsing, seq![UploadAction::Parse]),
            }
        },
        (UploadState::Parsing, UploadEvent::Parsed { orders }) => if orders == 0 {
            (UploadState::Done, seq![UploadAction::AnswerParsedOnly])
        } else {
            (UploadState::CheckingUpload { orders }, seq![UploadAction::CheckLimit { orders }])
        },
        (UploadState::CheckingUpload { orders }, UploadEvent::LimitChecked { within_limit }) => if within_limit {
            (
                UploadState::Recording { orders },
                seq![
                    UploadAction::RecordVisit { orders, rate_limited: false },
                    UploadAction::RecordOrders { orders },
                ],
            )
        } else {
            (UploadState::Done, seq![UploadAction::RefuseRateLimited])
        },
        (UploadState::Recording { .. }, UploadEvent::OrdersRecorded { recorded }) => if recorded {
            (UploadState::Running, seq![UploadAction::Run])
        } else {
            (UploadState::Done, seq![UploadAction::FailRecording])
        },
        (UploadState::Running, UploadEvent::Ran) => (UploadState::Done, seq![UploadAction::ClearAndAnswer]),
        _ => (s, Seq::empty()),
    }
}

/// One step of handling an upload chunk: the state it moves to on `event`,
/// and what to do, in order.
pub fn upload_step(state: UploadState, event: UploadEvent) -> (r: (UploadState, Vec<UploadAction>))
    ensures
        (r.0, r.1@) == upload_next(state, event),
{
    let mut acts: Vec<UploadAction> = Vec::new();
    let next = match (state, event) {
        (UploadState::Idle, UploadEvent::ChunkArrived { kind, chunk_number, orders }) => {
            if chunk_number == 0 {
                acts.push(UploadAction::CheckLimit { orders });
                UploadState::CheckingChunk { kind, orders }
            } else {
                acts.push(UploadAction::Store);
                UploadState::Storing { kind, orders }
            }
        },
        (UploadState::CheckingChunk { kind, orders }, UploadEvent::LimitChecked { within_limit }) => {
            if within_limit {
                acts.push(UploadAction::Store);
                UploadState::Storing { kind, orders }
            } else {
                acts.push(UploadAction::RecordVisit { orders: 0, rate_limited: true });
                acts.push(UploadAction::RefuseRateLimited);
                UploadState::Done
            }
        },
        (UploadState::Storing { kind, orders }, UploadEvent::Stored { complete }) => {
            if !complete {
                acts.push(UploadAction::AnswerPending);
                UploadState::Done
            } else {
                match kind {
                    UploadKind::Small => {
                        acts.push(UploadAction::RecordVisit { orders, rate_limited: false });
                        acts.push(UploadAction::RecordOrders { orders });
                        UploadState::Recording { orders }
                    },
                    UploadKind::Large => {
                        acts.push(UploadAction::Parse);
                        UploadState::Parsing
                    },
                }
            }
        },
        (UploadState::Parsing, UploadEvent::Parsed { orders }) => {
            if orders == 0 {
                acts.push(UploadAction::AnswerParsedOnly);
                UploadState::Done
            } else {
                acts.push(UploadAction::CheckLimit { orders });
                UploadState::CheckingUpload { orders }
            }
        },
        (UploadState::CheckingUpload { orders }, UploadEvent::LimitChecked { within_limit }) => {
            if within_limit {
                acts.push(UploadAction::RecordVisit { orders, rate_limited: false });
                acts.push(UploadAction::RecordOrders { orders });
                UploadState::Recording { orders }
            } else {
                acts.push(UploadAction::RefuseRateLimited);
                UploadState::Done
            }
        },
        (UploadState::Recording { .. }, UploadEvent::OrdersRecorded { recorded }) => {
            if recorded {
                acts.push(UploadAction::Run);
                UploadState::Running
            } else {
                acts.push(UploadAction::FailRecording);
                UploadState::Done
            }
        },
        (UploadState::Running, UploadEvent::Ran) => {
            acts.push(UploadAction::ClearAndAnswer);
            UploadState::Done
        },
        _ => state,
    };
    proof {
        assert(acts@ =~= upload_next(state, event).1);
    }
    (next, acts)
}

/// An upload is answered as rate limited only right after a limit check
/// that found the limit exceeded, and then nothing more is done.
pub proof fn law_refusal_only_over_limit(s: UploadState, e: UploadEvent)
    ensures
        upload_next(s, e).1.contains(UploadAction::RefuseRateLimited) ==> e == (UploadEvent::LimitChecked {
            within_limit: false,
        }) && upload_next(s, e).0 == UploadState::Done,
        e == (UploadEvent::LimitChecked { within_limit: true }) ==> !upload_next(s, e).1.contains(
            UploadAction::RefuseRateLimited,
        ),
{
    let acts = upload_next(s, e).1;
    if acts.contains(UploadAction::RefuseRateLimited) {
        let k = choose|k: int| 0 <= k < acts.len() && acts[k] == UploadAction::RefuseRateLimited;
        assert(acts[k] == UploadAction::RefuseRateLimited);
    }
}

/// A large upload of one chunk whose estimate and whose parsed orders are
/// both within the limits is stored, parsed, checked again by its real
/// order count, logged and counted, replayed, and answered with its
/// results.
pub proof fn law_large_upload_within_limits_is_processed(estimate: usize, parsed: usize)
    requires
        parsed > 0,
    ensures
        ({
            let (s1, a1) = upload_next(
                UploadState::Idle,
                UploadEvent::ChunkArrived { kind: UploadKind::Large, chunk_number: 0, orders: estimate },
            );
            let (s2, a2) = upload_next(s1, UploadEvent::LimitChecked { within_limit: true });
            let (s3, a3) = upload_next(s2, UploadEvent::Stored { complete: true });
            let (s4, a4) = upload_next(s3, UploadEvent::Parsed { orders: parsed });
            let (s5, a5) = upload_next(s4, UploadEvent::LimitChecked { within_limit: true });
            let (s6, a6) = upload_next(s5, UploadEvent::OrdersRecorded { recorded: true });
            let (s7, a7) = upload_next(s6, UploadEvent::Ran);
            &&& s7 == UploadState::Done
            &&& a1 + a2 + a3 + a4 + a5 + a6 + a7 == seq![
                UploadAction::CheckLimit { orders: estimate },
                UploadAction::Store,
                UploadAction::Parse,
                UploadAction::CheckLimit { orders: parsed },
                UploadAction::RecordVisit { orders: parsed, rate_limited: false },
                UploadAction::RecordOrders { orders: parsed },
                UploadAction::Run,
                UploadAction::ClearAndAnswer,
            ]
        }),
{
    let (s1, a1) = upload_next(
        UploadState::Idle,
        UploadEvent::ChunkArrived { kind: UploadKind::Large, chunk_number: 0, orders: estimate },
    );
    let (s2, a2) = upload_next(s1, UploadEvent::LimitChecked { within_limit: true });
    let (s3, a3) = upload_next(s2, UploadEvent::Stored { complete: true });
    let (s4, a4) = upload_next(s3, UploadEvent::Parsed { orders: parsed });
    let (s5, a5) = upload_next(s4, UploadEvent::LimitChecked { within_limit: true });
    let (s6, a6) = upload_next(s5, UploadEvent::OrdersRecorded { recorded: true });
    let (s7, a7) = upload_next(s6, UploadEvent::Ran);
    assert(a1 + a2 + a3 + a4 + a5 + a6 + a7 =~= seq![
        UploadAction::CheckLimit { orders: estimate },
        UploadAction::Store,
        UploadAction::Parse,
        UploadAction::CheckLimit { orders: parsed },
        UploadAction::RecordVisit { orders: parsed, rate_limited: false },
        UploadAction::RecordOrders { orders: parsed },
        UploadAction::Run,
        UploadAction::ClearAndAnswer,
    ]);
}

/// A small upload of one chunk whose announced orders are within the limits
/// is stored, logged and counted, replayed, and answered with its results.
pub proof fn law_small_upload_within_limits_is_processed(orders: usize)
    ensures
        ({
            let (s1, a1) = upload_next(
                UploadState::Idle,
                UploadEvent::ChunkArrived { kind: UploadKind::Small, chunk_number: 0, orders },
            );
            let (s2, a2) = upload_next(s1, UploadEvent::LimitChecked { within_limit: true });
            let (s3, a3) = upload_next(s2, UploadEvent::Stored { complete: true });
            let (s4, a4) = upload_next(s3, UploadEvent::OrdersRecorded { recorded: true });
            let (s5, a5) = upload_next(s4, UploadEvent::Ran);
            &&& s5 == UploadState::Done
            &&& a1 + a2 + a3 + a4 + a5 == seq![
                UploadAction::CheckLimit { orders },
                UploadAction::Store,
                UploadAction::RecordVisit { orders, rate_limited: false },
                UploadAction::RecordOrders { orders },
                UploadAction::Run,
                UploadAction::ClearAndAnswer,
            ]
        }),
{
    let (s1, a1) = upload_next(UploadState::Idle, UploadEvent::ChunkArrived { kind: UploadKind::Small, chunk_number: 0, orders });
    let (s2, a2) = upload_next(s1, UploadEvent::LimitChecked { within_limit: true });
    let (s3, a3) = upload_next(s2, UploadEvent::Stored { complete: true });
    let (s4, a4) = upload_next(s3, UploadEvent::OrdersRecorded { recorded: true });
    let (s5, a5) = upload_next(s4, UploadEvent::Ran);
    assert(a1 + a2 + a3 + a4 + a5 =~= seq![
        UploadAction::CheckLimit { orders },
        UploadAction::Store,
        UploadAction::RecordVisit { orders, rate_limited: false },
        UploadAction::RecordOrders { orders },
        UploadAction::Run,
        UploadAction::ClearAndAnswer,
    ]);
}

/// A first chunk over the limits is logged as a rate-limited visit with no
/// orders and answered as refused; a later chunk is stored without a check
/// and, while chunks are due, answered as pending; a complete large upload
/// without a valid order is answered with its parse figures alone.
pub proof fn law_other_chunk_outcomes(kind: UploadKind, chunk_number: usize, orders: usize)
    ensures
        ({
            let (s1, a1) = upload_next(UploadState::Idle, UploadEvent::ChunkArrived { kind, chunk_number: 0, orders });
            let (s2, a2) = upload_next(s1, UploadEvent::LimitChecked { within_limit: false });
            s2 == UploadState::Done && a1 + a2 == seq![
                UploadAction::CheckLimit { orders },
                UploadAction::RecordVisit { orders: 0, rate_limited: true },
                UploadAction::RefuseRateLimited,
            ]
        }),
        chunk_number > 0 ==> ({
            let (s1, a1) = upload_next(UploadState::Idle, UploadEvent::ChunkArrived { kind, chunk_number, orders });
            let (s2, a2) = upload_next(s1, UploadEvent::Stored { complete: false });
            s2 == UploadState::Done && a1 + a2 == seq![UploadAction::Store, UploadAction::AnswerPending]
        }),
        chunk_number > 0 ==> ({
            let (s1, a1) = upload_next(
                UploadState::Idle,
                UploadEvent::ChunkArrived { kind: UploadKind::Large, chunk_number, orders },
            );
            let (s2, a2) = upload_next(s1, UploadEvent::Stored { complete: true });
            let (s3, a3) = upload_next(s2, UploadEvent::Parsed { orders: 0 });
            s3 == UploadState::Done && a1 + a2 + a3 == seq![
                UploadAction::Store,
                UploadAction::Parse,
                UploadAction::AnswerParsedOnly,
            ]
        }),
{
    let (s1, a1) = upload_next(UploadState::Idle, UploadEvent::ChunkArrived { kind, chunk_number: 0, orders });
    let (s2, a2) = upload_next(s1, UploadEvent::LimitChecked { within_limit: false });
    assert(a1 + a2 =~= seq![
        UploadAction::CheckLimit { orders },
        UploadAction::RecordVisit { orders: 0, rate_limited: true },
        UploadAction::RefuseRateLimited,
    ]);
    if chunk_number > 0 {
        let (t1, b1) = upload_next(UploadState::Idle, UploadEvent::ChunkArrived { kind, chunk_number, orders });
        let (t2, b2) = upload_next(t1, UploadEvent::Stored { complete: false });
        assert(b1 + b2 =~= seq![UploadAction::Store, UploadAction::AnswerPending]);
        let (u1, c1) = upload_next(
            UploadState::Idle,
            UploadEvent::ChunkArrived { kind: UploadKind::Large, chunk_number, orders },
        );
        let (u2, c2) = upload_next(u1, UploadEvent::Stored { complete: true });
        let (u3, c3) = upload_next(u2, UploadEvent::Parsed { orders: 0 });
        assert(c1 + c2 + c3 =~= seq![UploadAction::Store, UploadAction::Parse, UploadAction::AnswerParsedOnly]);
    }
}

} // verus!
