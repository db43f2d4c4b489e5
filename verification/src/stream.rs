//! Streaming simulation updates to a websocket client: updates are sent in
//! batches, compressed, with a short pause after every few batches.
use vstd::prelude::*;
use crate::app_state::AppError;
use crate::codec::{deflate, deflated, inflated, io_error_text};
use vstd::string::StringSliceAdditionalSpecFns;

verus! {

/// How many updates a batch holds.
pub const BATCH_SIZE: usize = 500;

/// After how many batches the sender pauses.
pub const BREATHE_AFTER_BATCHES: usize = 10;

/// Collects updates into batches of `BATCH_SIZE`.
pub struct UpdateBatcher<T> {
    batch: Vec<T>,
    sent: usize,
}

/// What pushing an update yields: a full batch to send, and whether to
/// pause after sending it.
pub struct Flush<T> {
    pub batch: Option<Vec<T>>,
    pub breathe: bool,
}

impl<T> UpdateBatcher<T> {
    /// The updates waiting to be sent.
    pub closed spec fn pending(&self) -> Seq<T> {
        self.batch@
    }

    /// How many batches were sent since the last pause.
    pub closed spec fn since_pause(&self) -> nat {
        self.sent as nat
    }

    /// The state is consistent.
    pub closed spec fn inv(&self) -> bool {
        &&& self.batch@.len() < BATCH_SIZE
        &&& self.sent < BREATHE_AFTER_BATCHES
    }

    /// Nothing pending.
    pub fn new() -> (b: Self)
        ensures
            b.inv(),
            b.pending() == Seq::<T>::empty(),
            b.since_pause() == 0,
    {
        UpdateBatcher { batch: Vec::new(), sent: 0 }
    }

    /// Adds an update. When the batch is full it is handed out to be sent,
    /// and every `BREATHE_AFTER_BATCHES`-th batch asks for a pause.
    pub fn push(&mut self, update: T) -> (r: Flush<T>)
        requires
            old(self).inv(),
        ensures
            final(self).inv(),
            old(self).pending().len() + 1 == BATCH_SIZE ==> {
                &&& r.batch matches Some(b) && b@ == old(self).pending().push(update)
                &&& final(self).pending() == Seq::<T>::empty()
                &&& r.breathe == (old(self).since_pause() + 1 == BREATHE_AFTER_BATCHES)
                &&& final(self).since_pause() == if r.breathe { 0 } else { old(self).since_pause() + 1 }
            },
            old(self).pending().len() + 1 < BATCH_SIZE ==> {
                &&& r.batch is None
                &&& !r.breathe
                &&& final(self).pending() == old(self).pending().push(update)
                &&& final(self).since_pause() == old(self).since_pause()
            },
    {
        self.batch.push(update);
        if self.batch.len() >= BATCH_SIZE {
            let mut full: Vec<T> = Vec::new();
            std::mem::swap(&mut full, &mut self.batch);
            let breathe = self.sent + 1 == BREATHE_AFTER_BATCHES;
            self.sent = if breathe { 0 } else { self.sent + 1 };
            Flush { batch: Some(full), breathe }
        } else {
            Flush { batch: None, breathe: false }
        }
    }

    /// Hands out the updates still waiting, if any, at the end of a
    /// simulation.
    pub fn finish(&mut self) -> (r: Option<Vec<T>>)
        requires
            old(self).inv(),
        ensures
            final(self).inv(),
            final(self).pending() == Seq::<T>::empty(),
            final(self).since_pause() == old(self).since_pause(),
            old(self).pending().len() == 0 ==> r is None,
            old(self).pending().len() > 0 ==> (r matches Some(b) && b@ == old(self).pending()),
    {
        if self.batch.len() == 0 {
            None
        } else {
            let mut rest: Vec<T> = Vec::new();
            std::mem::swap(&mut rest, &mut self.batch);
            Some(rest)
        }
    }
}

/// Compresses a message for the websocket with raw deflate; it inflates
/// back to the message's bytes. Compressing into memory does not fail.
pub fn compress_data(data: &str) -> (r: Result<Vec<u8>, AppError>)
    ensures
        r is Ok,
        r matches Ok(v) ==> v@ == deflated(data.spec_bytes()) && inflated(v@) == Some(data.spec_bytes()),
{
    match deflate(data.as_bytes()) {
        Ok(v) => Ok(v),
        Err(e) => Err(AppError::InternalError(io_error_text(&e))),
    }
}

} // verus!
