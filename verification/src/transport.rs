//! Handing one report to the transport: the report is offered, and where it
//! is accepted its bytes are written until the endpoint takes them or the
//! allowed number of writes is used up.

use vstd::prelude::*;

verus! {

/// How often a write that found the endpoint busy is tried again. With the
/// first write this makes 256 writes for one report; a report that the
/// endpoint has not taken by then is given up, so that a host that does not
/// drain the endpoint cannot hold up the scan.
pub const WRITE_RETRIES: usize = 255;

/// What is to be done next with a report.
#[derive(Clone, Copy, Debug, PartialEq, Eq, Structural)]
pub enum Transfer {
    /// Offer the report as the pending one.
    Offer,
    /// Write the bytes of the report to the endpoint. The number says how
    /// many more writes may follow this one if the endpoint is busy.
    Write(usize),
    /// Nothing is left to do.
    Done,
}

/// What the transport answered to the last request.
#[derive(Clone, Copy, Debug, PartialEq, Eq, Structural)]
pub enum Reply {
    /// To an offer: whether the report was accepted.
    Offered(bool),
    /// To a write: the number of bytes taken; 0 where the endpoint is busy.
    Written(usize),
    /// To a write: it failed.
    Failed,
}

/// The request that follows `transfer` once the transport has answered
/// `reply`. An accepted report is written, with `WRITE_RETRIES` further
/// writes allowed. A write that took nothing is tried again while writes are
/// left. Every other answer ends the transfer: a report that was not
/// accepted, a write that took bytes or failed, a busy endpoint when no
/// write is left, and an answer that does not fit the request.
pub open spec fn after(transfer: Transfer, reply: Reply) -> Transfer {
    match (transfer, reply) {
        (Transfer::Offer, Reply::Offered(true)) => Transfer::Write(WRITE_RETRIES),
        (Transfer::Write(left), Reply::Written(0)) => if left > 0 {
            Transfer::Write((left - 1) as usize)
        } else {
            Transfer::Done
        },
        _ => Transfer::Done,
    }
}

/// The request that stands after the answers `replies`, oldest first.
pub open spec fn after_all(transfer: Transfer, replies: Seq<Reply>) -> Transfer
    decreases replies.len(),
{
    if replies.len() == 0 {
        transfer
    } else {
        after(after_all(transfer, replies.drop_last()), replies.last())
    }
}

/// The most answers that `transfer` can still take before it is done.
pub open spec fn steps_left(transfer: Transfer) -> nat {
    match transfer {
        Transfer::Offer => (WRITE_RETRIES + 2) as nat,
        Transfer::Write(left) => (left + 1) as nat,
        Transfer::Done => 0,
    }
}

impl Transfer {
    /// The first request for a new report.
    pub fn start() -> (transfer: Transfer)
        ensures
            transfer == Transfer::Offer,
    {
        Transfer::Offer
    }

    /// The request that follows this one once the transport has answered
    /// `reply`.
    pub fn advance(self, reply: Reply) -> (next: Transfer)
        ensures
            next == after(self, reply),
    {
        match self {
            Transfer::Offer => match reply {
                Reply::Offered(accepted) => if accepted {
                    Transfer::Write(WRITE_RETRIES)
                } else {
                    Transfer::Done
                },
                _ => Transfer::Done,
            },
            Transfer::Write(left) => match reply {
                Reply::Written(count) => if count == 0 && left > 0 {
                    Transfer::Write(left - 1)
                } else {
                    Transfer::Done
                },
                _ => Transfer::Done,
            },
            Transfer::Done => Transfer::Done,
        }
    }

    /// Whether nothing is left to do.
    pub fn is_done(self) -> (done: bool)
        ensures
            done == (self == Transfer::Done),
    {
        match self {
            Transfer::Done => true,
            _ => false,
        }
    }
}

/// Every answer brings the end of a transfer nearer, and a transfer that is
/// done stays done.
pub proof fn lemma_reply_brings_end_nearer(transfer: Transfer, reply: Reply)
    ensures
        transfer != Transfer::Done ==> steps_left(after(transfer, reply)) < steps_left(transfer),
        transfer == Transfer::Done ==> after(transfer, reply) == Transfer::Done,
        steps_left(transfer) == 0 <==> transfer == Transfer::Done,
{
}

/// After any answers, a transfer has as many steps less to go as answers
/// came, or is done.
pub proof fn lemma_steps_run_out(transfer: Transfer, replies: Seq<Reply>)
    ensures
        steps_left(after_all(transfer, replies)) + replies.len() <= steps_left(transfer)
            || after_all(transfer, replies) == Transfer::Done,
    decreases replies.len(),
{
    if replies.len() > 0 {
        lemma_steps_run_out(transfer, replies.drop_last());
        lemma_reply_brings_end_nearer(after_all(transfer, replies.drop_last()), replies.last());
    }
}

/// The retry is bounded: whatever the transport answers, a new transfer is
/// done after `WRITE_RETRIES + 2` answers at the latest, one to the offer
/// and one to each of the `WRITE_RETRIES + 1` writes.
pub proof fn lemma_transfer_ends(replies: Seq<Reply>)
    requires
        replies.len() >= WRITE_RETRIES + 2,
    ensures
        after_all(Transfer::Offer, replies) == Transfer::Done,
{
    lemma_steps_run_out(Transfer::Offer, replies);
}

/// While the endpoint stays busy, an accepted report is written
/// `WRITE_RETRIES + 1` times and no more: the transfer asks for a write
/// after the acceptance and after each of the first `WRITE_RETRIES` busy
/// answers, and is done after the next.
pub proof fn lemma_busy_endpoint_is_given_up(busy: nat)
    ensures
        after_all(Transfer::Write(WRITE_RETRIES), Seq::new(busy, |i: int| Reply::Written(0)))
            == if busy <= WRITE_RETRIES {
            Transfer::Write((WRITE_RETRIES - busy) as usize)
        } else {
            Transfer::Done
        },
    decreases busy,
{
    let replies = Seq::new(busy, |i: int| Reply::Written(0));
    if busy > 0 {
        lemma_busy_endpoint_is_given_up((busy - 1) as nat);
        assert(replies.drop_last() =~= Seq::new((busy - 1) as nat, |i: int| Reply::Written(0)));
    }
}

} // verus!
