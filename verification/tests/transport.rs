use key_pipeline::transport::{Reply, Transfer, WRITE_RETRIES};

#[test]
fn transfer_starts_with_an_offer() {
    assert_eq!(Transfer::start(), Transfer::Offer);
    assert!(!Transfer::start().is_done());
}

#[test]
fn retry_limit_is_255() {
    assert_eq!(WRITE_RETRIES, 255);
}

#[test]
fn accepted_report_is_written() {
    assert_eq!(Transfer::Offer.advance(Reply::Offered(true)), Transfer::Write(255));
    assert!(!Transfer::Write(255).is_done());
    assert!(!Transfer::Write(0).is_done());
}

#[test]
fn report_that_is_not_accepted_is_not_written() {
    let next = Transfer::Offer.advance(Reply::Offered(false));
    assert_eq!(next, Transfer::Done);
    assert!(next.is_done());
}

#[test]
fn busy_endpoint_is_tried_again() {
    let mut transfer = Transfer::start().advance(Reply::Offered(true));
    for tried in 1..=100 {
        transfer = transfer.advance(Reply::Written(0));
        assert_eq!(transfer, Transfer::Write(255 - tried));
    }
    assert_eq!(transfer.advance(Reply::Written(8)), Transfer::Done);
}

#[test]
fn busy_endpoint_is_given_up_after_256_writes() {
    let mut transfer = Transfer::start().advance(Reply::Offered(true));
    let mut writes = 0;
    while let Transfer::Write(_) = transfer {
        writes += 1;
        assert!(writes <= 256);
        transfer = transfer.advance(Reply::Written(0));
    }
    assert_eq!(writes, 256);
    assert_eq!(transfer, Transfer::Done);
}

#[test]
fn last_allowed_write_can_still_succeed() {
    assert_eq!(Transfer::Write(1).advance(Reply::Written(0)), Transfer::Write(0));
    assert_eq!(Transfer::Write(0).advance(Reply::Written(8)), Transfer::Done);
    assert_eq!(Transfer::Write(0).advance(Reply::Written(0)), Transfer::Done);
}

#[test]
fn any_run_of_replies_ends_within_257_steps() {
    let replies = [
        Reply::Offered(true),
        Reply::Offered(false),
        Reply::Written(0),
        Reply::Written(8),
        Reply::Failed,
    ];
    // Every reply at the offer, then every reply after any number of busy
    // writes.
    for first in replies {
        for busy in 0..300 {
            for last in replies {
                let mut transfer = Transfer::start();
                let mut steps = 0;
                let answers = std::iter::once(first)
                    .chain(std::iter::repeat(Reply::Written(0)).take(busy))
                    .chain(std::iter::repeat(last));
                for reply in answers {
                    if transfer.is_done() {
                        break;
                    }
                    transfer = transfer.advance(reply);
                    steps += 1;
                }
                assert!(transfer.is_done());
                assert!(steps <= WRITE_RETRIES + 2);
            }
        }
    }
}

#[test]
fn any_count_but_zero_ends_the_transfer() {
    assert_eq!(Transfer::Write(255).advance(Reply::Written(1)), Transfer::Done);
    assert_eq!(Transfer::Write(255).advance(Reply::Written(8)), Transfer::Done);
    assert_eq!(Transfer::Write(7).advance(Reply::Written(usize::MAX)), Transfer::Done);
}

#[test]
fn failed_write_ends_the_transfer() {
    assert_eq!(Transfer::Write(255).advance(Reply::Failed), Transfer::Done);
}

#[test]
fn done_stays_done() {
    assert_eq!(Transfer::Done.advance(Reply::Offered(true)), Transfer::Done);
    assert_eq!(Transfer::Done.advance(Reply::Written(0)), Transfer::Done);
    assert_eq!(Transfer::Done.advance(Reply::Failed), Transfer::Done);
    assert!(Transfer::Done.is_done());
}

#[test]
fn reply_that_does_not_fit_ends_the_transfer() {
    assert_eq!(Transfer::Offer.advance(Reply::Written(0)), Transfer::Done);
    assert_eq!(Transfer::Offer.advance(Reply::Written(8)), Transfer::Done);
    assert_eq!(Transfer::Offer.advance(Reply::Failed), Transfer::Done);
    assert_eq!(Transfer::Write(255).advance(Reply::Offered(true)), Transfer::Done);
    assert_eq!(Transfer::Write(255).advance(Reply::Offered(false)), Transfer::Done);
}
