use x11_client::correlator::{
    arrival_outcome, settle_slot, Correlator, Dispatch, PendingSlot, Phase, Resolution,
};
use x11_client::error::{CredentialError, Error, ValidationError};
use x11_client::protocol::{Arrival, Reply, ReplyKind};
use x11_client::value_list::ValueList;
use x11_client::wire::Endianness;
use x11_client::xauth::{Family, Xauth};
use x11_client::xproto::create_window::CreateWindow;

fn credential() -> Result<Xauth, CredentialError> {
    Ok(Xauth {
        family: Family::Local,
        address: b"unix:0".to_vec(),
        number: b"0".to_vec(),
        name: b"MIT-MAGIC-COOKIE-1".to_vec(),
        data: vec![7; 16],
    })
}

fn active() -> Correlator<&'static str> {
    let mut table = Correlator::new();
    assert_eq!(table.establish(&credential()), Ok(()));
    table
}

#[test]
fn new_connection_is_open_and_empty() {
    let table: Correlator<u32> = Correlator::new();
    assert_eq!(table.phase(), Phase::Open);
    assert_eq!(table.next_sequence(), 1);
    assert_eq!(table.pending_count(), 0);
    assert!(!table.is_pending(1));
}

#[test]
fn establish_activates_an_open_connection() {
    let mut table: Correlator<u32> = Correlator::new();
    assert_eq!(table.establish(&credential()), Ok(()));
    assert_eq!(table.phase(), Phase::Active);
}

#[test]
fn failed_credential_lookup_blocks_establishment() {
    for failure in [
        CredentialError::InvalidFamily,
        CredentialError::TruncatedData,
        CredentialError::UnresolvableCredentialPath,
    ] {
        let mut table: Correlator<u32> = Correlator::new();
        assert_eq!(table.establish(&Err(failure)), Err(Error::Credential(failure)));
        assert_eq!(table.phase(), Phase::Open);
        assert_eq!(
            table.register(ReplyKind::Wire, 5),
            Dispatch::Refused { handle: 5, error: Error::Validation(ValidationError::NotActive) }
        );
    }
}

#[test]
fn establish_twice_is_refused() {
    let mut table = active();
    assert_eq!(
        table.establish(&credential()),
        Err(Error::Validation(ValidationError::AlreadyActive))
    );
    assert_eq!(table.phase(), Phase::Active);
}

#[test]
fn establish_after_close_is_refused() {
    let mut table = active();
    table.close();
    assert_eq!(table.establish(&credential()), Err(Error::ConnectionClosed));
    assert_eq!(table.phase(), Phase::Closed);
}

#[test]
fn request_before_establishment_is_refused() {
    let mut table: Correlator<&str> = Correlator::new();
    assert_eq!(
        table.register(ReplyKind::Implicit, "a"),
        Dispatch::Refused { handle: "a", error: Error::Validation(ValidationError::NotActive) }
    );
    assert_eq!(table.next_sequence(), 1);
}

#[test]
fn reply_resolves_its_request_exactly_once() {
    let mut table = active();
    assert_eq!(table.register(ReplyKind::Wire, "caller"), Dispatch::Registered { sequence: 1 });
    assert!(table.is_pending(1));
    assert_eq!(
        table.resolve(1, Arrival::Reply(vec![1, 2, 3])),
        Resolution::Deliver {
            sequence: 1,
            handle: "caller",
            outcome: Ok(Reply::Payload(vec![1, 2, 3])),
        }
    );
    assert!(!table.is_pending(1));
    assert_eq!(table.resolve(1, Arrival::Reply(vec![1, 2, 3])), Resolution::Unmatched);
    assert_eq!(table.resolve(1, Arrival::Error(3)), Resolution::Unmatched);
    assert_eq!(table.pending_count(), 0);
}

#[test]
fn implicit_reply_resolves_at_once() {
    let mut table = active();
    assert_eq!(
        table.register(ReplyKind::Implicit, "caller"),
        Dispatch::Immediate { sequence: 1, handle: "caller", reply: Reply::Void }
    );
    assert_eq!(table.pending_count(), 0);
    assert!(!table.is_pending(1));
    assert_eq!(table.next_sequence(), 2);
    assert_eq!(table.resolve(1, Arrival::Reply(vec![])), Resolution::Unmatched);
}

#[test]
fn encoded_create_window_resolves_on_write() {
    let request = CreateWindow {
        wid: 1,
        parent: 2,
        class: 1,
        depth: 24,
        visual: 0,
        x: 0,
        y: 0,
        width: 10,
        height: 10,
        border_width: 0,
        values: ValueList::new(),
    };
    let bytes = request.encode(Endianness::Big).unwrap();
    assert_eq!(bytes.len(), 32);
    let mut table = active();
    assert_eq!(
        table.register(request.reply_kind(), "window"),
        Dispatch::Immediate { sequence: 1, handle: "window", reply: Reply::Void }
    );
}

#[test]
fn back_to_back_requests_get_increasing_numbers() {
    let mut table = active();
    let mut last = 0;
    for _ in 0..100 {
        match table.register(ReplyKind::Wire, "x") {
            Dispatch::Registered { sequence } => {
                assert!(sequence > last);
                assert_eq!(sequence, last + 1);
                last = sequence;
            }
            other => panic!("{:?}", other),
        }
    }
    assert_eq!(table.pending_count(), 100);
    assert_eq!(table.next_sequence(), 101);
}

#[test]
fn implicit_requests_consume_sequence_numbers_too() {
    let mut table = active();
    assert_eq!(table.register(ReplyKind::Wire, "a"), Dispatch::Registered { sequence: 1 });
    assert_eq!(
        table.register(ReplyKind::Implicit, "b"),
        Dispatch::Immediate { sequence: 2, handle: "b", reply: Reply::Void }
    );
    assert_eq!(table.register(ReplyKind::Wire, "c"), Dispatch::Registered { sequence: 3 });
}

#[test]
fn replies_resolve_in_arrival_order() {
    let mut table = active();
    table.register(ReplyKind::Wire, "first");
    table.register(ReplyKind::Wire, "second");
    assert_eq!(
        table.resolve(1, Arrival::Reply(vec![0xA])),
        Resolution::Deliver { sequence: 1, handle: "first", outcome: Ok(Reply::Payload(vec![0xA])) }
    );
    assert_eq!(
        table.resolve(2, Arrival::Reply(vec![0xB])),
        Resolution::Deliver {
            sequence: 2,
            handle: "second",
            outcome: Ok(Reply::Payload(vec![0xB])),
        }
    );
    assert_eq!(table.pending_count(), 0);
}

#[test]
fn replies_resolve_in_reverse_order() {
    let mut table = active();
    table.register(ReplyKind::Wire, "first");
    table.register(ReplyKind::Wire, "second");
    assert_eq!(
        table.resolve(2, Arrival::Reply(vec![0xB])),
        Resolution::Deliver {
            sequence: 2,
            handle: "second",
            outcome: Ok(Reply::Payload(vec![0xB])),
        }
    );
    assert!(table.is_pending(1));
    assert_eq!(
        table.resolve(1, Arrival::Reply(vec![0xA])),
        Resolution::Deliver { sequence: 1, handle: "first", outcome: Ok(Reply::Payload(vec![0xA])) }
    );
    assert_eq!(table.pending_count(), 0);
}

#[test]
fn error_reply_rejects_and_keeps_the_connection() {
    let mut table = active();
    table.register(ReplyKind::Wire, "a");
    table.register(ReplyKind::Wire, "b");
    assert_eq!(
        table.resolve(1, Arrival::Error(8)),
        Resolution::Deliver { sequence: 1, handle: "a", outcome: Err(Error::Protocol(8)) }
    );
    assert_eq!(table.phase(), Phase::Active);
    assert!(table.is_pending(2));
    assert_eq!(table.register(ReplyKind::Wire, "c"), Dispatch::Registered { sequence: 3 });
}

#[test]
fn unknown_sequence_is_unmatched() {
    let mut table = active();
    table.register(ReplyKind::Wire, "a");
    assert_eq!(table.resolve(2, Arrival::Reply(vec![])), Resolution::Unmatched);
    assert_eq!(table.resolve(0, Arrival::Reply(vec![])), Resolution::Unmatched);
    assert_eq!(table.resolve(u64::MAX, Arrival::Error(1)), Resolution::Unmatched);
    assert_eq!(table.pending_count(), 1);
    assert!(table.is_pending(1));
}

#[test]
fn abandoned_slot_stays_until_its_reply() {
    let mut table = active();
    table.register(ReplyKind::Wire, "a");
    table.register(ReplyKind::Wire, "b");
    table.register(ReplyKind::Wire, "c");
    assert!(table.abandon(2));
    assert_eq!(table.pending_count(), 3);
    assert!(table.is_pending(2));
    assert_eq!(table.next_sequence(), 4);
    assert_eq!(
        table.resolve(1, Arrival::Reply(vec![1])),
        Resolution::Deliver { sequence: 1, handle: "a", outcome: Ok(Reply::Payload(vec![1])) }
    );
    assert_eq!(
        table.resolve(2, Arrival::Reply(vec![2])),
        Resolution::Discard { sequence: 2, handle: "b" }
    );
    assert!(!table.is_pending(2));
    assert_eq!(
        table.resolve(3, Arrival::Reply(vec![3])),
        Resolution::Deliver { sequence: 3, handle: "c", outcome: Ok(Reply::Payload(vec![3])) }
    );
    assert_eq!(table.pending_count(), 0);
}

#[test]
fn abandoning_twice_or_nothing_is_harmless() {
    let mut table = active();
    table.register(ReplyKind::Wire, "a");
    assert!(table.abandon(1));
    assert!(table.abandon(1));
    assert!(!table.abandon(2));
    assert_eq!(table.pending_count(), 1);
    assert_eq!(table.resolve(1, Arrival::Error(2)), Resolution::Discard { sequence: 1, handle: "a" });
    assert!(!table.abandon(1));
}

#[test]
fn close_rejects_every_outstanding_slot() {
    let mut table = active();
    table.register(ReplyKind::Wire, "a");
    table.register(ReplyKind::Implicit, "b");
    table.register(ReplyKind::Wire, "c");
    table.register(ReplyKind::Wire, "d");
    table.abandon(3);
    table.resolve(1, Arrival::Reply(vec![]));
    let rejected = table.close();
    assert_eq!(
        rejected,
        vec![
            Resolution::Discard { sequence: 3, handle: "c" },
            Resolution::Deliver { sequence: 4, handle: "d", outcome: Err(Error::ConnectionClosed) },
        ]
    );
    assert_eq!(table.phase(), Phase::Closed);
    assert_eq!(table.pending_count(), 0);
    assert_eq!(table.next_sequence(), 5);
}

#[test]
fn close_lists_slots_in_ascending_order() {
    let mut table = active();
    for _ in 0..10 {
        table.register(ReplyKind::Wire, "x");
    }
    table.resolve(4, Arrival::Reply(vec![]));
    let sequences: Vec<u64> = table
        .close()
        .into_iter()
        .map(|r| match r {
            Resolution::Deliver { sequence, outcome, .. } => {
                assert_eq!(outcome, Err(Error::ConnectionClosed));
                sequence
            }
            other => panic!("{:?}", other),
        })
        .collect();
    assert_eq!(sequences, vec![1, 2, 3, 5, 6, 7, 8, 9, 10]);
}

#[test]
fn closed_connection_refuses_requests() {
    let mut table = active();
    assert_eq!(table.close(), vec![]);
    assert_eq!(
        table.register(ReplyKind::Wire, "late"),
        Dispatch::Refused { handle: "late", error: Error::ConnectionClosed }
    );
    assert_eq!(table.resolve(1, Arrival::Reply(vec![])), Resolution::Unmatched);
    assert_eq!(table.close(), vec![]);
    assert_eq!(table.phase(), Phase::Closed);
}

#[test]
fn closing_an_open_connection_closes_it() {
    let mut table: Correlator<u8> = Correlator::new();
    assert_eq!(table.close(), vec![]);
    assert_eq!(table.phase(), Phase::Closed);
}

#[test]
fn last_sequence_number_is_never_handed_out() {
    let mut table: Correlator<&str> = Correlator::starting_at(u64::MAX - 1);
    table.establish(&credential()).unwrap();
    assert_eq!(
        table.register(ReplyKind::Wire, "a"),
        Dispatch::Registered { sequence: u64::MAX - 1 }
    );
    assert_eq!(
        table.register(ReplyKind::Wire, "b"),
        Dispatch::Refused {
            handle: "b",
            error: Error::Validation(ValidationError::SequenceExhausted),
        }
    );
    assert_eq!(table.next_sequence(), u64::MAX);
    assert_eq!(table.pending_count(), 1);
}

#[test]
fn starting_at_sets_the_first_number() {
    let mut table: Correlator<u8> = Correlator::starting_at(1000);
    assert_eq!(table.phase(), Phase::Open);
    table.establish(&credential()).unwrap();
    assert_eq!(table.register(ReplyKind::Wire, 0), Dispatch::Registered { sequence: 1000 });
}

#[test]
fn settle_slot_delivers_or_discards() {
    let kept = PendingSlot { sequence: 9, handle: 'k', abandoned: false };
    let dropped = PendingSlot { sequence: 10, handle: 'd', abandoned: true };
    assert_eq!(
        settle_slot(kept, Ok(Reply::Void)),
        Resolution::Deliver { sequence: 9, handle: 'k', outcome: Ok(Reply::Void) }
    );
    assert_eq!(
        settle_slot(dropped, Ok(Reply::Void)),
        Resolution::Discard { sequence: 10, handle: 'd' }
    );
}

#[test]
fn arrival_outcome_passes_replies_and_rejects_errors() {
    assert_eq!(arrival_outcome(Arrival::Reply(vec![4, 5])), Ok(Reply::Payload(vec![4, 5])));
    assert_eq!(arrival_outcome(Arrival::Reply(vec![])), Ok(Reply::Payload(vec![])));
    assert_eq!(arrival_outcome(Arrival::Error(11)), Err(Error::Protocol(11)));
}

#[test]
fn submit_hands_back_the_bytes_to_write() {
    let mut table = active();
    assert_eq!(
        table.submit(Ok(vec![1, 2, 3, 4]), ReplyKind::Wire, "a"),
        (Dispatch::Registered { sequence: 1 }, Some(vec![1, 2, 3, 4]))
    );
    assert_eq!(
        table.submit(Ok(vec![5, 6, 7, 8]), ReplyKind::Implicit, "b"),
        (
            Dispatch::Immediate { sequence: 2, handle: "b", reply: Reply::Void },
            Some(vec![5, 6, 7, 8])
        )
    );
    assert_eq!(table.pending_count(), 1);
}

#[test]
fn submit_of_a_refused_request_consumes_nothing() {
    let mut table = active();
    for error in [Error::Validation(ValidationError::InputOnlyDepth), Error::Encoding] {
        assert_eq!(
            table.submit(Err(error), ReplyKind::Wire, "a"),
            (Dispatch::Refused { handle: "a", error }, None)
        );
    }
    assert_eq!(table.next_sequence(), 1);
    assert_eq!(table.pending_count(), 0);
    assert_eq!(
        table.submit(Ok(vec![0; 8]), ReplyKind::Wire, "b"),
        (Dispatch::Registered { sequence: 1 }, Some(vec![0; 8]))
    );
}

#[test]
fn submit_on_a_closed_connection_writes_nothing() {
    let mut table = active();
    table.close();
    assert_eq!(
        table.submit(Ok(vec![1, 2, 3, 4]), ReplyKind::Wire, "a"),
        (Dispatch::Refused { handle: "a", error: Error::ConnectionClosed }, None)
    );
}

#[test]
fn submit_of_an_invalid_create_window_is_refused_with_the_reason() {
    let request = CreateWindow {
        wid: 1,
        parent: 2,
        class: 2,
        depth: 8,
        visual: 0,
        x: 0,
        y: 0,
        width: 10,
        height: 10,
        border_width: 0,
        values: ValueList::new(),
    };
    let mut table = active();
    assert_eq!(
        table.submit(request.encode(Endianness::Little), request.reply_kind(), "w"),
        (
            Dispatch::Refused {
                handle: "w",
                error: Error::Validation(ValidationError::InputOnlyDepth),
            },
            None
        )
    );
    assert_eq!(table.next_sequence(), 1);
}
