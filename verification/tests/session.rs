use gpui_react::session::{Emitted, Queues, SessionError, MAX_BYTES, MAX_EVENTS, MAX_TRANSACTIONS};

#[test]
fn admission_is_bounded_and_pop_preserves_transaction_order() {
    let mut queues: Queues<u64> = Queues::new();
    for sequence in 1..=MAX_TRANSACTIONS {
        assert!(queues.enqueue(sequence as u64, 40).is_ok());
    }
    assert_eq!(queues.enqueue(MAX_TRANSACTIONS as u64 + 1, 40), Err(SessionError::Full));
    for sequence in 1..=MAX_TRANSACTIONS {
        assert_eq!(queues.pop(), Some(sequence as u64));
    }
    assert!(queues.pop().is_none());
    assert_eq!(Queues::<u64>::check_size(MAX_BYTES + 1), Err(SessionError::TooLarge));
    assert_eq!(Queues::<u64>::check_size(MAX_BYTES), Ok(()));
    assert!(queues.pop().is_none());
    queues.close("done".to_string());
    assert_eq!(queues.enqueue(999, 40), Err(SessionError::Closed("done".to_string())));
}

#[test]
fn command_bytes_bound_admission_until_popped() {
    let mut queues: Queues<u8> = Queues::new();
    assert!(queues.enqueue(1, MAX_BYTES - 1).is_ok());
    assert_eq!(queues.enqueue(2, 2), Err(SessionError::Full));
    assert!(queues.enqueue(3, 1).is_ok());
    assert_eq!(queues.pop(), Some(1));
    assert!(queues.enqueue(4, 2).is_ok());
    assert_eq!(queues.pop(), Some(3));
    assert_eq!(queues.pop(), Some(4));
}

#[test]
fn output_overflow_is_terminal_and_does_not_drop_accepted_records() {
    let mut queues: Queues<u8> = Queues::new();
    for sequence in 0..MAX_EVENTS {
        assert_eq!(queues.emit(format!("{{\"sequence\":{sequence}}}")), Emitted::Queued);
    }
    assert_eq!(queues.emit("{\"overflow\":true}".to_string()), Emitted::Overflow);
    assert!(queues.closed());
    assert_eq!(queues.emit("{}".to_string()), Emitted::Dropped);
    let messages = queues.take_messages().unwrap().unwrap();
    assert_eq!(messages.len(), MAX_EVENTS);
    assert_eq!(messages[0], "{\"sequence\":0}");
    assert_eq!(
        queues.take_messages(),
        Some(Err("Native event queue overflow".to_string()))
    );
}

#[test]
fn session_close_releases_a_waiting_receiver() {
    let mut queues: Queues<u8> = Queues::new();
    assert!(queues.begin_receive().is_ok());
    assert_eq!(queues.begin_receive(), Err(SessionError::ReceiverBusy));
    assert_eq!(queues.take_messages(), None);
    queues.close("worker stopped".to_string());
    let reply = queues.take_messages().unwrap().unwrap_err();
    assert!(reply.contains("worker stopped"));
    assert!(queues.begin_receive().is_ok());
}

#[test]
fn only_one_client_attaches_and_the_first_close_reason_stays() {
    let mut queues: Queues<u8> = Queues::new();
    assert!(queues.attach().is_ok());
    assert_eq!(queues.attach(), Err(SessionError::AttachedOrClosed));
    queues.close("first".to_string());
    queues.close("second".to_string());
    assert_eq!(queues.enqueue(1, 1), Err(SessionError::Closed("first".to_string())));
    assert_eq!(SessionError::Full.message(), "Native command queue is full");
}
