use ibm_mq::client::{
    application_type, reason_error, Client, DEFAULT_CHANNEL, DEFAULT_MAX_MESSAGE, HANDLE_ERROR,
    QUEUE_MANAGER_NAME_ERROR, TOO_BIG, UNKNOWN_OBJECT,
};
use ibm_mq::descriptor::{InitialData, OPEN_INPUT, OPEN_OUTPUT};
use ibm_mq::error::TransportError;
use ibm_mq::location::{ReceiveStep, SendStep};
use ibm_mq::manager::PutWait;
use ibm_mq::segment::{
    read_segment, write_segment, ApiHeader, Reading, Segment, INITIAL_DATA, MQCLOSE, MQCONN, MQGET,
    MQPUT, REPLY,
};
use ibm_mq::target::Named;
use ibm_mq::{Arrived, Event, IbmMqTransport, QueueManager, Session};

const UNIX: u32 = 6;

const OVER: &str = "more than the queue manager carries";

const PLAIN: Named<'static> = Named {
    ibm_mq: None,
    mq: None,
};

/// What the far end of a socket reads of `segment`.
fn across(segment: &Segment) -> Segment {
    let mut wire = Vec::new();
    write_segment(&mut wire, segment);
    match read_segment(&wire, 16 * 1024 * 1024) {
        Ok(Reading::Whole(segment, taken)) => {
            assert_eq!(taken, wire.len());
            segment
        }
        _ => panic!("not one whole segment"),
    }
}

fn answered(session: &mut Session, call: &Segment) -> (Segment, Event) {
    let call = across(call);
    assert!(session.reaches(&call));
    let (reply, event) = session
        .next_event(Some(&call))
        .expect("answering")
        .expect("an answer");
    (across(&reply), event)
}

/// Run a receive against `manager`.
fn received(
    near: &IbmMqTransport,
    manager: QueueManager,
) -> (Result<Vec<Arrived>, TransportError>, Session, Vec<Event>) {
    let (mut receiving, opening) = near.receive(UNIX);
    let (mut session, answer) = manager.accept(Some(across(&opening))).expect("accepting");
    let mut reply = across(&answer);
    let mut events = Vec::new();
    loop {
        assert!(receiving.reaches());
        match receiving.take(Some(reply)).expect("request ids are left") {
            Err(error) => return (Err(error), session, events),
            Ok(ReceiveStep::Done(arrived)) => return (Ok(arrived), session, events),
            Ok(ReceiveStep::Call(next, call)) => {
                let (answer, event) = answered(&mut session, &call);
                events.push(event);
                receiving = next;
                reply = answer;
            }
        }
    }
}

/// Run a send against `manager`.
fn sent(
    near: &IbmMqTransport,
    target: &str,
    named: Named<'_>,
    bytes: &[u8],
    manager: QueueManager,
) -> (Result<(), TransportError>, Session, Vec<Event>) {
    let (_, mut sending, opening) = near
        .send(target, named, bytes, UNIX)
        .expect("a target");
    let (mut session, answer) = manager.accept(Some(across(&opening))).expect("accepting");
    let mut reply = across(&answer);
    let mut events = Vec::new();
    loop {
        assert!(sending.reaches());
        match sending
            .take(Some(reply), OVER)
            .expect("request ids are left")
        {
            Err(error) => return (Err(error), session, events),
            Ok(SendStep::Done) => return (Ok(()), session, events),
            Ok(SendStep::Call(next, call)) => {
                let (answer, event) = answered(&mut session, &call);
                events.push(event);
                sending = next;
                reply = answer;
            }
        }
    }
}

/// A client connected to `manager`.
fn connected(manager: QueueManager) -> (Client, Session) {
    let (client, opening) = Client::connect("QM1", DEFAULT_CHANNEL);
    let (mut session, answer) = manager.accept(Some(across(&opening))).expect("accepting");
    let (client, call) = client
        .agree(Some(across(&answer)), "xmip", UNIX)
        .expect("agreeing");
    let (reply, event) = answered(&mut session, &call);
    assert_eq!(event, Event::Connected);
    Client::connected(Some(reply)).expect("connected");
    (client, session)
}

fn opened(client: &mut Client, session: &mut Session, queue: &str, options: u32) -> u32 {
    let call = client.open(queue, options);
    let (reply, event) = answered(session, &call);
    assert_eq!(event, Event::Opened(queue.to_string()));
    Client::opened(Some(reply)).expect("opened")
}

#[test]
fn a_queue_manager_is_defined_with_its_queues_and_what_they_hold() {
    let manager = QueueManager::new("QM1")
        .with_queue("ORDERS")
        .holding("INVOICES", &[b"one", b"two"])
        .carrying_at_most(100);
    assert_eq!(manager.queue_count(), 2);
    assert_eq!(manager.queue("INVOICES").len(), 2);
    assert_eq!(manager.max_message(), 100);
}

#[test]
fn a_queue_defined_again_keeps_what_it_holds() {
    let manager = QueueManager::new("QM1")
        .holding("ORDERS", &[b"one"])
        .with_queue("ORDERS")
        .holding("ORDERS", &[b"two"]);
    assert_eq!(manager.queue_count(), 1);
    assert_eq!(
        manager.queue("ORDERS"),
        vec![b"one".to_vec(), b"two".to_vec()]
    );
    assert!(manager.queue("NOWHERE").is_empty());
    assert_eq!(manager.max_message(), DEFAULT_MAX_MESSAGE);
    assert_eq!(DEFAULT_MAX_MESSAGE, 4 * 1024 * 1024);
}

#[test]
fn a_reason_is_judged_for_resilience() {
    assert!(
        reason_error(2059, "connecting").retryable,
        "not available yet"
    );
    assert!(reason_error(2053, "putting").retryable, "queue full");
    assert!(!reason_error(UNKNOWN_OBJECT, "opening").retryable);
    assert!(!reason_error(2035, "opening").retryable, "not authorised");
    assert!(reason_error(2085, "x").message.contains("MQRC 2085"));
}

#[test]
fn six_reasons_clear_and_each_is_said_in_its_context() {
    for reason in 0..5000 {
        let clears = matches!(reason, 2009 | 2053 | 2059 | 2161 | 2162 | 2195);
        assert_eq!(reason_error(reason, "x").retryable, clears, "{reason}");
    }
    assert_eq!(reason_error(0, "opening").message, "opening: MQRC 0");
    assert_eq!(
        reason_error(u32::MAX, "opening").message,
        "opening: MQRC 4294967295"
    );
}

/// Run a send against the one client that `far_end` accepts, waiting for
/// each message it puts.
fn delivered(
    far_end: &IbmMqTransport,
    near: &IbmMqTransport,
    target: &str,
    named: Named<'_>,
    bytes: &[u8],
) -> (Vec<Arrived>, Session) {
    let (_, mut sending, opening) = near
        .send(target, named, bytes, UNIX)
        .expect("a target");
    let (mut session, answer) = far_end
        .accept_one(&[], Some(across(&opening)))
        .expect("accepting");
    let mut reply = across(&answer);
    let mut messages = Vec::new();
    let mut last = PutWait::Waiting;
    while let SendStep::Call(next, call) = sending.step(Some(reply), OVER).expect("sending") {
        let (answer, wait) = session.next_put(Some(&across(&call))).expect("put");
        if let PutWait::Arrived(arrived) = &wait {
            messages.push(arrived.clone());
        }
        last = wait;
        sending = next;
        reply = across(&answer.expect("an answer"));
    }
    assert_eq!(last, PutWait::Over, "disconnected");
    assert_eq!(
        session.next_put(None).expect("closed"),
        (None, PutWait::Over)
    );
    (messages, session)
}

#[test]
fn a_put_message_is_the_queue_managers_event_and_its_id_names_the_origin() {
    let far_end = IbmMqTransport::new("127.0.0.1:0", "QM1", "ORDERS");
    let address = "127.0.0.1:1414";
    let long: Vec<u8> = (0..(1 << 20))
        .map(|n: u32| u8::try_from(n % 251).unwrap_or(0))
        .collect();
    let near = IbmMqTransport::new(address, "QM1", "ORDERS");
    let whole_target = format!("ibm-mq://{address}/QM1/ORDERS");
    let named = Named {
        ibm_mq: Some((address, "QM1/ORDERS")),
        mq: None,
    };
    let manager = QueueManager::new("QM1").with_queue("ORDERS");
    let (result, mut session, events) = sent(&near, &whole_target, named, b"order\0\xff", manager);
    result.expect("sending");
    assert_eq!(events[0], Event::Connected);
    assert_eq!(events[1], Event::Opened("ORDERS".to_string()));
    assert_eq!(events[3..], [Event::Closed, Event::Disconnected]);
    assert_eq!(session.next_event(None).expect("closed"), None);
    let (server, _, _) = near
        .send(&whole_target, named, b"order\0\xff", UNIX)
        .expect("a target");
    assert_eq!(server, address);
    let (messages, _) = delivered(&far_end, &near, &whole_target, named, b"order\0\xff");
    assert_eq!(events[2], Event::Put(messages[0].clone()));
    let first = &messages[0];
    assert_eq!(first.bytes, b"order\0\xff");
    assert!(
        first
            .origin_uri
            .starts_with("ibm-mq://QM1/ORDERS?msgid=414d5120"),
        "{}",
        first.origin_uri
    );
    assert_eq!(messages.len(), 1);
    let (messages, _) = delivered(&far_end, &near, "ORDERS", PLAIN, &long);
    assert_eq!(messages.len(), 1);
    assert_eq!(messages[0].bytes, long, "a mebibyte across segments");
    let (messages, session) = delivered(&far_end, &near, "ORDERS", PLAIN, b"");
    assert_eq!(messages.len(), 1);
    assert!(messages[0].bytes.is_empty());
    assert_eq!(session.queue("ORDERS"), vec![Vec::<u8>::new()]);
}

#[test]
fn a_receive_gets_every_message_oldest_first_until_the_queue_is_empty() {
    let near = IbmMqTransport::new("127.0.0.1:1414", "QM1", "ORDERS");
    let manager = QueueManager::new("QM1").holding("ORDERS", &[b"first", b"\x00second\xff"]);
    let (arrived, session, events) = received(&near, manager);
    assert_eq!(
        events.iter().filter(|e| matches!(e, Event::Got(_))).count(),
        3,
        "two, then 2033"
    );
    assert_eq!(events.last(), Some(&Event::Disconnected));
    let arrived = arrived.expect("receiving");
    assert_eq!(arrived.len(), 2);
    assert_eq!(arrived[0].bytes, b"first");
    assert_eq!(arrived[1].bytes, b"\x00second\xff");
    assert!(arrived[0].origin_uri.starts_with("ibm-mq://127.0.0.1:"));
    assert!(arrived[0].origin_uri.contains("/QM1/ORDERS?msgid=414d5120"));
    assert!(session.queue("ORDERS").is_empty(), "got is gone");
    assert_eq!(
        arrived[1].origin_uri,
        "ibm-mq://127.0.0.1:1414/QM1/ORDERS?msgid=\
         414d5120514d312020202020000000000000000000000002"
    );
}

#[test]
fn the_wrong_queue_manager_an_unknown_queue_and_too_big_a_message_are_refused() {
    let near = IbmMqTransport::new("127.0.0.1:1414", "QM1", "ORDERS");
    let far_end = || QueueManager::new("QM1").with_queue("ORDERS");
    let (wrong, _, _) = sent(&near, "QM9/ORDERS", PLAIN, b"x", far_end());
    let (unknown, _, _) = sent(&near, "NOWHERE", PLAIN, b"x", far_end());
    let (mut client, mut session) = connected(far_end().carrying_at_most(100));
    let handle = opened(&mut client, &mut session, "ORDERS", OPEN_OUTPUT);
    let too_big = client.put(handle, &[0u8; 101], OVER);
    let (reply, _) = answered(&mut session, &client.disconnect());
    Client::disconnected(Some(reply)).expect("disconnected");
    let target = near.send("only/three/parts", PLAIN, b"", UNIX);
    assert!(wrong.expect_err("2058").message.contains("MQRC 2058"));
    assert!(unknown.expect_err("2085").message.contains("MQRC 2085"));
    let too_big = too_big.expect_err("2031");
    assert!(too_big.message.contains("MQRC 2031"), "{}", too_big.message);
    assert!(!too_big.retryable);
    assert!(!target.err().expect("not a queue").retryable);
}

#[test]
fn a_refused_send_leaves_the_queue_manager_as_it_was() {
    let near = IbmMqTransport::new("127.0.0.1:1414", "QM1", "ORDERS");
    let far_end = || QueueManager::new("QM1").holding("ORDERS", &[b"old"]);
    let (wrong, session, events) = sent(&near, "QM9/ORDERS", PLAIN, b"x", far_end());
    assert_eq!(
        wrong.expect_err("2058").message,
        "the queue manager refused: MQRC 2058"
    );
    assert_eq!(events, [Event::Refused(QUEUE_MANAGER_NAME_ERROR)]);
    assert_eq!(session.queue("ORDERS"), vec![b"old".to_vec()]);
    let (unknown, session, events) = sent(&near, "NOWHERE", PLAIN, b"x", far_end());
    assert_eq!(
        unknown.expect_err("2085").message,
        "the queue manager refused: MQRC 2085"
    );
    assert_eq!(events[1..], [Event::Refused(UNKNOWN_OBJECT)]);
    assert_eq!(session.queue("ORDERS"), vec![b"old".to_vec()]);
    let (big, session, events) = sent(&near, "ORDERS", PLAIN, b"three", far_end().carrying_at_most(4));
    assert_eq!(
        big.expect_err("2031").message,
        "more than the queue manager carries: MQRC 2031"
    );
    assert_eq!(events.len(), 2, "no put was made");
    assert_eq!(session.queue("ORDERS"), vec![b"old".to_vec()]);
    let (kept, session, _) = sent(&near, "ORDERS", PLAIN, b"four", far_end().carrying_at_most(4));
    kept.expect("sending");
    assert_eq!(
        session.queue("ORDERS"),
        vec![b"old".to_vec(), b"four".to_vec()]
    );
}

#[test]
fn a_receive_connects_opens_gets_closes_and_disconnects() {
    let near = IbmMqTransport::new("127.0.0.1:1414", "QM1", "ORDERS");
    let kinds = |manager: QueueManager| {
        let (mut receiving, opening) = near.receive(UNIX);
        let (mut session, answer) = manager.accept(Some(opening)).expect("accepting");
        let mut reply = answer;
        let mut made = Vec::new();
        while let Ok(ReceiveStep::Call(next, call)) = receiving.step(Some(reply)) {
            let (answer, event) = answered(&mut session, &call);
            let (header, _) = ApiHeader::decode(&answer.body).expect("a header");
            made.push((call.kind, header.reason, event));
            receiving = next;
            reply = answer;
        }
        made
    };
    let orders = || "ORDERS".to_string();
    let manager = QueueManager::new("QM1").holding("ORDERS", &[b"one", b"two"]);
    assert_eq!(
        kinds(manager),
        [
            (0x81, 0, Event::Connected),
            (0x83, 0, Event::Opened(orders())),
            (0x85, 0, Event::Got(orders())),
            (0x85, 0, Event::Got(orders())),
            (0x85, 2033, Event::Got(orders())),
            (0x84, 0, Event::Closed),
            (0x82, 0, Event::Disconnected),
        ]
    );
    assert_eq!(
        kinds(QueueManager::new("QM1")),
        [
            (0x81, 0, Event::Connected),
            (0x83, 2085, Event::Refused(2085)),
        ]
    );
    assert_eq!(
        kinds(QueueManager::new("QM2")),
        [(0x81, 2058, Event::Refused(2058))]
    );
}

#[test]
fn a_send_connects_opens_puts_closes_and_disconnects() {
    let near = IbmMqTransport::new("127.0.0.1:1414", "QM1", "ORDERS");
    let manager = QueueManager::new("QM1").with_queue("ORDERS");
    let (result, _, events) = sent(&near, "ORDERS", PLAIN, b"one", manager);
    result.expect("sending");
    let put = Arrived::new(
        "ibm-mq://QM1/ORDERS?msgid=414d5120514d312020202020000000000000000000000001".to_string(),
        b"one".to_vec(),
    );
    assert_eq!(
        events,
        [
            Event::Connected,
            Event::Opened("ORDERS".to_string()),
            Event::Put(put),
            Event::Closed,
            Event::Disconnected,
        ]
    );
}

#[test]
fn ids_and_handles_are_not_shared_across_a_session() {
    let manager = QueueManager::new("QM1").with_queue("A").with_queue("B");
    let (mut client, mut session) = connected(manager);
    let mut handles = Vec::new();
    let mut ids = Vec::new();
    for queue in ["A", "B", "A"] {
        let handle = opened(&mut client, &mut session, queue, OPEN_OUTPUT);
        handles.push(handle);
        let call = client.put(handle, b"x", OVER).expect("a put");
        let (reply, _) = answered(&mut session, &call);
        ids.push(Client::assigned(Some(reply)).expect("assigned"));
        let (reply, _) = answered(&mut session, &client.get(handle));
        ids.push(Client::got(Some(reply)).expect("got").expect("one").0);
        let (_, event) = answered(&mut session, &client.close(handle));
        assert_eq!(event, Event::Closed);
    }
    handles.sort_unstable();
    handles.dedup();
    assert_eq!(handles.len(), 3);
    ids.sort_unstable();
    ids.dedup();
    assert_eq!(ids.len(), 6);
}

#[test]
fn a_refused_receive_says_why() {
    let near = IbmMqTransport::new("127.0.0.1:1414", "QM9", "ORDERS");
    let (wrong, session, _) = received(&near, QueueManager::new("QM1").holding("ORDERS", &[b"x"]));
    assert_eq!(
        wrong.expect_err("2058").message,
        "the queue manager refused: MQRC 2058"
    );
    assert_eq!(session.queue("ORDERS").len(), 1);
    let near = IbmMqTransport::new("127.0.0.1:1414", "QM1", "ORDERS");
    let (unknown, _, _) = received(&near, QueueManager::new("QM1"));
    assert_eq!(
        unknown.expect_err("2085").message,
        "the queue manager refused: MQRC 2085"
    );
}

#[test]
fn no_name_asks_for_any_queue_manager() {
    let near = IbmMqTransport::new("127.0.0.1:1414", "", "ORDERS");
    let (arrived, _, _) = received(&near, QueueManager::new("QM1").holding("ORDERS", &[b"x"]));
    assert_eq!(arrived.expect("receiving").len(), 1);
}

#[test]
fn a_message_sent_is_the_message_received() {
    let near = IbmMqTransport::new("127.0.0.1:1414", "QM1", "ORDERS");
    let bytes: Vec<u8> = (0..70_000u32).map(|n| (n % 256) as u8).collect();
    let manager = QueueManager::new("QM1").with_queue("ORDERS");
    let (result, session, _) = sent(&near, "ORDERS", PLAIN, &bytes, manager);
    result.expect("sending");
    let held = session.queue("ORDERS");
    let manager = QueueManager::new("QM1").holding("ORDERS", &[held[0].as_slice()]);
    let (arrived, session, _) = received(&near, manager);
    assert_eq!(arrived.expect("receiving")[0].bytes, bytes);
    assert!(session.queue("ORDERS").is_empty());
}

#[test]
fn messages_leave_a_queue_in_the_order_they_were_put() {
    let manager = QueueManager::new("QM1")
        .with_queue("ORDERS")
        .holding("OTHER", &[b"untouched"]);
    let (mut client, mut session) = connected(manager);
    let puts = opened(&mut client, &mut session, "ORDERS", OPEN_OUTPUT);
    let gets = opened(&mut client, &mut session, "ORDERS", OPEN_INPUT);
    assert_eq!((puts, gets), (2, 3), "no two opens share a handle");
    let mut ids = Vec::new();
    for bytes in [&b"one"[..], &b"two"[..], &b""[..]] {
        let call = client.put(puts, bytes, OVER).expect("a put");
        let (reply, event) = answered(&mut session, &call);
        assert!(matches!(event, Event::Put(arrived) if arrived.bytes == bytes));
        ids.push(Client::assigned(Some(reply)).expect("assigned"));
    }
    for bytes in [&b"one"[..], &b"two"[..], &b""[..]] {
        let call = client.get(gets);
        let (reply, event) = answered(&mut session, &call);
        assert_eq!(event, Event::Got("ORDERS".to_string()));
        let (id, got) = Client::got(Some(reply)).expect("got").expect("a message");
        assert_eq!(got, bytes);
        ids.push(id);
    }
    let call = client.get(gets);
    let (reply, _) = answered(&mut session, &call);
    assert_eq!(Client::got(Some(reply)).expect("empty"), None);
    for (n, id) in ids.iter().enumerate() {
        assert_eq!(&id[..12], b"AMQ QM1     ");
        assert_eq!(id[20..], [0, 0, 0, n as u8 + 1], "no two share a number");
    }
    assert_eq!(session.queue("OTHER"), vec![b"untouched".to_vec()]);
}

#[test]
fn a_closed_handle_is_refused() {
    let manager = QueueManager::new("QM1").holding("ORDERS", &[b"one"]);
    let (mut client, mut session) = connected(manager);
    let handle = opened(&mut client, &mut session, "ORDERS", OPEN_INPUT);
    let (reply, event) = answered(&mut session, &client.close(handle));
    assert_eq!(event, Event::Closed);
    Client::closed(Some(reply)).expect("closed");
    let (reply, event) = answered(&mut session, &client.get(handle));
    assert_eq!(event, Event::Refused(HANDLE_ERROR));
    let error = Client::got(Some(reply)).err().expect("2019");
    assert_eq!(error.message, "the queue manager refused: MQRC 2019");
    let call = client.put(handle, b"x", OVER).expect("a put");
    let (reply, event) = answered(&mut session, &call);
    assert_eq!(event, Event::Refused(HANDLE_ERROR));
    let error = Client::assigned(Some(reply)).err().expect("2019");
    assert_eq!(error.message, "the queue manager refused: MQRC 2019");
    let (reply, _) = answered(&mut session, &client.close(77));
    Client::closed(Some(reply)).expect("a close is always granted");
    assert_eq!(session.queue("ORDERS").len(), 1);
}

#[test]
fn a_put_over_what_the_queue_manager_carries_is_refused_there_too() {
    let manager = QueueManager::new("QM1").with_queue("ORDERS");
    let (mut client, _) = connected(manager);
    let call = client.put(2, &[1; 101], OVER).expect("a put");
    let (mut small, mut session) = connected(
        QueueManager::new("QM1")
            .with_queue("ORDERS")
            .carrying_at_most(100),
    );
    assert_eq!(
        opened(&mut small, &mut session, "ORDERS", OPEN_OUTPUT),
        2
    );
    let (reply, event) = answered(&mut session, &call);
    assert_eq!(event, Event::Refused(TOO_BIG));
    let error = Client::assigned(Some(reply)).err().expect("2031");
    assert_eq!(error.message, "the queue manager refused: MQRC 2031");
    let mut cut = call.clone();
    cut.body.truncate(cut.body.len() - 2);
    assert_eq!(answered(&mut session, &cut).1, Event::Refused(TOO_BIG));
    cut.body.truncate(100);
    assert_eq!(answered(&mut session, &cut).1, Event::Refused(HANDLE_ERROR));
    assert!(session.queue("ORDERS").is_empty());
}

#[test]
fn the_smaller_size_is_agreed() {
    let near = IbmMqTransport::new("127.0.0.1:1414", "QM1", "ORDERS");
    let (_, sending, opening) = near
        .send("ORDERS", PLAIN, b"x", UNIX)
        .expect("a target");
    assert_eq!(sending.max_message(), Some(DEFAULT_MAX_MESSAGE));
    let (_, answer) = QueueManager::new("QM1")
        .carrying_at_most(100)
        .accept(Some(opening))
        .expect("accepting");
    match sending.step(Some(answer), OVER).expect("agreeing") {
        SendStep::Call(sending, _) => assert_eq!(sending.max_message(), Some(100)),
        SendStep::Done => panic!("done too early"),
    }
    let (client, _) = connected(QueueManager::new("QM1").carrying_at_most(100));
    assert_eq!(client.max_message(), 100);
    assert_eq!(client.queue_manager(), "QM1");
    assert_eq!(client.request(), 2);
    let (client, _) = connected(QueueManager::new("QM1").carrying_at_most(u32::MAX));
    assert_eq!(client.max_message(), DEFAULT_MAX_MESSAGE);
}

#[test]
fn a_client_that_does_not_open_with_initial_data_is_refused() {
    let refused = |opening: Option<Segment>| {
        let error = QueueManager::new("QM1")
            .accept(opening)
            .err()
            .expect("refused");
        assert!(!error.retryable);
        error.message
    };
    assert_eq!(refused(None), "a client that sent nothing");
    assert_eq!(
        refused(Some(Segment::new(MQCONN, 1, 1, Vec::new()))),
        "a client that did not open with initial data"
    );
    assert_eq!(
        refused(Some(Segment::new(INITIAL_DATA, 1, 1, b"XX".to_vec()))),
        "not \"ID  \": \"XX\""
    );
}

#[test]
fn initial_data_is_answered_on_the_channel_it_came_on() {
    let (_, opening) = Client::connect("QM1", "XMIP.SVRCONN");
    assert_eq!((opening.kind, opening.conversation, opening.request), (INITIAL_DATA, 1, 1));
    let (_, answer) = QueueManager::new("QM2")
        .carrying_at_most(9)
        .accept(Some(opening))
        .expect("accepting");
    assert_eq!((answer.kind, answer.conversation, answer.request), (INITIAL_DATA, 1, 1));
    assert_eq!(
        InitialData::decode(&answer.body).expect("initial data"),
        InitialData {
            max_message: 9,
            channel: "XMIP.SVRCONN".to_string(),
            queue_manager: "QM2".to_string(),
        }
    );
}

#[test]
fn what_a_queue_manager_does_not_take_is_refused() {
    let (_, mut session) = connected(QueueManager::new("QM1"));
    let error = session
        .next_event(Some(&Segment::new(0x0b, 1, 1, vec![0; 16])))
        .err()
        .expect("refused");
    assert_eq!(error.message, "a 0x0b segment");
    assert!(!error.retryable);
    let error = session
        .next_event(Some(&Segment::new(MQGET, 1, 1, vec![0; 15])))
        .err()
        .expect("refused");
    assert_eq!(error.message, "a segment too short for an API header");
    assert_eq!(session.next_event(None).expect("closed"), None);
}

#[test]
fn a_connect_without_a_name_is_answered_with_one() {
    let (_, mut session) = connected(QueueManager::new("QM1"));
    let body = ApiHeader::call(0).encode().to_vec();
    let (reply, event) = answered(&mut session, &Segment::new(MQCONN, 7, 9, body));
    assert_eq!(event, Event::Connected);
    assert_eq!((reply.kind, reply.conversation, reply.request), (0x91, 7, 9));
    assert_eq!(reply.body.len(), 64);
    assert_eq!(&reply.body[16..20], b"QM1 ");
}

#[test]
fn a_wait_for_a_message_passes_over_the_rest() {
    let manager = QueueManager::new("QM1").with_queue("ORDERS");
    let (client, opening) = Client::connect("QM1", DEFAULT_CHANNEL);
    let (mut session, answer) = manager.accept(Some(opening)).expect("accepting");
    let (mut client, call) = client.agree(Some(answer), "xmip", UNIX).expect("agreeing");
    let mut wait = |call: &Segment| session.next_put(Some(call)).expect("answered");
    let (reply, waited) = wait(&call);
    assert_eq!(waited, PutWait::Waiting);
    Client::connected(reply).expect("connected");
    let (reply, waited) = wait(&client.open("ORDERS", OPEN_OUTPUT));
    assert_eq!(waited, PutWait::Waiting);
    let handle = Client::opened(reply).expect("opened");
    let (_, waited) = wait(&client.put(handle, b"one", OVER).expect("a put"));
    assert!(matches!(waited, PutWait::Arrived(arrived) if arrived.bytes == b"one"));
    let (_, waited) = wait(&client.get(handle));
    assert_eq!(waited, PutWait::Waiting, "got");
    let (_, waited) = wait(&client.close(handle));
    assert_eq!(waited, PutWait::Waiting, "closed a handle");
    let (_, waited) = wait(&client.get(handle));
    assert_eq!(waited, PutWait::Waiting, "refused");
    let (_, waited) = wait(&client.disconnect());
    assert_eq!(waited, PutWait::Over);
    assert_eq!(session.next_put(None).expect("closed"), (None, PutWait::Over));
    assert!(session
        .next_put(Some(&Segment::new(1, 1, 1, Vec::new())))
        .is_err());
}

#[test]
fn a_reply_that_is_not_due_is_refused() {
    let error = Client::connected(None).err().expect("closed");
    assert_eq!(error.message, "the queue manager closed without replying");
    assert!(!error.retryable);
    let stray = Segment::new(MQCLOSE | REPLY, 1, 1, vec![0; 16]);
    let error = Client::connected(Some(stray)).err().expect("stray");
    assert_eq!(
        error.message,
        "a 0x94 segment where a 0x91 reply was due"
    );
    assert!(!error.retryable);
    let (client, _) = Client::connect("QM1", DEFAULT_CHANNEL);
    let stray = Segment::new(MQCONN, 1, 1, Vec::new());
    let error = client.agree(Some(stray), "xmip", UNIX).err().expect("stray");
    assert_eq!(
        error.message,
        "a 0x81 segment where a 0x01 reply was due"
    );
    let bare = Segment::new(MQCONN, 1, 1, vec![0; 16]);
    Client::connected(Some(bare)).expect("a reply without the reply bit is taken");
}

#[test]
fn a_reply_that_clears_is_retryable() {
    let body = ApiHeader::failed(2059, 0).encode().to_vec();
    let error = Client::connected(Some(Segment::new(MQCONN | REPLY, 1, 2, body)))
        .err()
        .expect("refused");
    assert_eq!(error.message, "the queue manager refused: MQRC 2059");
    assert!(error.retryable);
    let short = Segment::new(MQPUT | REPLY, 1, 2, b"short".to_vec());
    let error = Client::assigned(Some(short)).err().expect("short");
    assert_eq!(error.message, "a segment too short for an API header");
}

#[test]
fn a_got_message_shorter_than_its_length_is_refused() {
    let manager = QueueManager::new("QM1").holding("ORDERS", &[b"message"]);
    let (mut client, mut session) = connected(manager);
    let handle = opened(&mut client, &mut session, "ORDERS", OPEN_INPUT);
    let (mut reply, _) = answered(&mut session, &client.get(handle));
    reply.body.pop();
    let error = Client::got(Some(reply)).err().expect("short");
    assert_eq!(error.message, "a got message shorter than its length");
    assert!(!error.retryable);
}

#[test]
fn the_calls_are_laid_out_to_the_byte() {
    let near = IbmMqTransport::new("127.0.0.1:1414", "QM1", "ORDERS").on_channel("XMIP.SVRCONN");
    let (client, opening) = near.connect();
    assert_eq!(
        InitialData::decode(&opening.body).expect("initial data").channel,
        "XMIP.SVRCONN"
    );
    let (_, answer) = QueueManager::new("QM1")
        .accept(Some(opening))
        .expect("accepting");
    let (mut client, call) = client.agree(Some(answer), "xmip", 11).expect("agreeing");
    let mut expected = vec![0; 16];
    expected.extend_from_slice(b"QM1                                             ");
    expected.extend_from_slice(b"xmip                        ");
    expected.extend_from_slice(&[0, 0, 0, 11]);
    expected.extend_from_slice(&[0; 36]);
    assert_eq!(call, Segment::new(MQCONN, 1, 2, expected));
    let call = client.close(5);
    let mut expected = vec![0; 20];
    expected[15] = 5;
    assert_eq!(call, Segment::new(MQCLOSE, 1, 3, expected));
    let call = client.open("Q", 0x2001);
    assert_eq!(call.body.len(), 16 + 168 + 4);
    assert_eq!(call.body[184..], [0, 0, 0x20, 1]);
    let call = client.get(5);
    assert_eq!(call.body.len(), 16 + 324 + 76);
    assert_eq!(call.body[412..], [0, 0x40, 0, 0], "four mebibytes");
    let call = client.put(5, b"bytes", OVER).expect("a put");
    assert_eq!(call.body.len(), 16 + 324 + 132 + 5);
    assert_eq!(&call.body[468..], b"\0\0\0\x05bytes");
    assert_eq!(client.disconnect(), Segment::new(0x82, 1, 7, vec![0; 16]));
}

#[test]
fn an_application_is_of_the_build_it_runs_on() {
    assert_eq!(application_type(true), 11);
    assert_eq!(application_type(false), UNIX);
}
