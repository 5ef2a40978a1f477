use ibm_mq::segment::{
    be32, head_length, read_segment, write_segment, ApiHeader, Assembly, Progress, Reading, Segment,
    API_LENGTH, FIRST, LAST, MAX_TRANSMISSION, MQDISC, MQGET, MQPUT, REPLY, ROOM, TSHM_LENGTH,
};

const LIMIT: usize = 16 * 1024 * 1024;

fn written(segment: &Segment) -> Vec<u8> {
    let mut wire = Vec::new();
    write_segment(&mut wire, segment);
    wire
}

fn read(wire: &[u8]) -> Segment {
    match read_segment(wire, LIMIT) {
        Ok(Reading::Whole(segment, taken)) => {
            assert_eq!(taken, wire.len());
            segment
        }
        _ => panic!("not one whole segment"),
    }
}

fn refusal(wire: &[u8], limit: usize) -> String {
    match read_segment(wire, limit) {
        Err(error) => {
            assert!(!error.retryable);
            error.message
        }
        Ok(_) => panic!("taken"),
    }
}

#[test]
fn a_segment_round_trips_and_a_long_one_is_cut_and_put_together() {
    let long: Vec<u8> = (0..100_000u32)
        .map(|n| u8::try_from(n % 253).unwrap_or(0))
        .collect();
    let segment = Segment::new(MQPUT, 3, 7, long);
    let wire = written(&segment);
    assert_eq!(wire.len(), 100_000 + 4 * TSHM_LENGTH, "four transmissions");
    assert_eq!(&wire[0..4], b"TSHM");
    assert_eq!(wire[18], FIRST, "the first is flagged first");
    assert_eq!(read(&wire), segment);
    let empty = Segment::new(MQDISC, 3, 8, Vec::new());
    let wire = written(&empty);
    assert_eq!(wire.len(), TSHM_LENGTH);
    assert_eq!(wire[18], FIRST | LAST);
    assert_eq!(read(&wire), empty);
    assert!(matches!(read_segment(b"", LIMIT), Ok(Reading::Closed)));
}

#[test]
fn an_api_header_encodes_and_a_wrong_eyecatcher_is_refused() {
    let header = ApiHeader::failed(2085, 2);
    let mut body = header.encode().to_vec();
    body.extend_from_slice(b"rest");
    let (back, rest) = ApiHeader::decode(&body).expect("decoding");
    assert_eq!(back, header);
    assert_eq!(rest, b"rest");
    assert!(ApiHeader::decode(b"short").is_err());
    let header = b"TSH \0\0\0\x24............................";
    let error = read_segment(header, LIMIT).err().expect("TSH");
    assert!(!error.retryable);
}

#[test]
fn a_header_is_laid_out_to_the_byte() {
    let wire = written(&Segment::new(MQGET, 0x0102_0304, 0x0506_0708, b"xy".to_vec()));
    let expected: [u8; 38] = [
        b'T', b'S', b'H', b'M', 0, 0, 0, 38, 1, 2, 3, 4, 5, 6, 7, 8, 1, 0x85, 0x30, 0, 0, 0, 0, 0,
        0, 0, 0, 0, 0, 0, 1, 0x11, 0x04, 0xb8, 0, 0, b'x', b'y',
    ];
    assert_eq!(wire, expected);
}

#[test]
fn a_segment_is_written_behind_what_was_written_before() {
    let first = Segment::new(MQPUT, 1, 2, vec![7; ROOM + 1]);
    let second = Segment::new(MQDISC, 1, 3, Vec::new());
    let mut wire = written(&first);
    let taken_by_first = wire.len();
    write_segment(&mut wire, &second);
    match read_segment(&wire, LIMIT) {
        Ok(Reading::Whole(segment, taken)) => {
            assert_eq!(segment, first);
            assert_eq!(taken, taken_by_first);
            assert_eq!(read(&wire[taken..]), second);
        }
        _ => panic!("not one whole segment"),
    }
}

#[test]
fn a_body_of_exactly_one_transmission_is_not_cut() {
    let wire = written(&Segment::new(MQPUT, 1, 1, vec![1; ROOM]));
    assert_eq!(wire.len(), MAX_TRANSMISSION);
    assert_eq!(wire[18], FIRST | LAST);
    let wire = written(&Segment::new(MQPUT, 1, 1, vec![1; ROOM + 1]));
    assert_eq!(wire.len(), MAX_TRANSMISSION + TSHM_LENGTH + 1);
    assert_eq!(wire[18], FIRST);
    assert_eq!(wire[MAX_TRANSMISSION + 18], LAST);
    let wire = written(&Segment::new(MQPUT, 1, 1, vec![1; 2 * ROOM + 1]));
    for (n, transmission) in wire.chunks(MAX_TRANSMISSION).enumerate() {
        assert_eq!(&transmission[..4], b"TSHM", "transmission {n}");
    }
    assert_eq!(wire[MAX_TRANSMISSION + 18], 0, "neither first nor last");
}

#[test]
fn only_the_first_header_names_a_segment() {
    let mut wire = written(&Segment::new(MQPUT, 1, 2, vec![1; ROOM + 1]));
    wire[MAX_TRANSMISSION + 17] = MQGET;
    wire[MAX_TRANSMISSION + 11] = 9;
    assert_eq!(read(&wire), Segment::new(MQPUT, 1, 2, vec![1; ROOM + 1]));
}

#[test]
fn a_header_that_is_not_taken_says_why() {
    let good = written(&Segment::new(MQDISC, 1, 1, Vec::new()));
    let mut wrong = good.clone();
    wrong[3] = b' ';
    assert_eq!(
        refusal(&wrong, LIMIT),
        "not a transmission segment: \"TSH \""
    );
    let mut wrong = good.clone();
    wrong[0] = 0xff;
    wrong[1] = b'"';
    assert_eq!(
        refusal(&wrong, LIMIT),
        "not a transmission segment: \"\u{fffd}\\\"HM\""
    );
    let mut wrong = good.clone();
    wrong[7] = 35;
    assert_eq!(refusal(&wrong, LIMIT), "a segment of 35 bytes");
    let mut wrong = good.clone();
    wrong[6] = 0x7f;
    wrong[7] = 0xff;
    assert_eq!(refusal(&wrong, LIMIT), "a segment of 32767 bytes");
    let mut wrong = good.clone();
    wrong[4] = 0xff;
    wrong[5] = 0xff;
    wrong[6] = 0xff;
    wrong[7] = 0xff;
    assert_eq!(refusal(&wrong, LIMIT), "a segment of 4294967295 bytes");
    let mut wrong = good;
    wrong[16] = 2;
    assert_eq!(
        refusal(&wrong, LIMIT),
        "a little-endian segment, which this reader does not take"
    );
}

#[test]
fn bytes_that_end_early_are_told_from_a_peer_that_closed() {
    let wire = written(&Segment::new(MQPUT, 1, 1, vec![5; ROOM + 10]));
    assert!(matches!(
        read_segment(&wire[..0], LIMIT),
        Ok(Reading::Closed)
    ));
    assert!(matches!(read_segment(b"TSHM", LIMIT), Ok(Reading::Broken)));
    for end in [
        1,
        TSHM_LENGTH - 1,
        TSHM_LENGTH,
        MAX_TRANSMISSION - 1,
        MAX_TRANSMISSION,
        MAX_TRANSMISSION + TSHM_LENGTH - 1,
        wire.len() - 1,
    ] {
        assert!(matches!(
            read_segment(&wire[..end], LIMIT),
            Ok(Reading::Broken)
        ));
    }
}

#[test]
fn more_than_the_limit_is_not_put_together() {
    let wire = written(&Segment::new(MQPUT, 1, 1, vec![5; ROOM + 10]));
    assert!(matches!(
        read_segment(&wire, ROOM + 10),
        Ok(Reading::Whole(_, _))
    ));
    for limit in [0, ROOM, ROOM + 9] {
        assert_eq!(
            refusal(&wire, limit),
            "more segments than Xmip will put together"
        );
    }
}

#[test]
fn transmissions_join_one_at_a_time() {
    let segment = Segment::new(MQPUT, 1, 1, vec![5; ROOM + 10]);
    let wire = written(&segment);
    let first = Assembly::new(LIMIT);
    assert!(first.is_empty());
    let head = &wire[..TSHM_LENGTH];
    let carried = head_length(head).expect("a header");
    assert_eq!(carried, ROOM);
    let more = match first
        .join(head, &wire[TSHM_LENGTH..MAX_TRANSMISSION])
        .expect("joining")
    {
        Progress::More(more) => more,
        Progress::Whole(_) => panic!("whole too early"),
    };
    assert!(!more.is_empty());
    let head = &wire[MAX_TRANSMISSION..MAX_TRANSMISSION + TSHM_LENGTH];
    assert_eq!(head_length(head).expect("a header"), 10);
    match more
        .join(head, &wire[MAX_TRANSMISSION + TSHM_LENGTH..])
        .expect("joining")
    {
        Progress::Whole(whole) => assert_eq!(whole, segment),
        Progress::More(_) => panic!("whole too late"),
    }
}

#[test]
fn numbers_are_carried_highest_byte_first() {
    assert_eq!(be32(&[0x01, 0x02, 0x03, 0x04]), 0x0102_0304);
    assert_eq!(be32(&[0xff, 0xff, 0xff, 0xff, 0]), u32::MAX);
    let header = ApiHeader {
        reply_length: 0x0102_0304,
        completion: 2,
        reason: 2033,
        handle: 0xdead_beef,
    };
    let bytes = header.encode();
    assert_eq!(
        bytes,
        [1, 2, 3, 4, 0, 0, 0, 2, 0, 0, 0x07, 0xf1, 0xde, 0xad, 0xbe, 0xef]
    );
    assert_eq!(ApiHeader::decode(&bytes).expect("header").0, header);
    assert_eq!(ApiHeader::call(9).encode()[12..], [0, 0, 0, 9]);
    assert_eq!(bytes.len(), API_LENGTH);
}

#[test]
fn a_body_too_short_for_an_api_header_is_refused() {
    let error = ApiHeader::decode(&[0; 15]).err().expect("short");
    assert_eq!(error.message, "a segment too short for an API header");
    assert!(!error.retryable);
    assert!(ApiHeader::decode(&[0; 16]).is_ok());
}

#[test]
fn a_reply_keeps_its_conversation_and_request() {
    let reply = Segment::new(MQGET, 4, 9, b"call".to_vec()).reply(b"reply".to_vec());
    assert_eq!(reply, Segment::new(MQGET | REPLY, 4, 9, b"reply".to_vec()));
    assert_eq!(reply.kind, 0x95);
}
