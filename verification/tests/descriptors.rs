use ibm_mq::descriptor::{
    decode_object, decode_options, encode_get_options, encode_object, encode_put_options, fixed,
    text_of, InitialData, MessageDescriptor, ID_LENGTH, MQGMO_LENGTH, MQMD_LENGTH, MQOD_LENGTH,
    MQPMO_LENGTH,
};
use ibm_mq::manager::hex;

#[test]
fn every_structure_is_its_declared_length_and_reads_back() {
    let mut md = MessageDescriptor::datagram("xmip");
    md.message_id[0] = 0x41;
    md.format = "MQSTR".to_string();
    let encoded = md.encode();
    assert_eq!(encoded.len(), MQMD_LENGTH);
    let trailing = [encoded, b"x".to_vec()].concat();
    let (back, rest) = MessageDescriptor::decode(&trailing).expect("md");
    assert_eq!(back, md);
    assert_eq!(rest, b"x");
    let pmo = encode_put_options("ORDERS", 5);
    assert_eq!(pmo.len(), MQPMO_LENGTH + 4);
    assert_eq!(
        decode_options(&pmo, b"PMO ", MQPMO_LENGTH).expect("pmo").0,
        5
    );
    let gmo = encode_get_options("", 4096);
    assert_eq!(gmo.len(), MQGMO_LENGTH + 4);
    assert_eq!(
        decode_options(&gmo, b"GMO ", MQGMO_LENGTH).expect("gmo").0,
        4096
    );
    let od = encode_object("ORDERS");
    assert_eq!(od.len(), MQOD_LENGTH);
    assert_eq!(decode_object(&od).expect("od").0, "ORDERS");
    let id = InitialData {
        max_message: 4_194_304,
        channel: "SYSTEM.DEF.SVRCONN".to_string(),
        queue_manager: "QM1".to_string(),
    };
    assert_eq!(id.encode().len(), ID_LENGTH);
    assert_eq!(InitialData::decode(&id.encode()).expect("id"), id);
}

#[test]
fn a_wrong_eyecatcher_or_a_short_structure_is_refused() {
    assert!(MessageDescriptor::decode(&encode_object("Q")).is_err());
    assert!(decode_object(&[b"OD  ".to_vec(), vec![0; 10]].concat()).is_err());
    assert!(InitialData::decode(b"ID  ").is_err());
    assert_eq!(text_of(b"ORDERS  \0"), "ORDERS");
    assert_eq!(fixed("Q", 3), b"Q  ");
}

#[test]
fn a_descriptor_is_laid_out_to_the_byte() {
    let mut md = MessageDescriptor::datagram("xmip");
    md.format = "MQSTR".to_string();
    md.message_id = [0xaa; 24];
    md.correlation_id = [0xbb; 24];
    let mut expected = Vec::new();
    expected.extend_from_slice(b"MD  ");
    expected.extend_from_slice(&[0, 0, 0, 1, 0, 0, 0, 0, 0, 0, 0, 8, 0xff, 0xff, 0xff, 0xff]);
    expected.extend_from_slice(&[0, 0, 0, 0, 0, 0, 1, 0x11, 0, 0, 0x04, 0xb8]);
    expected.extend_from_slice(b"MQSTR   ");
    expected.extend_from_slice(&[0xff, 0xff, 0xff, 0xff, 0, 0, 0, 2]);
    expected.extend_from_slice(&[0xaa; 24]);
    expected.extend_from_slice(&[0xbb; 24]);
    expected.extend_from_slice(&[0; 4]);
    expected.extend_from_slice(&[b' '; 108]);
    expected.extend_from_slice(&[0; 32]);
    expected.extend_from_slice(&[b' '; 32]);
    expected.extend_from_slice(&[0; 4]);
    expected.extend_from_slice(b"xmip                        ");
    expected.extend_from_slice(&[b' '; 20]);
    assert_eq!(md.encode(), expected);
}

#[test]
fn options_are_laid_out_to_the_byte() {
    let mut expected = Vec::new();
    expected.extend_from_slice(b"PMO ");
    expected.extend_from_slice(&[0, 0, 0, 1, 0, 0, 0x20, 0]);
    expected.extend_from_slice(&[0; 20]);
    expected.extend_from_slice(&fixed("ORDERS", 48));
    expected.extend_from_slice(&[b' '; 48]);
    expected.extend_from_slice(&[0, 0, 1, 2]);
    assert_eq!(encode_put_options("ORDERS", 258), expected);
    let mut expected = Vec::new();
    expected.extend_from_slice(b"GMO ");
    expected.extend_from_slice(&[0, 0, 0, 1, 0, 0, 0x20, 0]);
    expected.extend_from_slice(&[0; 12]);
    expected.extend_from_slice(&fixed("ORDERS", 48));
    expected.extend_from_slice(&[0, 0, 1, 2]);
    assert_eq!(encode_get_options("ORDERS", 258), expected);
}

#[test]
fn a_length_past_four_bytes_is_carried_as_the_largest() {
    let long: usize = 0x1_0000_0000;
    assert_eq!(encode_put_options("", long)[128..], [0xff; 4]);
    assert_eq!(encode_get_options("", long)[72..], [0xff; 4]);
    assert_eq!(
        encode_put_options("", long - 1),
        encode_put_options("", long)
    );
}

#[test]
fn an_object_is_laid_out_to_the_byte_and_has_to_be_a_queue() {
    let mut expected = Vec::new();
    expected.extend_from_slice(b"OD  ");
    expected.extend_from_slice(&[0, 0, 0, 1, 0, 0, 0, 1]);
    expected.extend_from_slice(&fixed("ORDERS", 48));
    expected.extend_from_slice(&[b' '; 108]);
    let mut od = encode_object("ORDERS");
    assert_eq!(od, expected);
    od.extend_from_slice(b"rest");
    assert_eq!(
        decode_object(&od).expect("od"),
        ("ORDERS".to_string(), &b"rest"[..])
    );
    od[11] = 2;
    let error = decode_object(&od).err().expect("no queue");
    assert_eq!(error.message, "an object that is not a queue");
    assert!(!error.retryable);
}

#[test]
fn initial_data_is_laid_out_to_the_byte() {
    let id = InitialData {
        max_message: 100,
        channel: "XMIP.SVRCONN".to_string(),
        queue_manager: "QM1".to_string(),
    };
    let mut expected = Vec::new();
    expected.extend_from_slice(b"ID  ");
    expected.extend_from_slice(&[10, 0, 0, 0, 0, 0, 50]);
    expected.extend_from_slice(&[0, 0, 0x7f, 0xfe, 0, 0, 0, 100]);
    expected.extend_from_slice(&[0x3b, 0x9a, 0xc9, 0xff]);
    expected.extend_from_slice(&fixed("XMIP.SVRCONN", 20));
    expected.extend_from_slice(&[0, 0, 0x04, 0xb8]);
    expected.extend_from_slice(&fixed("QM1", 48));
    expected.push(0);
    assert_eq!(id.encode(), expected);
    expected.extend_from_slice(b"what follows");
    assert_eq!(InitialData::decode(&expected).expect("id"), id);
}

#[test]
fn a_refused_structure_says_what_was_there() {
    let error = MessageDescriptor::decode(&encode_object("Q"))
        .err()
        .expect("od");
    assert_eq!(error.message, "not \"MD  \": \"OD  \"");
    assert!(!error.retryable);
    let error = InitialData::decode(b"I\n").err().expect("short");
    assert_eq!(error.message, "not \"ID  \": \"I\\n\"");
    let error = decode_object(b"").err().expect("empty");
    assert_eq!(error.message, "not \"OD  \": \"\"");
    let error = decode_object(&[0xff; 168]).err().expect("not text");
    assert_eq!(
        error.message,
        "not \"OD  \": \"\u{fffd}\u{fffd}\u{fffd}\u{fffd}\""
    );
    let error = decode_options(&encode_get_options("", 1), b"PMO ", MQGMO_LENGTH)
        .err()
        .expect("gmo");
    assert_eq!(error.message, "not \"PMO \": \"GMO \"");
}

#[test]
fn options_without_their_length_are_cut_short() {
    let pmo = encode_put_options("", 7);
    let error = decode_options(&pmo[..MQPMO_LENGTH + 3], b"PMO ", MQPMO_LENGTH)
        .err()
        .expect("cut");
    assert_eq!(error.message, "a structure cut short at byte 128");
    assert!(!error.retryable);
    let (length, rest) = decode_options(&pmo, b"PMO ", MQPMO_LENGTH).expect("whole");
    assert_eq!((length, rest.len()), (7, 0));
}

#[test]
fn a_field_is_padded_or_cut_and_comes_back_without_its_padding() {
    assert_eq!(fixed("", 2), b"  ");
    assert_eq!(fixed("ORDERS", 3), b"ORD");
    assert_eq!(fixed("\u{e9}\u{e9}", 3), [0xc3, 0xa9, 0xc3]);
    assert_eq!(text_of(b""), "");
    assert_eq!(text_of(b"  \0 "), "");
    assert_eq!(text_of(b" A B \0"), " A B");
    assert_eq!(text_of(b"A\0B\0 "), "A\0B", "only at the end");
    assert_eq!(text_of(&fixed("caf\u{e9}", 8)), "caf\u{e9}");
    assert_eq!(text_of(b"A\xff \0"), "A\u{fffd}");
    assert_eq!(text_of(&fixed("\u{e9}\u{e9}", 3)), "\u{e9}\u{fffd}");
    assert_eq!(text_of(b"\xe2\x82 "), "\u{fffd}");
}

#[test]
fn hexadecimal_is_two_lower_case_digits_to_a_byte() {
    assert_eq!(hex(b"AMQ "), "414d5120");
    assert_eq!(hex(&[0x00, 0x0f, 0xf0, 0xff]), "000ff0ff");
    assert_eq!(hex(b""), "");
}
