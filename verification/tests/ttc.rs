use transport_oracle::cursor::Cursor;
use transport_oracle::tns::{self, Packet};
use transport_oracle::ttc::{
    expect_message, logon_verifier, read_message, tag, write_message, Message, Ttc, TtcWrite,
};

#[test]
fn a_message_carries_its_tag_and_its_counted_fields() {
    let mut body = Vec::new();
    body.string("orders").counted(&[0, 0xff]);
    let message = Message { tag: tag::EXECUTE, body };
    let read = Message::from_payload(&message.to_payload()).expect("message");
    assert_eq!(read, message);
    let mut reader = read.cursor();
    assert_eq!(reader.string().expect("service"), "orders");
    assert_eq!(reader.counted().expect("bind"), &[0, 0xff]);
    assert!(Message::from_payload(&[]).is_err());
    assert_eq!(Message::bare(tag::LOGOFF).to_payload(), [tag::LOGOFF]);
}

#[test]
fn integers_arrays_and_values_read_back() {
    let mut body = Vec::new();
    body.counted(&7u32.to_be_bytes())
        .counted(&9u64.to_be_bytes())
        .count(2)
        .counted(b"a")
        .counted(b"bc")
        .value(Some(b"x"))
        .value(None);
    let mut reader = Cursor::new(&body);
    assert_eq!(reader.integer().expect("u32"), 7);
    assert_eq!(reader.long().expect("u64"), 9);
    assert_eq!(reader.values().expect("values"), vec![b"a".to_vec(), b"bc".to_vec()]);
    assert_eq!(reader.value().expect("value"), Some(b"x".to_vec()));
    assert_eq!(reader.value().expect("null"), None);
    let error = Cursor::new(&[0, 5, 1]).counted().expect_err("cut short");
    assert!(!error.retryable);
    assert!(error.message.contains("runs past"), "{}", error.message);
    assert!(Cursor::new(&[0, 1, 7]).integer().is_err(), "not four bytes");
    assert!(Cursor::new(&[]).byte().is_err());
}

#[test]
fn the_verifier_answers_the_challenge_and_a_wrong_password_answers_differently() {
    let challenge = [0x11u8; 16];
    let right = logon_verifier(&challenge, b"secret");
    assert_eq!(right, logon_verifier(&challenge, b"secret"), "deterministic");
    assert_ne!(right, logon_verifier(&challenge, b"secrat"), "a byte spreads");
    assert_ne!(right, logon_verifier(&[0x12; 16], b"secret"), "the challenge matters");
    assert_ne!(right, [0u8; 16]);
    assert_ne!(logon_verifier(&challenge, b""), logon_verifier(&challenge, b"x"));
}

#[test]
fn the_verifier_is_this_mix() {
    assert_eq!(logon_verifier(&[0x11; 16], b"secret"), [160, 117, 243, 32, 7, 223, 68, 236, 191, 52, 175, 218, 105, 164, 218, 1]);
    assert_eq!(logon_verifier(&[0; 16], b""), [0, 0, 0, 0, 0, 0, 0, 0, 0, 0, 0, 0, 0, 0, 0, 0]);
    assert_eq!(
        logon_verifier(&[0x11; 16], b"a"),
        logon_verifier(&[0x11; 16], b"aa"),
        "the password is taken over and over"
    );
}

#[test]
fn a_password_never_gives_the_empty_answer() {
    let mut challenge = [0xfeu8; 16];
    challenge[0] = 0x46;
    challenge[1] = 0x26;
    let answer = logon_verifier(&challenge, &[2]);
    assert_ne!(answer, [0u8; 16]);
    assert_eq!(answer, [0xff; 16]);
    challenge[15] = 0xff;
    assert_ne!(logon_verifier(&challenge, &[2]), answer, "the challenge matters");
}

#[test]
fn fields_are_written_as_counts_and_bytes() {
    let mut body = Vec::new();
    body.count(258);
    assert_eq!(body, [1, 2]);
    let mut body = Vec::new();
    body.count(70_000);
    assert_eq!(body, [255, 255], "a count saturates");
    let mut body = Vec::new();
    body.string("\u{e9}");
    assert_eq!(body, [0, 2, 0xc3, 0xa9]);
    let mut body = Vec::new();
    body.value(Some(b"")).value(None).value(Some(b"z"));
    assert_eq!(body, [1, 0, 0, 0, 1, 0, 1, b'z'], "an empty value is not NULL");
    let mut reader = Cursor::new(&body);
    assert_eq!(reader.value().expect("empty"), Some(vec![]));
    assert_eq!(reader.value().expect("null"), None);
    assert_eq!(reader.value().expect("one"), Some(b"z".to_vec()));
    let error = reader.value().expect_err("no more");
    assert_eq!(error.message, "a field of 1 bytes runs past the 0 that are left");
}

#[test]
fn a_number_of_another_width_is_no_number() {
    let five = [0, 5, 1, 2, 3, 4, 5];
    let error = Cursor::new(&five).integer().expect_err("five bytes");
    assert_eq!(error.message, "a TTC integer that is not four bytes");
    let error = Cursor::new(&five).long().expect_err("five bytes");
    assert_eq!(error.message, "a TTC long that is not eight bytes");
    let mut body = Vec::new();
    body.counted(&u32::MAX.to_be_bytes()).counted(&u64::MAX.to_be_bytes());
    let mut reader = Cursor::new(&body);
    assert_eq!(reader.integer().expect("u32"), u32::MAX);
    assert_eq!(reader.long().expect("u64"), u64::MAX);
}

#[test]
fn a_failed_read_stops_behind_what_it_had_read() {
    let bytes = [0, 5, 1];
    let mut reader = Cursor::new(&bytes);
    assert!(reader.counted().is_err());
    assert_eq!(reader.byte().expect("behind the length"), 1);
    let bytes = [0, 2, 0, 1, 9, 0, 4, 8];
    let mut reader = Cursor::new(&bytes);
    assert!(reader.values().is_err());
    assert_eq!(reader.byte().expect("behind the second length"), 8);
    let bytes = [0, 1, 7, 3];
    let mut reader = Cursor::new(&bytes);
    assert!(reader.integer().is_err());
    assert_eq!(reader.byte().expect("behind the bytes"), 3);
    let mut reader = Cursor::new(&[0, 5, 1]);
    assert!(reader.take(4).is_err());
    assert_eq!(reader.u16_be().expect("where it was"), 5);
}

#[test]
fn messages_are_read_off_a_wire_until_the_goodbye() {
    let mut body = Vec::new();
    body.string("SELECT 1").value(None);
    let execute = Message { tag: tag::EXECUTE, body };
    let mut wire = Vec::new();
    write_message(&mut wire, &execute).expect("write");
    write_message(&mut wire, &Message::bare(tag::LOGOFF)).expect("write");
    tns::data_eof().write(&mut wire).expect("write");
    let mut cursor = &wire[..];
    assert_eq!(read_message(&mut cursor).expect("execute"), Some(execute));
    assert_eq!(expect_message(&mut cursor).expect("logoff").tag, tag::LOGOFF);
    assert_eq!(read_message(&mut cursor).expect("goodbye"), None);
    assert_eq!(read_message(&mut cursor).expect("closed"), None);
    let error = expect_message(&mut cursor).expect_err("closed");
    assert_eq!(error.message, "the peer closed before its message");
}

#[test]
fn a_packet_without_a_message_is_an_error() {
    let bytes = tns::accept().to_bytes();
    assert_eq!(read_message(&mut &bytes[..]).expect_err("accept").message, "not a data packet");
    let bytes = tns::data(b"").to_bytes();
    let error = read_message(&mut &bytes[..]).expect_err("empty");
    assert_eq!(error.message, "an empty two-task payload");
    let error = Message::due(&Some(tns::data_eof())).expect_err("goodbye");
    assert_eq!(error.message, "the peer closed before its message");
    let packet: Option<Packet> = None;
    assert_eq!(Message::sent(&packet).expect("closed"), None);
}

#[test]
fn a_wrong_byte_anywhere_in_a_password_shows() {
    let challenge = [0xc3u8; 16];
    let password = *b"sixteen bytes it";
    let right = logon_verifier(&challenge, &password);
    for place in 0..16 {
        for change in 1..=255u8 {
            let mut wrong = password;
            wrong[place] ^= change;
            assert_ne!(right, logon_verifier(&challenge, &wrong), "{place} {change}");
            let mut other = challenge;
            other[place] ^= change;
            assert_ne!(right, logon_verifier(&other, &password), "{place} {change}");
        }
    }
}
