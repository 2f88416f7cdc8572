use transport_oracle::tns::{
    accept, connect, data, data_eof, read_connect, read_data, refuse, refused, Packet, ACCEPT,
    CONNECT, DATA, DATA_FLAG_EOF, MARKER, MAX_PACKET, REFUSE,
};

#[test]
fn a_connect_and_its_accept_read_back_over_a_wire() {
    let connect = connect("(DESCRIPTION=(CONNECT_DATA=(SERVICE_NAME=orders)))");
    let mut wire = Vec::new();
    connect.write(&mut wire).expect("write");
    accept().write(&mut wire).expect("write");
    let mut cursor = &wire[..];
    let read = Packet::expect(&mut cursor).expect("connect");
    assert_eq!(read.kind, CONNECT);
    assert!(read_connect(&read).expect("string").contains("SERVICE_NAME=orders"));
    assert_eq!(Packet::expect(&mut cursor).expect("accept").kind, ACCEPT);
    assert_eq!(Packet::read(&mut cursor).expect("closed"), None);
}

#[test]
fn a_data_packet_carries_its_flag_and_payload_and_a_refuse_is_an_error() {
    let mut wire = Vec::new();
    data(b"two-task").write(&mut wire).expect("write");
    data_eof().write(&mut wire).expect("write");
    let mut cursor = &wire[..];
    let first = Packet::expect(&mut cursor).expect("data");
    assert_eq!(read_data(&first).expect("payload"), (0, &b"two-task"[..]));
    let last = Packet::expect(&mut cursor).expect("eof");
    assert_eq!(read_data(&last).expect("eof"), (DATA_FLAG_EOF, &b""[..]));
    assert!(refused(&refuse("ORA-12514")).message.contains("ORA-12514"));
    assert!(!refused(&refuse("no")).retryable);
    assert!(refused(&accept()).message.contains("type 2"));
    let mut over = 9000u16.to_be_bytes().to_vec();
    over.extend_from_slice(&[0, 0, DATA, 0, 0, 0]);
    assert!(Packet::read(&mut &over[..]).is_err(), "over the maximum");
}

#[test]
fn a_packet_is_its_header_and_its_body() {
    let packet = Packet { kind: MARKER, body: vec![7, 8, 9] };
    assert_eq!(packet.to_bytes(), [0, 11, 0, 0, 12, 0, 0, 0, 7, 8, 9]);
    assert_eq!(accept().to_bytes(), [0, 10, 0, 0, 2, 0, 0, 0, 1, 62]);
    assert_eq!(data(b"x").to_bytes(), [0, 11, 0, 0, 6, 0, 0, 0, 0, 0, b'x']);
    assert_eq!(data_eof().body, [0, 64]);
    assert_eq!(refuse("no").body, b"no");
    assert_eq!(refuse("no").kind, REFUSE);
    assert_eq!(connect("ab").body, [1, 62, b'a', b'b']);
}

#[test]
fn the_largest_packet_is_read_and_one_over_it_is_refused() {
    let largest = Packet { kind: DATA, body: vec![1; MAX_PACKET - 8] };
    let mut wire = largest.to_bytes();
    wire.push(0xaa);
    let mut cursor = &wire[..];
    assert_eq!(Packet::read(&mut cursor).expect("largest"), Some(largest));
    assert_eq!(cursor, [0xaa], "what follows is left to read");
    let over = Packet { kind: DATA, body: vec![1; MAX_PACKET - 7] };
    let error = Packet::read(&mut &over.to_bytes()[..]).expect_err("over");
    assert_eq!(error.message, "a TNS packet of 8193 bytes");
    assert!(!error.retryable);
    let huge = Packet { kind: DATA, body: vec![1; 70_000] };
    assert_eq!(huge.to_bytes()[..2], [0xff, 0xff]);
    let error = Packet::read(&mut &huge.to_bytes()[..]).expect_err("huge");
    assert_eq!(error.message, "a TNS packet of 65535 bytes");
    let short = [0, 7, 0, 0, 6, 0, 0, 0];
    let error = Packet::read(&mut &short[..]).expect_err("short");
    assert_eq!(error.message, "a TNS packet of 7 bytes");
    assert_eq!(Packet::length(&[0, 8, 0, 0, 6, 0, 0, 0]).expect("a bare header"), 8);
    assert!(Packet::length(&short).is_err());
}

#[test]
fn a_connection_that_breaks_in_a_packet_is_not_one_that_closed() {
    let bytes = data(b"cut").to_bytes();
    for cut in 1..bytes.len() {
        let mut cursor = &bytes[..cut];
        let error = Packet::read(&mut cursor).expect_err("broken");
        assert!(error.retryable);
        assert!(error.message.contains(if cut < 8 { "header" } else { "body" }), "{cut}");
        assert!(cursor.is_empty());
    }
    assert_eq!(Packet::read(&mut &b""[..]).expect("closed"), None);
    let error = Packet::expect(&mut &b""[..]).expect_err("closed");
    assert_eq!(error.message, "the peer closed the connection");
}

#[test]
fn a_packet_of_another_type_carries_neither_a_connect_string_nor_data() {
    assert_eq!(read_connect(&accept()).expect_err("accept").message, "not a connect packet");
    let short = Packet { kind: CONNECT, body: vec![1] };
    assert!(read_connect(&short).is_err());
    assert_eq!(read_data(&accept()).expect_err("accept").message, "not a data packet");
    let short = Packet { kind: DATA, body: vec![0] };
    assert!(read_data(&short).is_err());
    let goodbye = Packet { kind: DATA, body: vec![0, 64, 1, 2] };
    assert_eq!(read_data(&goodbye).expect("eof"), (DATA_FLAG_EOF, &b""[..]));
    let other = Packet { kind: DATA, body: vec![1, 2, 3] };
    assert_eq!(read_data(&other).expect("data"), (0x0102, &[3u8][..]));
}

#[test]
fn bytes_that_are_not_text_are_replaced() {
    let packet = Packet { kind: CONNECT, body: vec![1, 62, b'a', 0xff, b'b'] };
    assert_eq!(read_connect(&packet).expect("lossily"), "a\u{fffd}b");
    let packet = Packet { kind: REFUSE, body: vec![0xc3, 0xa9] };
    assert_eq!(refused(&packet).message, "the listener refused the connection: \u{e9}");
    let packet = Packet { kind: 255, body: vec![] };
    assert_eq!(refused(&packet).message, "a packet of type 255 where a session was expected");
}
