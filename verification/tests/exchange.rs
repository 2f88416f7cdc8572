use std::time::Duration;

use transport_oracle::client::{Connect, Fetch};
use transport_oracle::error::TransportError;
use transport_oracle::session::{self, Accept, Accepting};
use transport_oracle::sql::Arrived;
use transport_oracle::tns::{self, Packet};
use transport_oracle::ttc::{tag, Message, TtcWrite};
use transport_oracle::{
    take_one, Answer, Claim, Client, Directions, Event, Login, OracleTransport, QueryResult,
    Session, DEFAULT_QUERY, LOOPBACK_TARGET,
};

fn secs(n: u64) -> Duration {
    Duration::from_secs(n)
}

/// What the other side reads of a packet that was written.
fn cross(packet: &Packet) -> Option<Packet> {
    let mut wire = Vec::new();
    packet.write(&mut wire).expect("write");
    Packet::read(&mut &wire[..]).expect("read")
}

/// Log `near` in to `far` for `service`; what each side reports where that
/// fails.
fn log_in(
    near: &OracleTransport,
    service: &str,
    far: Accepting,
) -> Result<(Client, Session), (TransportError, TransportError)> {
    let (mut client, mut packet) = near.connect_to(service);
    let mut server = far;
    loop {
        let (reply, ended) = match server.next(cross(&packet)) {
            Accept::Sent(next, reply) => {
                match client.next(cross(&reply)).expect("connecting") {
                    Connect::Sent(connecting, sent) => {
                        client = connecting;
                        packet = sent;
                    }
                    Connect::Connected(_) => panic!("connected before the login"),
                }
                server = next;
                continue;
            }
            Accept::Accepted(session, reply) => (Some(reply), Ok(session)),
            Accept::Refused(reply, error) => (reply, Err(error)),
        };
        let told = client.next(reply.as_ref().and_then(cross));
        return match (ended, told) {
            (Ok(session), Ok(Connect::Connected(client))) => Ok((client, session)),
            (Err(seen), Err(told)) => Err((seen, told)),
            _ => panic!("one side alone was content"),
        };
    }
}

/// Run `sql` from `client` against `session`.
fn run(
    client: &Client,
    session: &Session,
    sql: &str,
    bind: Option<&[u8]>,
    answering: impl FnOnce(&str) -> Option<Answer>,
) -> (Event, Result<QueryResult, TransportError>) {
    let (mut query, packet) = client.query(sql, bind);
    let (event, packets) = session
        .next_event(cross(&packet), answering)
        .expect("served")
        .expect("a statement");
    for packet in &packets {
        query = match query.next(cross(packet)) {
            Ok(Fetch::More(query)) => query,
            Ok(Fetch::Done(result)) => return (event, Ok(result)),
            Err(error) => return (event, Err(error)),
        };
    }
    (event, query.next(None).map(|_| panic!("nothing came")))
}

/// Log off, which ends the session.
fn log_off(client: Client, session: &Session) {
    let (logoff, goodbye) = client.close();
    assert!(session.next_event(cross(&logoff), |_| None).expect("logoff").is_none());
    assert!(session.next_event(cross(&goodbye), |_| None).expect("goodbye").is_none());
}

/// One payload through the loopback pair.
fn round(pair: &OracleTransport, payload: &[u8]) -> Arrived {
    let near = pair.at("127.0.0.1:40001");
    let delivery = near.send(LOOPBACK_TARGET).expect("target");
    assert_eq!(delivery.server, "127.0.0.1:40001");
    let far = pair.accept_one("127.0.0.1:50001", 1_700_000_000, 1);
    let (client, session) = log_in(&near, &delivery.service, far).expect("login");
    let (event, result) = run(&client, &session, &delivery.sql, Some(payload), |_| None);
    assert_eq!(result.expect("inserted").affected_rows, 1);
    log_off(client, &session);
    take_one(event.inserted()).expect("a Stream")
}

fn edge_payloads() -> Vec<(&'static str, Vec<u8>)> {
    vec![
        ("empty", Vec::new()),
        ("one byte", vec![0x2a]),
        ("every byte", (0..=255).collect()),
        ("nul run", vec![0; 512]),
        ("high bytes", vec![0xff; 512]),
        ("crlf storm", b"\r\n".repeat(400)),
    ]
}

#[test]
fn the_loopback_inserts_bytes_through_its_own_listener() {
    let pair = OracleTransport::loopback(secs(2));
    let arrived = round(&pair, b"it's \\here");
    assert_eq!(arrived.bytes, b"it's \\here");
    assert!(arrived.origin_uri.starts_with("oracle://127.0.0.1:"));
    assert!(arrived.origin_uri.ends_with("/inbox"));
    let binary = round(&pair, &[0xff, 0xfe]);
    assert_eq!(binary.bytes, [0xff, 0xfe]);
    assert_eq!(pair.name(), "oracle");
    assert_eq!(pair.directions(), Directions::Both);
    assert_eq!(pair.claims(), Some(Claim::NoNative), "rows are artefacts");
}

#[test]
fn the_loopback_returns_the_edge_payloads_whole() {
    let pair = OracleTransport::loopback(secs(2));
    for (name, payload) in edge_payloads() {
        let arrived = round(&pair, &payload);
        assert_eq!(arrived.bytes, payload, "{name}");
    }
}

#[test]
fn a_receive_runs_the_query_and_each_row_is_a_stream() {
    let far_end = OracleTransport::new("127.0.0.1:0", "ORDERS", "xmip")
        .with_password("secret")
        .timing_out_after(secs(2));
    let receiver = OracleTransport::new("127.0.0.1:1521", "ORDERS", "xmip")
        .with_password("secret")
        .with_query("SELECT id, kind, payload FROM inbox ORDER BY id")
        .timing_out_after(secs(2));
    let accepting = far_end.accept_one("127.0.0.1:50002", 5, 1);
    let (client, session) = log_in(&receiver, receiver.service(), accepting).expect("accepting");
    let session = session.with_table(
        &["id", "kind", "payload"],
        &[
            &[Some(b"41"), Some(b"order"), Some(b"ISA*00*")],
            &[Some(b"42"), None, Some(&[0xff, 0xfe])],
            &[None, Some(b""), None],
        ],
    );
    assert_eq!(session.user(), "xmip");
    assert_eq!(session.service(), "ORDERS");
    let (event, result) = run(&client, &session, receiver.query(), None, |_| None);
    assert_eq!(
        event,
        Event::Selected("SELECT id, kind, payload FROM inbox ORDER BY id".into())
    );
    let result = result.expect("receiving");
    assert_eq!(result.columns, ["id", "kind", "payload"]);
    assert_eq!(result.rows[2], [None, Some(vec![]), None], "NULL is not empty");
    assert_eq!(result.affected_rows, 3);
    log_off(client, &session);
    let arrived = receiver.receive(result);
    assert_eq!(arrived.len(), 3);
    assert_eq!(arrived[0].bytes, b"ISA*00*");
    assert!(arrived[0].origin_uri.ends_with("/ORDERS?row=41"));
    assert_eq!(arrived[1].bytes, [0xff, 0xfe], "bytes are bytes");
    assert!(arrived[1].origin_uri.ends_with("?row=42"));
    assert!(arrived[2].bytes.is_empty(), "NULL is an empty Stream");
    assert!(arrived[2].origin_uri.ends_with("?row=2"));
    assert_eq!(arrived[0].origin_uri, "oracle://127.0.0.1:1521/ORDERS?row=41");
}

#[test]
fn a_send_inserts_the_stream_and_the_login_is_checked() {
    let address = "127.0.0.1:40003";
    let far_end = OracleTransport::new("127.0.0.1:0", "ORDERS", "xmip")
        .with_password("secret")
        .timing_out_after(secs(2));
    let near = OracleTransport::new(address, "ORDERS", "xmip")
        .with_password("secret")
        .timing_out_after(secs(2));
    let delivery = near
        .send(&format!("oracle://{address}/ORDERS/inbox/payload"))
        .expect("target");
    let accepting = far_end.accept_one("127.0.0.1:50003", 6, 1);
    let (client, session) = log_in(&near, &delivery.service, accepting).expect("accepting");
    let (event, sent) = run(&client, &session, &delivery.sql, Some(b"\0raw\xff"), |_| None);
    sent.expect("sending");
    let first = event.inserted().expect("one");
    assert_eq!(first.bytes, b"\0raw\xff");
    assert!(first.origin_uri.ends_with("/inbox"));
    log_off(client, &session);
    let bad_target = near.send("oracle://host/only-one").err().expect("not a column");
    assert!(!bad_target.retryable);
    let impostor = OracleTransport::new(address, "ORDERS", "xmip").with_password("wrong");
    let accepting = far_end.accept_one("127.0.0.1:50004", 7, 2);
    let (wrong, refused) = log_in(&impostor, "ORDERS", accepting).err().expect("wrong password");
    assert!(wrong.message.contains("ORA-01017"), "{}", wrong.message);
    assert!(refused.message.contains("ORA-01017"));
    let stranger = OracleTransport::new(address, "ORDERS", "nobody");
    let accepting = far_end.accept_one("127.0.0.1:50005", 8, 3);
    let (nobody, refused) = log_in(&stranger, "ORDERS", accepting).err().expect("wrong user");
    assert!(nobody.message.contains("'nobody'"), "{}", nobody.message);
    assert!(refused.message.contains("ORA-01017"));
}

#[test]
fn a_statement_the_far_end_errors_is_the_error_and_a_bad_connect_is_refused() {
    let far_end = OracleTransport::new("127.0.0.1:0", "ORDERS", "xmip").timing_out_after(secs(2));
    let near = OracleTransport::new("127.0.0.1:1521", "ORDERS", "xmip").timing_out_after(secs(2));
    let (client, session) =
        log_in(&near, "ORDERS", far_end.accept_one("127.0.0.1:50006", 9, 1)).expect("accepting");
    let (event, failed) = run(&client, &session, near.query(), None, |sql| {
        sql.starts_with("SELECT").then(|| Answer::Error {
            code: 942,
            message: "table or view does not exist".into(),
        })
    });
    assert_eq!(event, Event::Selected(DEFAULT_QUERY.into()), "whoever answered it");
    let error = failed.expect_err("the table is missing");
    assert!(!error.retryable);
    assert!(error.message.contains("ORA-00942"), "{}", error.message);
    log_off(client, &session);
    let (client, session) =
        log_in(&near, "ORDERS", far_end.accept_one("127.0.0.1:50007", 9, 2)).expect("again");
    let (event, deleted) =
        run(&client, &session, "DELETE FROM inbox WHERE id = 41", None, |sql| {
            sql.starts_with("DELETE").then_some(Answer::Complete(3))
        });
    assert_eq!(event, Event::Executed("DELETE FROM inbox WHERE id = 41".into()));
    assert_eq!(client.server_banner(), session::SERVER_BANNER);
    assert_eq!(deleted.expect("near").affected_rows, 3);
    log_off(client, &session);
    match far_end.accept_one("127.0.0.1:50008", 9, 3).next(Some(tns::accept())) {
        Accept::Refused(Some(reply), error) => {
            assert_eq!(error.message, "a first packet that is not a connect");
            assert_eq!(reply, tns::refuse("ORA-12514: no service"));
            let (connecting, _) = near.connect();
            let told = connecting.next(cross(&reply)).err().expect("refused");
            assert_eq!(
                told.message,
                "the listener refused the connection: ORA-12514: no service"
            );
            assert!(!told.retryable);
        }
        _ => panic!("a bad connect was not refused"),
    }
}

#[test]
fn a_statement_nothing_answers_is_done_with_no_rows() {
    let near = OracleTransport::loopback(secs(2));
    let far = Session::accept("peer:1", None, 1, 1);
    let (client, session) = log_in(&near, "XMIP", far).expect("any login is taken");
    let (event, answered) = run(&client, &session, "DROP TABLE inbox", None, |_| None);
    assert_eq!(event, Event::Executed("DROP TABLE inbox".into()));
    assert_eq!(answered.expect("done"), QueryResult::default());
    assert!(event.inserted().is_none());
    let (event, answered) = run(&client, &session, "DELETE FROM inbox", None, |_| None);
    assert_eq!(event, Event::Executed("DELETE FROM inbox".into()));
    assert_eq!(answered.expect("done").affected_rows, 0);
    let (event, answered) = run(&client, &session, "DROP TABLE inbox", None, |_| {
        Some(Answer::Error { code: session::INVALID_STATEMENT, message: "not here".into() })
    });
    assert_eq!(event, Event::Executed("DROP TABLE inbox".into()));
    let error = answered.expect_err("not served");
    assert_eq!(error.message, "the server answered ORA-00900: not here");
    let insert = "INSERT INTO inbox (payload) VALUES (:1)";
    let (event, answered) =
        run(&client, &session, insert, Some(b"x"), |_| Some(Answer::Complete(2)));
    assert_eq!(event, Event::Executed(insert.into()), "the table did not take it");
    assert_eq!(answered.expect("answered").affected_rows, 2);
    let (event, answered) = run(&client, &session, "  insert into t values (1)", None, |_| None);
    assert_eq!(answered.expect("inserted").affected_rows, 1);
    let arrived = event.inserted().expect("a Stream");
    assert_eq!(arrived.origin_uri, "oracle://peer:1/t");
    assert!(arrived.bytes.is_empty(), "nothing was bound");
    let (event, answered) = run(&client, &session, "select 1", None, |_| None);
    assert_eq!(event, Event::Selected("select 1".into()));
    assert_eq!(answered.expect("no table"), QueryResult::default());
    let (event, answered) = run(&client, &session, "", None, |_| None);
    assert_eq!(event, Event::Executed(String::new()));
    assert_eq!(answered.expect("done"), QueryResult::default());
    let error = take_one(None).expect_err("nothing");
    assert_eq!(error.message, "the client logged off without inserting");
}

#[test]
fn a_login_is_judged_whatever_the_service_is_called() {
    let near = OracleTransport::new("db:1521", "a b)c", "xmip").with_password("secret");
    let far = near.accept_one("peer:1", 1, 1);
    let (_, session) = log_in(&near, "a b)c", far).expect("the login demanded");
    assert_eq!(session.service(), "a");
    let impostor = OracleTransport::new("db:1521", "a b)c", "xmip").with_password("wrong");
    let (seen, told) =
        log_in(&impostor, "a b)c", near.accept_one("peer:1", 1, 2)).err().expect("denied");
    assert!(seen.message.contains("ORA-01017"));
    assert!(told.message.contains("ORA-01017"));
}

#[test]
fn a_session_tells_what_it_waits_for() {
    let far = || Session::accept("peer:1", None, 1, 1);
    match far().next(None) {
        Accept::Refused(None, error) => {
            assert_eq!(error.message, "the peer closed the connection");
        }
        _ => panic!("a closed connection was taken"),
    }
    let accepting = match far().next(Some(tns::connect("plain"))) {
        Accept::Sent(accepting, reply) => {
            assert_eq!(reply, tns::accept());
            accepting
        }
        _ => panic!("a connect was not accepted"),
    };
    let types = Message::bare(tag::DATA_TYPES).to_packet();
    match accepting.next(Some(types)) {
        Accept::Refused(None, error) => {
            assert_eq!(error.message, "a message with tag 0x02 where 0x01 was due");
            assert!(!error.retryable);
        }
        _ => panic!("a step was skipped"),
    }
}

#[test]
fn a_user_other_than_the_one_the_key_was_for_is_denied() {
    let steps = [
        tns::connect("(SERVICE_NAME=S)"),
        {
            let mut body = Vec::new();
            body.string("me");
            Message { tag: tag::PROTOCOL, body }.to_packet()
        },
        Message::bare(tag::DATA_TYPES).to_packet(),
        {
            let mut body = Vec::new();
            body.string("one");
            Message { tag: tag::SESSION_KEY_REQUEST, body }.to_packet()
        },
    ];
    let mut far = Session::accept("peer:1", None, 1, 1);
    for step in steps {
        far = match far.next(Some(step)) {
            Accept::Sent(next, _) => next,
            _ => panic!("a step was refused"),
        };
    }
    let mut body = Vec::new();
    body.string("other").counted(&[]);
    let auth = Message { tag: tag::AUTHENTICATE, body }.to_packet();
    match far.next(Some(auth)) {
        Accept::Refused(Some(reply), error) => {
            assert_eq!(
                error.message,
                "ORA-01017: invalid username/password for 'other'; logon denied"
            );
            let expected = "invalid username/password for 'other'; logon denied";
            assert_eq!(reply, session::send_error(1017, expected));
        }
        _ => panic!("another user was let in"),
    }
}

#[test]
fn a_message_without_a_place_is_an_error_on_either_side() {
    let near = OracleTransport::loopback(secs(2));
    let far = near.accept_one("peer:1", 1, 1);
    let (client, session) = log_in(&near, "XMIP", far).expect("login");
    let stray = Message::bare(tag::ROW).to_packet();
    let error = session.next_event(Some(stray), |_| None).expect_err("a row");
    assert_eq!(error.message, "a message with tag 0x09 after the login");
    let short = Message::bare(tag::EXECUTE).to_packet();
    assert!(session.next_event(Some(short), |_| None).is_err(), "no statement");
    let (query, _) = client.query("SELECT 1", None);
    let stray = Message::bare(tag::LOGOFF).to_packet();
    let error = query.next(Some(stray)).err().expect("a logoff");
    assert_eq!(error.message, "a message with tag 0x0c");
    let (query, _) = client.query("SELECT 1", None);
    let error = query.next(None).err().expect("closed");
    assert_eq!(error.message, "the peer closed before its message");
    let (query, _) = client.query("SELECT 1", None);
    let empty = Message::bare(tag::ERROR).to_packet();
    let error = query.next(Some(empty)).err().expect("malformed");
    assert_eq!(error.message, "a malformed error message");
    let mut body = Vec::new();
    body.counted(&60u32.to_be_bytes());
    let packet = Message { tag: tag::ERROR, body }.to_packet();
    let (query, _) = client.query("SELECT 1", None);
    let error = query.next(Some(packet)).err().expect("an error");
    assert_eq!(error.message, "the server answered ORA-00060: ");
    assert!(error.retryable, "a deadlock");
}

#[test]
fn a_client_takes_no_step_out_of_turn() {
    let login = Login::new("xmip", "");
    let (connecting, opening) = Client::connect("anything", &login);
    assert_eq!(opening, tns::connect("anything"));
    let error = connecting.next(None).err().expect("closed");
    assert_eq!(error.message, "the peer closed the connection");
    let (connecting, _) = Client::connect("anything", &login);
    let connecting = match connecting.next(Some(tns::accept())) {
        Ok(Connect::Sent(connecting, packet)) => {
            let mut body = Vec::new();
            body.string("xmip-thin");
            assert_eq!(packet, Message { tag: tag::PROTOCOL, body }.to_packet());
            connecting
        }
        _ => panic!("an accept was not taken"),
    };
    let refusal = session::send_error(12_528, "all instances are blocking");
    let error = connecting.next(Some(refusal)).err().expect("an error");
    assert_eq!(error.message, "the server answered ORA-12528: all instances are blocking");
    assert!(error.retryable);
}

#[test]
fn a_session_key_is_sixteen_bytes() {
    let login = Login::new("xmip", "");
    let (mut connecting, _) = Client::connect("anything", &login);
    let mut banner = Vec::new();
    banner.string("server");
    let steps = [
        tns::accept(),
        Message { tag: tag::PROTOCOL, body: banner }.to_packet(),
        Message::bare(tag::DATA_TYPES).to_packet(),
    ];
    for step in steps {
        connecting = match connecting.next(Some(step)) {
            Ok(Connect::Sent(connecting, _)) => connecting,
            _ => panic!("a step was refused"),
        };
    }
    let mut body = Vec::new();
    body.counted(&[1; 15]);
    let key = Message { tag: tag::SESSION_KEY, body }.to_packet();
    let error = connecting.next(Some(key)).err().expect("fifteen bytes");
    assert_eq!(error.message, "the session key was not sixteen bytes");
}

#[test]
fn a_transport_is_what_it_was_told() {
    let copied = OracleTransport::new("db:1521", "ORDERS", "xmip").clone();
    assert_eq!(copied.service(), "ORDERS");
    let transport = OracleTransport::new("db:1521", "ORDERS", "xmip");
    assert_eq!(transport.server(), "db:1521");
    assert_eq!(transport.query(), DEFAULT_QUERY);
    assert_eq!(transport.query(), "SELECT id, payload FROM inbox ORDER BY id");
    assert_eq!(transport.timeout(), None);
    let transport = transport.timing_out_after(secs(3)).with_query("SELECT 1 FROM dual");
    assert_eq!(transport.timeout(), Some(secs(3)));
    assert_eq!(transport.query(), "SELECT 1 FROM dual");
    let pair = OracleTransport::loopback(secs(1));
    assert_eq!(pair.server(), "127.0.0.1:0");
    assert_eq!(pair.service(), "XMIP");
    assert_eq!(pair.timeout(), Some(secs(1)));
}

#[test]
fn a_row_without_columns_is_an_empty_stream_named_by_its_place() {
    let transport = OracleTransport::new("db:1521", "S", "u");
    let result = QueryResult {
        columns: vec![],
        rows: vec![vec![], vec![Some(b"only".to_vec())], vec![Some(vec![0xff]), None]],
        affected_rows: 0,
    };
    let arrived = transport.receive(result);
    assert_eq!(arrived[0].origin_uri, "oracle://db:1521/S?row=0");
    assert!(arrived[0].bytes.is_empty());
    assert_eq!(arrived[1].origin_uri, "oracle://db:1521/S?row=only");
    assert_eq!(arrived[1].bytes, b"only");
    assert_eq!(arrived[2].origin_uri, "oracle://db:1521/S?row=\u{fffd}");
    assert!(arrived[2].bytes.is_empty());
}

#[test]
fn a_target_names_some_suffix_of_where_it_goes() {
    let transport = OracleTransport::new("db:1521", "ORDERS", "xmip");
    let place = |target: &str| {
        let (server, service, table, column) = transport.resolve(target).expect("a place");
        format!("{server} {service} {table} {column}")
    };
    assert_eq!(place("oracle://host:1/S/t/c"), "host:1 S t c");
    assert_eq!(place("oracle://host/t/c"), "host ORDERS t c");
    assert_eq!(place("host:1/S/t/c"), "host:1 S t c");
    assert_eq!(place("host:1/t/c"), "host:1 ORDERS t c");
    assert_eq!(place("t/c"), "db:1521 ORDERS t c");
    assert_eq!(place("S/t/c"), "db:1521 S t c");
    assert_eq!(place("//t//c/"), "db:1521 ORDERS t c", "empty segments are no segments");
    for bad in ["", "t", "a/b/c/d", "oracle://host", "host:1/t", "oracle://host/only-one"] {
        assert!(transport.resolve(bad).is_err(), "{bad}");
    }
    let error = transport.resolve("a\"b").err().expect("one segment");
    assert_eq!(
        error.message,
        "\"a\\\"b\" is not service/table/column or table/column"
    );
    assert!(!error.retryable);
    let delivery = transport.send("S/t/c").expect("a place");
    assert_eq!(delivery.sql, "INSERT INTO t (c) VALUES (:1)");
}
