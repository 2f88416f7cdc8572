use transport_oracle::session::{fresh_challenge, service_name, table_of};
use transport_oracle::connect_string;

#[test]
fn a_challenge_is_sixteen_bytes_and_fresh_and_a_table_is_read_for_the_origin() {
    let peer = "127.0.0.1:1521";
    let first = fresh_challenge(1_700_000_000_000_000_000, peer, 1);
    assert_eq!(first.len(), 16);
    assert_ne!(first, fresh_challenge(1_700_000_000_000_000_000, peer, 2));
    assert_eq!(table_of("INSERT INTO inbox (payload) VALUES (:1)"), "inbox");
    assert_eq!(table_of("INSERT INTO inbox(payload) VALUES (:1)"), "inbox");
    assert_eq!(table_of("nonsense"), "?");
}

#[test]
fn a_challenge_is_the_clock_the_peer_and_a_number_folded() {
    assert_eq!(
        fresh_challenge(123_456_789, "127.0.0.1:1521", 7),
        [37, 37, 47, 69, 55, 67, 65, 67, 89, 87, 98, 100, 0, 0, 0, 7]
    );
    assert_eq!(fresh_challenge(0, "", 0x0102_0304)[12..], [1, 2, 3, 4]);
    for number in [9, 99, 999, 4_294_967_294] {
        assert_ne!(fresh_challenge(5, "peer", number), fresh_challenge(5, "peer", number + 1));
    }
}

#[test]
fn no_two_sessions_share_a_challenge() {
    let peer = "127.0.0.1:152";
    assert_ne!(fresh_challenge(1, peer, 3), fresh_challenge(2, peer, 1));
    assert_ne!(
        fresh_challenge(7, "127.0.0.1:12345", 5),
        fresh_challenge(7, "227.0.0.1:12345", 3)
    );
    assert_ne!(
        fresh_challenge(1_000_000_000_000_000_200, "127.0.0.1:1521", 7),
        fresh_challenge(2_000_000_000_000_000_000, "127.0.0.1:1521", 8)
    );
}

#[test]
fn a_table_is_the_word_behind_into() {
    assert_eq!(table_of("insert\tinto\n\u{2003}t values (1)"), "t");
    assert_eq!(table_of("INSERT INTO"), "?");
    assert_eq!(table_of("INSERT INTO (payload) VALUES (:1)"), "?");
    assert_eq!(table_of("into into t"), "into");
    assert_eq!(table_of(""), "?");
}

#[test]
fn a_service_is_read_out_of_a_connect_string() {
    assert_eq!(
        connect_string("ORDERS"),
        "(DESCRIPTION=(CONNECT_DATA=(SERVICE_NAME=ORDERS)))"
    );
    assert_eq!(service_name(&connect_string("ORDERS")), "ORDERS");
    assert_eq!(service_name(&connect_string("")), "");
    assert_eq!(service_name("SERVICE_NAME=a b"), "a");
    assert_eq!(service_name("SERVICE_NAME=\u{e9}"), "\u{e9}");
    assert_eq!(service_name("plain"), "plain");
    assert_eq!(service_name("service_name=x"), "service_name=x");
}
