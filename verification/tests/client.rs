use transport_oracle::error::{broken_error, protocol_error, TransportError};
use transport_oracle::{oracle_error, Login, QueryResult};

#[test]
fn an_error_is_judged_by_its_code() {
    assert!(oracle_error(60, "deadlock detected").retryable);
    assert!(oracle_error(54, "resource busy").retryable);
    assert!(oracle_error(12_514, "no listener").retryable);
    assert!(!oracle_error(1, "unique constraint violated").retryable);
    assert!(!oracle_error(942, "table or view does not exist").retryable);
    assert!(oracle_error(1, "x").message.contains("ORA-00001"));
}

#[test]
fn a_code_is_five_digits_or_as_many_as_it_has() {
    assert_eq!(oracle_error(0, "x").message, "the server answered ORA-00000: x");
    assert_eq!(oracle_error(30_006, "busy").message, "the server answered ORA-30006: busy");
    assert_eq!(
        oracle_error(4_294_967_295, "").message,
        "the server answered ORA-4294967295: "
    );
    for code in [8176, 8177, 12_520, 12_528, 30_006] {
        assert!(oracle_error(code, "x").retryable, "{code}");
    }
    for code in [0, 53, 55, 600, 8178, 12_515] {
        assert!(!oracle_error(code, "x").retryable, "{code}");
    }
}

#[test]
fn errors_say_whether_to_try_again() {
    assert!(!protocol_error("p".into()).retryable);
    assert!(broken_error("reading").retryable);
    assert_eq!(broken_error("reading").message, "reading: the connection broke");
    assert!(TransportError::retryable("r".into()).retryable);
    assert!(!TransportError::permanent("p".into()).retryable);
}

#[test]
fn a_login_and_a_result_begin_as_told() {
    let login = Login::new("user", "secret");
    assert_eq!(login.user, "user");
    assert_eq!(login.password, "secret");
    assert_eq!(login.copy(), login);
    let result = QueryResult::default();
    assert!(result.columns.is_empty() && result.rows.is_empty());
    assert_eq!(result.affected_rows, 0);
}
