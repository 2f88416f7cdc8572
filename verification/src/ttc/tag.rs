//! The message tags the two-task layer carries. Their order is the session:
//! protocol, data types, the session key, authentication, then the function
//! calls.

use vstd::prelude::*;

verus! {

/// Client and server name their versions.
pub const PROTOCOL: u8 = 0x01;

/// The data-type negotiation, taken as agreed.
pub const DATA_TYPES: u8 = 0x02;

/// The client asks for a session key for `user` (O5LOGON `OSESSKEY`).
pub const SESSION_KEY_REQUEST: u8 = 0x03;

/// The server answers with the key (the auth challenge).
pub const SESSION_KEY: u8 = 0x04;

/// The client authenticates with the verifier (O5LOGON `OAUTH`).
pub const AUTHENTICATE: u8 = 0x05;

/// The server accepts the login.
pub const AUTH_ACCEPTED: u8 = 0x06;

/// The client executes a statement, with an optional bind.
pub const EXECUTE: u8 = 0x07;

/// The server describes the columns of a result.
pub const DESCRIBE: u8 = 0x08;

/// The server sends one row.
pub const ROW: u8 = 0x09;

/// The server says the statement is done, this many rows affected.
pub const STATUS: u8 = 0x0a;

/// The server answers an error (an `ORA-` code).
pub const ERROR: u8 = 0x0b;

/// The client logs off.
pub const LOGOFF: u8 = 0x0c;

} // verus!
