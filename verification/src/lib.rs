//! Streams that arrive as rows. One row is one Stream: the last column of a
//! configured query is what Xmip carries, the first column is where it came
//! from.
//!
//! A table in an Oracle database is an integration surface: a producer
//! inserts, an integrator polls. A Receive Location runs its query, `SELECT
//! id, payload FROM inbox ORDER BY id` unless told otherwise, and hands each
//! row up; a Send Location inserts the Stream as one bound RAW of one row,
//! `INSERT INTO <table> (<column>) VALUES (:1)`, so a byte is a byte both
//! ways. What is spoken is Oracle Net (TNS), the connect and its accept
//! ([`tns`]), with the two-task common layer inside it ([`ttc`]): a protocol
//! and data-type negotiation, the O5LOGON session key and authentication,
//! then a statement executed with a bind and its rows fetched. [`client`] is
//! Xmip's side; [`session`] is the listener on the far end. [`exchange`]
//! states what the two come to together.
//!
//! The origin URI carries what the row knew:
//! `oracle://server/service?row=41`. A send target is
//! `oracle://host:1521/<service>/<table>/<column>`,
//! `host:1521/<service>/<table>/<column>`, or `<table>/<column>` on the
//! configured server and service.
//!
//! Nothing here touches a socket or a clock: each side is a state that takes
//! the packet the other sent and says what to send next.

use std::time::Duration;

use vstd::prelude::*;
use vstd::string::*;

pub mod client;
pub mod cursor;
pub mod error;
pub mod exchange;
pub mod session;
pub mod sql;
pub mod text;
pub mod tns;
pub mod ttc;
pub mod wire;

pub use client::{oracle_error, Client, Login, QueryResult};
pub use session::{Answer, Event, Session};

use client::{Connecting, LoginView};
use error::{protocol_error, Fault, TransportError};
use session::Accepting;
use sql::{Arrived, ArrivedView};
use text::{decimal_text, fields_of, quoted_text, split_once_text, strip_text, text_of, Separator};
use tns::Packet;

verus! {

/// What a Receive Location runs unless told otherwise.
pub const DEFAULT_QUERY: &'static str = "SELECT id, payload FROM inbox ORDER BY id";

/// What the loopback pair agrees on: one service, one user whose login the
/// far end takes as it comes, one table and column the payload is bound
/// into.
pub const LOOPBACK_SERVICE: &'static str = "XMIP";

pub const LOOPBACK_USER: &'static str = "xmip";

pub const LOOPBACK_TARGET: &'static str = "inbox/payload";

/// Which ways a transport carries Streams.
#[derive(Clone, Copy, Debug, PartialEq, Eq, Structural)]
pub enum Directions {
    Receive,
    Send,
    Both,
}

/// How a transport claims an artefact before it hands it up.
#[derive(Clone, Copy, Debug, PartialEq, Eq, Structural)]
pub enum Claim {
    /// It has artefacts, and no claim of its own on them.
    NoNative,
}

/// A transport that speaks to one listener, for one service, as one login.
#[derive(Clone)]
pub struct OracleTransport {
    server: String,
    service: String,
    login: Login,
    query: String,
    timeout: Option<Duration>,
}

/// What an [`OracleTransport`] is configured with, as contracts speak of it.
pub struct TransportView {
    pub server: Seq<char>,
    pub service: Seq<char>,
    pub login: LoginView,
    pub query: Seq<char>,
    pub timeout: Option<Duration>,
}

impl View for OracleTransport {
    type V = TransportView;

    closed spec fn view(&self) -> TransportView {
        TransportView {
            server: self.server@,
            service: self.service@,
            login: self.login@,
            query: self.query@,
            timeout: self.timeout,
        }
    }
}

/// Where a send goes.
pub struct Place {
    pub server: Seq<char>,
    pub service: Seq<char>,
    pub table: Seq<char>,
    pub column: Seq<char>,
}

/// The server a target names, and the path behind it.
pub open spec fn address_in(target: Seq<char>) -> Option<(Seq<char>, Seq<char>)> {
    let schemed = if "oracle://"@.is_prefix_of(target) {
        text::split_once(target.skip("oracle://"@.len() as int), '/')
    } else {
        None
    };
    match schemed {
        Some(address) => Some(address),
        None => match text::split_once(target, '/') {
            Some((peer, path)) => if peer.contains(':') {
                Some((peer, path))
            } else {
                None
            },
            None => None,
        },
    }
}

/// Where `target` goes from a transport that is configured as `config`.
pub open spec fn resolved(config: TransportView, target: Seq<char>) -> Result<Place, Fault> {
    let (server, path) = match address_in(target) {
        Some(address) => address,
        None => (config.server, target),
    };
    let segments = text::fields(path, Separator::One('/'));
    if segments.len() == 3 {
        Ok(Place { server, service: segments[0], table: segments[1], column: segments[2] })
    } else if segments.len() == 2 {
        Ok(Place { server, service: config.service, table: segments[0], column: segments[1] })
    } else {
        Err(
            Fault::permanent(
                text::quoted(target) + " is not service/table/column or table/column"@,
            ),
        )
    }
}

/// The connect string a listener reads `service` out of.
pub open spec fn connect_text(service: Seq<char>) -> Seq<char> {
    "(DESCRIPTION=(CONNECT_DATA=(SERVICE_NAME="@ + service + ")))"@
}

/// The statement a send into `table` and `column` runs.
pub open spec fn insert_text(table: Seq<char>, column: Seq<char>) -> Seq<char> {
    "INSERT INTO "@ + table + " ("@ + column + ") VALUES (:1)"@
}

/// The name of the row at `index`: its first column, or its place where
/// that is NULL or there is none.
pub open spec fn row_name(row: Seq<Option<Seq<u8>>>, index: nat) -> Seq<char> {
    if row.len() > 0 && row[0] is Some {
        text::lossy_text(row[0]->0)
    } else {
        text::decimal(index)
    }
}

/// The Stream of a row: its last column, empty where that is NULL or there
/// is none.
pub open spec fn row_stream(row: Seq<Option<Seq<u8>>>) -> Seq<u8> {
    if row.len() > 0 && row.last() is Some {
        row.last()->0
    } else {
        Seq::empty()
    }
}

/// What arrived with the row at `index`.
pub open spec fn row_arrived(
    config: TransportView,
    row: Seq<Option<Seq<u8>>>,
    index: nat,
) -> ArrivedView {
    ArrivedView {
        origin_uri: "oracle://"@ + config.server + "/"@ + config.service + "?row="@ + row_name(
            row,
            index,
        ),
        bytes: row_stream(row),
    }
}

/// What arrived with `rows`, one Stream a row.
pub open spec fn rows_arrived(
    config: TransportView,
    rows: Seq<Seq<Option<Seq<u8>>>>,
) -> Seq<ArrivedView> {
    Seq::new(rows.len(), |i: int| row_arrived(config, rows[i], i as nat))
}

/// Streams that arrived, as contracts speak of them.
pub open spec fn streams_view(streams: Seq<Arrived>) -> Seq<ArrivedView> {
    Seq::new(streams.len(), |i: int| streams[i]@)
}

/// A send, resolved: who to connect to, for which service, and the
/// statement to bind the Stream into.
pub struct Delivery {
    pub server: String,
    pub service: String,
    pub sql: String,
}

/// The connect string a listener reads `service` out of.
#[must_use]
pub fn connect_string(service: &str) -> (text: String)
    ensures
        text@ == connect_text(service@),
        text@ == "(DESCRIPTION=(CONNECT_DATA=(SERVICE_NAME="@ + service@ + ")))"@,
{
    let mut text = "(DESCRIPTION=(CONNECT_DATA=(SERVICE_NAME=".to_owned();
    text.append(service);
    text.append(")))");
    text
}

impl OracleTransport {
    /// Speak to the listener at `server`, for `service`, as `user` with no
    /// password until one is given.
    #[must_use]
    pub fn new(server: &str, service: &str, user: &str) -> (transport: Self)
        ensures
            transport@ == (TransportView {
                server: server@,
                service: service@,
                login: LoginView { user: user@, password: Seq::empty() },
                query: DEFAULT_QUERY@,
                timeout: None,
            }),
            transport@.query == "SELECT id, payload FROM inbox ORDER BY id"@,
    {
        proof {
            reveal_strlit("");
            assert(""@ =~= Seq::empty());
        }
        OracleTransport {
            server: server.to_owned(),
            service: service.to_owned(),
            login: Login::new(user, ""),
            query: DEFAULT_QUERY.to_owned(),
            timeout: None,
        }
    }

    /// The password the login answers the session key with.
    #[must_use]
    pub fn with_password(self, password: &str) -> (transport: Self)
        ensures
            transport@ == (TransportView {
                login: LoginView { password: password@, ..self@.login },
                ..self@
            }),
    {
        let mut transport = self;
        transport.login.password = password.to_owned();
        transport
    }

    /// The query a receive runs: the first column is the row's name, the
    /// last is the Stream.
    #[must_use]
    pub fn with_query(self, query: &str) -> (transport: Self)
        ensures
            transport@ == (TransportView { query: query@, ..self@ }),
    {
        let mut transport = self;
        transport.query = query.to_owned();
        transport
    }

    /// Give up on a server that stops mid-packet.
    #[must_use]
    pub fn timing_out_after(self, timeout: Duration) -> (transport: Self)
        ensures
            transport@ == (TransportView { timeout: Some(timeout), ..self@ }),
    {
        let mut transport = self;
        transport.timeout = Some(timeout);
        transport
    }

    /// The same transport at another server.
    #[must_use]
    pub fn at(&self, server: &str) -> (transport: Self)
        ensures
            transport@ == (TransportView { server: server@, ..self@ }),
    {
        OracleTransport {
            server: server.to_owned(),
            service: self.service.clone(),
            login: self.login.copy(),
            query: self.query.clone(),
            timeout: self.timeout,
        }
    }

    /// Both ends on this machine: an ephemeral local port, a login with no
    /// password, the loopback timeout.
    #[must_use]
    pub fn loopback(timeout: Duration) -> (transport: Self)
        ensures
            transport@ == (TransportView {
                server: "127.0.0.1:0"@,
                service: LOOPBACK_SERVICE@,
                login: LoginView { user: LOOPBACK_USER@, password: Seq::empty() },
                query: DEFAULT_QUERY@,
                timeout: Some(timeout),
            }),
            transport@.service == "XMIP"@,
            transport@.login.user == "xmip"@,
            transport@.query == "SELECT id, payload FROM inbox ORDER BY id"@,
    {
        Self::new("127.0.0.1:0", LOOPBACK_SERVICE, LOOPBACK_USER).timing_out_after(timeout)
    }

    /// The server this transport speaks to.
    #[must_use]
    pub fn server(&self) -> (server: &str)
        ensures
            server@ == self@.server,
    {
        self.server.as_str()
    }

    /// The service this transport asks for.
    #[must_use]
    pub fn service(&self) -> (service: &str)
        ensures
            service@ == self@.service,
    {
        self.service.as_str()
    }

    /// The query a receive runs.
    #[must_use]
    pub fn query(&self) -> (query: &str)
        ensures
            query@ == self@.query,
    {
        self.query.as_str()
    }

    /// How long to wait for a server that stops mid-packet.
    #[must_use]
    pub fn timeout(&self) -> (timeout: Option<Duration>)
        ensures
            timeout == self@.timeout,
    {
        self.timeout
    }

    /// What this transport is called.
    #[must_use]
    pub fn name(&self) -> (name: &'static str)
        ensures
            name@ == "oracle"@,
    {
        "oracle"
    }

    /// Which ways it carries Streams.
    #[must_use]
    pub fn directions(&self) -> (directions: Directions)
        ensures
            directions == Directions::Both,
    {
        Directions::Both
    }

    /// Rows are artefacts, and one receive holds no transaction to claim one
    /// in.
    #[must_use]
    pub fn claims(&self) -> (claim: Option<Claim>)
        ensures
            claim == Some(Claim::NoNative),
    {
        Some(Claim::NoNative)
    }

    /// Connect and log in, for the configured service.
    #[must_use]
    pub fn connect(&self) -> (opened: (Connecting, Packet))
        ensures
            opened.0@ == client::opening(self@.login),
            opened.1@ == tns::connect_packet(connect_text(self@.service)),
    {
        self.connect_to(self.service.as_str())
    }

    /// Connect and log in, for `service`.
    #[must_use]
    pub fn connect_to(&self, service: &str) -> (opened: (Connecting, Packet))
        ensures
            opened.0@ == client::opening(self@.login),
            opened.1@ == tns::connect_packet(connect_text(service@)),
    {
        Client::connect(connect_string(service).as_str(), &self.login)
    }

    /// Accept one client, which `peer` names, demanding this transport's
    /// login. The clock at `nanos` and the number of the session make its
    /// challenge.
    #[must_use]
    pub fn accept_one(&self, peer: &str, nanos: u128, session: u32) -> (accepting: Accepting)
        ensures
            accepting@ == session::accepting(
                peer@,
                Some(self@.login),
                session::challenge_for(nanos as nat, peer@, session as nat),
            ),
    {
        Session::accept(peer, Some(&self.login), nanos, session)
    }

    /// Where a target names the server, service, table and column, or some
    /// suffix of them on what this transport is configured with.
    ///
    /// # Errors
    /// Where it names neither.
    pub fn resolve<'a>(&'a self, target: &'a str) -> (place: Result<
        (&'a str, &'a str, &'a str, &'a str),
        TransportError,
    >)
        ensures
            match place {
                Ok((server, service, table, column)) => resolved(self@, target@) == Ok::<_, Fault>(
                    Place {
                        server: server@,
                        service: service@,
                        table: table@,
                        column: column@,
                    },
                ),
                Err(error) => resolved(self@, target@) == Err::<Place, _>(error@),
            },
    {
        let (server, path): (&'a str, &'a str) = match address_of(target) {
            Some(address) => address,
            None => (self.server.as_str(), target),
        };
        let segments = fields_of(path, Separator::One('/'));
        let ghost all = text::views(segments@);
        assert(all.len() == segments@.len());
        if segments.len() == 3 {
            assert(all[0] == segments@[0]@ && all[1] == segments@[1]@ && all[2] == segments@[2]@);
            Ok((server, segments[0], segments[1], segments[2]))
        } else if segments.len() == 2 {
            assert(all[0] == segments@[0]@ && all[1] == segments@[1]@);
            Ok((server, self.service.as_str(), segments[0], segments[1]))
        } else {
            let mut message = quoted_text(target);
            message.append(" is not service/table/column or table/column");
            Err(TransportError::permanent(message))
        }
    }

    /// Insert a Stream as one bound RAW of one row: where `target` has it
    /// go, and the statement it is bound into.
    ///
    /// # Errors
    /// Where the target names no table and column.
    pub fn send(&self, target: &str) -> (sent: Result<Delivery, TransportError>)
        ensures
            match resolved(self@, target@) {
                Ok(place) => {
                    &&& sent matches Ok(delivery)
                    &&& delivery.server@ == place.server
                    &&& delivery.service@ == place.service
                    &&& delivery.sql@ == insert_text(place.table, place.column)
                    &&& delivery.sql@ == "INSERT INTO "@ + place.table + " ("@ + place.column
                        + ") VALUES (:1)"@
                },
                Err(fault) => sent matches Err(error) && error@ == fault,
            },
    {
        let (server, service, table, column) = match self.resolve(target) {
            Ok(place) => place,
            Err(error) => return Err(error),
        };
        let mut sql = "INSERT INTO ".to_owned();
        sql.append(table);
        sql.append(" (");
        sql.append(column);
        sql.append(") VALUES (:1)");
        Ok(Delivery { server: server.to_owned(), service: service.to_owned(), sql })
    }

    /// What the query came back with; each row is a Stream.
    #[must_use]
    pub fn receive(&self, result: QueryResult) -> (arrived: Vec<Arrived>)
        ensures
            streams_view(arrived@) == rows_arrived(self@, result@.rows),
            arrived@.len() == result.rows@.len(),
            forall|i: int|
                0 <= i < arrived@.len() ==> (#[trigger] arrived@[i]).bytes@ == if (
                result.rows@[i]@.len() > 0 && result.rows@[i]@.last() is Some) {
                    result.rows@[i]@.last()->0@
                } else {
                    Seq::empty()
                },
            forall|i: int|
                0 <= i < arrived@.len() ==> (#[trigger] arrived@[i]).origin_uri@ == "oracle://"@
                    + self@.server + "/"@ + self@.service + "?row="@ + if result.rows@[i]@.len() > 0
                    && result.rows@[i]@[0] is Some {
                    text::lossy_text(result.rows@[i]@[0]->0@)
                } else {
                    text::decimal(i as nat)
                },
    {
        let rows = result.rows;
        let ghost all = rows_arrived(self@, sql::rows_view(rows@));
        let mut arrived: Vec<Arrived> = Vec::new();
        let mut index: usize = 0;
        assert(streams_view(arrived@) =~= all.take(0));
        while index < rows.len()
            invariant
                index <= rows@.len(),
                all == rows_arrived(self@, sql::rows_view(rows@)),
                streams_view(arrived@) == all.take(index as int),
            decreases rows@.len() - index,
        {
            let ghost earlier = streams_view(arrived@);
            let stream = self.row(&rows[index], index);
            arrived.push(stream);
            assert(streams_view(arrived@) =~= earlier.push(stream@));
            index = index + 1;
            assert(streams_view(arrived@) =~= all.take(index as int));
        }
        assert(all.take(index as int) =~= all);
        proof {
            let came = streams_view(arrived@);
            assert(came.len() == arrived@.len());
            assert forall|i: int| 0 <= i < arrived@.len() implies (#[trigger] arrived@[i])@
                == row_arrived(self@, sql::row_view(rows@[i]@), i as nat) by {
                assert(came[i] == arrived@[i]@);
                assert(sql::rows_view(rows@)[i] == sql::row_view(rows@[i]@));
            }
            assert forall|i: int| 0 <= i < arrived@.len() implies (#[trigger] arrived@[i]).bytes@
                == if rows@[i]@.len() > 0 && rows@[i]@.last() is Some {
                rows@[i]@.last()->0@
            } else {
                Seq::empty()
            } by {
                let values = sql::row_view(rows@[i]@);
                if values.len() > 0 {
                    assert(values.last() == ttc::value_view(rows@[i]@.last()));
                }
            }
            assert forall|i: int| 0 <= i < arrived@.len() implies (
            #[trigger] arrived@[i]).origin_uri@ == "oracle://"@ + self@.server + "/"@
                + self@.service + "?row="@ + if rows@[i]@.len() > 0 && rows@[i]@[0] is Some {
                text::lossy_text(rows@[i]@[0]->0@)
            } else {
                text::decimal(i as nat)
            } by {
                let values = sql::row_view(rows@[i]@);
                if values.len() > 0 {
                    assert(values[0] == ttc::value_view(rows@[i]@[0]));
                }
            }
        }
        arrived
    }

    fn row(&self, row: &Vec<Option<Vec<u8>>>, index: usize) -> (stream: Arrived)
        ensures
            stream@ == row_arrived(self@, sql::row_view(row@), index as nat),
    {
        let ghost values = sql::row_view(row@);
        let name = if row.len() == 0 {
            decimal_text(index as u128)
        } else {
            assert(values[0] == ttc::value_view(row@[0]));
            match &row[0] {
                Some(bytes) => text_of(bytes.as_slice()),
                None => decimal_text(index as u128),
            }
        };
        let bytes: Vec<u8> = if row.len() == 0 {
            Vec::new()
        } else {
            assert(values.last() == ttc::value_view(row@.last()));
            match sql::copy_value(&row[row.len() - 1]) {
                Some(bytes) => bytes,
                None => Vec::new(),
            }
        };
        let mut origin_uri = "oracle://".to_owned();
        origin_uri.append(self.server.as_str());
        origin_uri.append("/");
        origin_uri.append(self.service.as_str());
        origin_uri.append("?row=");
        origin_uri.append(name.as_str());
        Arrived { origin_uri, bytes }
    }
}

/// The fault of a client that the far end of the loopback pair took nothing
/// from.
pub open spec fn nothing_inserted() -> Fault {
    Fault::protocol("the client logged off without inserting"@)
}

/// The Stream that the far end of the loopback pair took, which must be
/// there.
///
/// # Errors
/// Where the client logged off first.
pub fn take_one(arrived: Option<Arrived>) -> (taken: Result<Arrived, TransportError>)
    ensures
        match arrived {
            Some(stream) => taken == Ok::<_, TransportError>(stream),
            None => {
                &&& taken matches Err(error)
                &&& error@ == nothing_inserted()
                &&& error.message@ == "the client logged off without inserting"@
                &&& !error.retryable
            },
        },
{
    match arrived {
        Some(arrived) => Ok(arrived),
        None => Err(protocol_error("the client logged off without inserting".to_owned())),
    }
}

/// The server a target names, and the path behind it.
fn address_of<'a>(target: &'a str) -> (address: Option<(&'a str, &'a str)>)
    ensures
        match address {
            Some((server, path)) => address_in(target@) == Some((server@, path@)),
            None => address_in(target@) is None,
        },
{
    if let Some(rest) = strip_text(target, "oracle://") {
        if let Some((server, path)) = split_once_text(rest, '/') {
            return Some((server, path));
        }
    }
    match split_once_text(target, '/') {
        Some((peer, path)) => if text::has_char(peer, ':') {
            Some((peer, path))
        } else {
            None
        },
        None => None,
    }
}

// What goes where, by the characters of a target and the columns of a row.

/// A row is handed up as its last column, every byte of it, and nothing where
/// that is NULL or there is none. It is named by all of its first column, or
/// by its place where that is NULL or there is none.
pub proof fn law_row_is_its_last_column(
    config: TransportView,
    rows: Seq<Seq<Option<Seq<u8>>>>,
    i: int,
)
    requires
        0 <= i < rows.len(),
    ensures
        rows_arrived(config, rows).len() == rows.len(),
        rows[i].len() > 0 && rows[i].last() is Some ==> rows_arrived(config, rows)[i].bytes
            == rows[i].last()->0,
        rows[i].len() == 0 || rows[i].last() is None ==> rows_arrived(config, rows)[i].bytes.len()
            == 0,
        rows[i].len() > 0 && rows[i][0] is Some ==> rows_arrived(config, rows)[i].origin_uri
            == "oracle://"@ + config.server + "/"@ + config.service + "?row="@ + text::lossy_text(
            rows[i][0]->0,
        ),
        rows[i].len() == 0 || rows[i][0] is None ==> rows_arrived(config, rows)[i].origin_uri
            == "oracle://"@ + config.server + "/"@ + config.service + "?row="@ + text::decimal(
            i as nat,
        ),
{
}

/// Two rows that end alike are handed up alike, and two that end otherwise
/// are not.
pub proof fn law_streams_differ_as_columns_do(
    config: TransportView,
    rows: Seq<Seq<Option<Seq<u8>>>>,
    i: int,
    j: int,
)
    requires
        0 <= i < rows.len(),
        0 <= j < rows.len(),
        rows[i].len() > 0,
        rows[j].len() > 0,
        rows[i].last() is Some,
        rows[j].last() is Some,
    ensures
        rows_arrived(config, rows)[i].bytes == rows_arrived(config, rows)[j].bytes
            <==> rows[i].last()->0 == rows[j].last()->0,
{
}

/// Streams are seen as they are, in order.
pub proof fn law_streams_are_seen(streams: Seq<Arrived>)
    ensures
        streams_view(streams).len() == streams.len(),
        forall|i: int|
            0 <= i < streams.len() ==> (#[trigger] streams_view(streams)[i]).bytes
                == streams[i].bytes@ && streams_view(streams)[i].origin_uri
                == streams[i].origin_uri@,
{
}

/// The statement of a send names its table and its column, each in its place
/// and whole: what stands between the first bracket and the bracket before
/// ` VALUES (:1)` is the column. No two columns and no two tables share a
/// statement.
pub proof fn law_insert_names_table_and_column(
    table: Seq<char>,
    column: Seq<char>,
    other: Seq<char>,
)
    ensures
        insert_text(table, column) == "INSERT INTO "@ + table + " ("@ + column + ") VALUES (:1)"@,
        insert_text(table, column) == insert_text(table, other) ==> column == other,
        insert_text(table, column) == insert_text(other, column) ==> table == other,
        !table.contains('(') ==> text::split_once(insert_text(table, column), '(') == Some(
            ("INSERT INTO "@ + table + " "@, column + ") VALUES (:1)"@),
        ),
{
    reveal_strlit("INSERT INTO ");
    reveal_strlit(" (");
    reveal_strlit(" ");
    let sql = insert_text(table, column);
    let front = "INSERT INTO "@ + table + " "@;
    let back = column + ") VALUES (:1)"@;
    assert(sql =~= front + seq!['('] + back);
    if insert_text(table, column) == insert_text(table, other) {
        let twin = insert_text(table, other);
        assert(sql.len() == twin.len());
        let from = ("INSERT INTO "@ + table + " ("@).len() as int;
        assert(sql.subrange(from, from + column.len()) =~= column);
        assert(twin.subrange(from, from + column.len()) =~= other);
    }
    if insert_text(table, column) == insert_text(other, column) {
        let twin = insert_text(other, column);
        assert(sql.len() == twin.len());
        assert(sql.subrange(12, (12 + table.len()) as int) =~= table);
        assert(twin.subrange(12, (12 + table.len()) as int) =~= other);
    }
    if !table.contains('(') {
        let bracket = Separator::One('(');
        assert forall|i: int| 0 <= i < front.len() implies !bracket.parts(#[trigger] sql[i]) by {
            assert(sql[i] == front[i]);
            if 12 <= i < 12 + table.len() {
                assert(front[i] == table[i - 12]);
                assert(table.contains(table[i - 12]));
            }
        }
        assert(bracket.parts(sql[front.len() as int]));
        text::lemma_run_is(sql, bracket, front.len());
        assert(sql.take(front.len() as int) =~= front);
        assert(sql.skip((front.len() + 1) as int) =~= back);
    }
}

/// The connect string names the service and nothing is left out of it.
pub proof fn law_connect_string_names_service(service: Seq<char>, other: Seq<char>)
    ensures
        connect_text(service) == "(DESCRIPTION=(CONNECT_DATA=(SERVICE_NAME="@ + service + ")))"@,
        connect_text(service) == connect_text(other) ==> service == other,
{
    if connect_text(service) == connect_text(other) {
        let from = "(DESCRIPTION=(CONNECT_DATA=(SERVICE_NAME="@.len() as int;
        assert(connect_text(service).len() == connect_text(other).len());
        assert(connect_text(service).subrange(from, from + service.len()) =~= service);
        assert(connect_text(other).subrange(from, from + service.len()) =~= other);
    }
}

/// Who a target addresses. Behind `oracle://` it is all up to the next slash;
/// without that, it is all up to the first slash where a colon stands in it;
/// otherwise nobody. The path is all behind that slash.
pub proof fn law_target_names_its_server(server: Seq<char>, path: Seq<char>)
    requires
        !server.contains('/'),
    ensures
        address_in("oracle://"@ + server + "/"@ + path) == Some((server, path)),
        server.contains(':') && !("oracle://"@.is_prefix_of(server + "/"@ + path)
            && path.contains('/')) ==> address_in(server + "/"@ + path) == Some((server, path)),
        !server.contains(':') ==> address_in(server + "/"@ + path) is None,
        address_in(server) is None,
{
    reveal_strlit("/");
    reveal_strlit("oracle://");
    let scheme = "oracle://"@;
    let whole = scheme + server + "/"@ + path;
    assert(scheme =~= whole.subrange(0, 9));
    assert(whole.skip(9) =~= server + "/"@ + path);
    let plain = server + "/"@ + path;
    exchange::lemma_split(server, path);
    text::law_split_once(server, '/');
    if let Some((front, back)) = text::split_once(server, '/') {
        assert((front + seq!['/'] + back)[front.len() as int] == '/');
        assert(server.contains('/'));
    }
    if scheme.is_prefix_of(server) {
        assert(server.subrange(0, 9)[7] == '/');
        assert(server[7] == '/');
        assert(server.contains('/'));
    }
    if scheme.is_prefix_of(plain) {
        // The slash that ends the server is the first of the two.
        assert(plain.subrange(0, 9) =~= scheme);
        assert forall|i: int| 0 <= i < 9 implies plain[i] == #[trigger] scheme[i] by {
            assert(plain.subrange(0, 9)[i] == scheme[i]);
        }
        if server.len() < 7 {
            assert(plain[server.len() as int] == '/');
            assert(scheme[server.len() as int] != '/');
        } else if server.len() > 7 {
            assert(server[7] == plain[7]);
            assert(scheme[7] == '/');
            assert(server.contains(server[7]));
        }
        assert(server.len() == 7);
        assert(server[6] == plain[6]);
        assert(scheme[6] == ':');
        assert(server.contains(server[6]));
        let behind = plain.skip(9);
        text::law_split_once(behind, '/');
        if let Some((front, back)) = text::split_once(behind, '/') {
            assert((front + seq!['/'] + back)[front.len() as int] == '/');
            assert(behind[front.len() as int] == '/');
            assert(path[(front.len() + 1) as int] == plain[(front.len() + 9) as int]);
            assert(path.contains('/'));
        }
    }
}

/// Where a target goes is read off the segments of its path, what slashes
/// leave between them: three are a service, a table and a column, two are a
/// table and a column of the configured service, and any other number is
/// refused, which is not worth another attempt. A target that addresses
/// nobody is all path, on the configured server.
pub proof fn law_segments_say_where(config: TransportView, target: Seq<char>)
    ensures
        ({
            let server = match address_in(target) {
                Some((server, _)) => server,
                None => config.server,
            };
            let path = match address_in(target) {
                Some((_, path)) => path,
                None => target,
            };
            let segments = text::fields(path, Separator::One('/'));
            match resolved(config, target) {
                Ok(place) => {
                    &&& place.server == server
                    &&& segments.len() == 3 ==> segments == seq![
                        place.service,
                        place.table,
                        place.column,
                    ]
                    &&& segments.len() != 3 ==> segments == seq![place.table, place.column]
                        && place.service == config.service
                },
                Err(fault) => {
                    &&& segments.len() != 2
                    &&& segments.len() != 3
                    &&& !fault.retryable
                    &&& fault.message == text::quoted(target)
                        + " is not service/table/column or table/column"@
                },
            }
        }),
{
    let path = match address_in(target) {
        Some((_, path)) => path,
        None => target,
    };
    let segments = text::fields(path, Separator::One('/'));
    if segments.len() == 3 {
        assert(segments =~= seq![segments[0], segments[1], segments[2]]);
    } else if segments.len() == 2 {
        assert(segments =~= seq![segments[0], segments[1]]);
    }
}

} // verus!
