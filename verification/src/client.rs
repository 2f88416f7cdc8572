//! Xmip's side of one connection to an Oracle listener: the TNS connect and
//! its accept, the protocol and data-type negotiation, the O5LOGON session
//! key and authentication, then a statement executed with a bind and its
//! rows fetched. The text of a query is what a Receive Location configured;
//! a Send Location runs one `INSERT ... VALUES (:1)` with the Stream bound
//! as one RAW.
//!
//! Nothing here touches a socket. Each step takes the packet the server sent,
//! none where it closed, and says what to send next, or what the exchange
//! came to.

use vstd::prelude::*;
use vstd::string::*;
use vstd::utf8::*;

use crate::cursor;
use crate::error::{protocol_error, Fault, TransportError};
use crate::sql;
use crate::text;
use crate::text::{hex_byte_text, padded_decimal_text, text_of};
use crate::tns;
use crate::tns::{Packet, PacketView};
use crate::ttc;
use crate::ttc::{logon_verifier, packet_of, tag, Message, MessageView, Ttc, TtcWrite};

verus! {

/// What a login presents.
#[derive(Clone, Debug, PartialEq, Eq)]
pub struct Login {
    pub user: String,
    pub password: String,
}

/// What a [`Login`] presents, as contracts speak of it.
pub struct LoginView {
    pub user: Seq<char>,
    pub password: Seq<char>,
}

impl View for Login {
    type V = LoginView;

    open spec fn view(&self) -> LoginView {
        LoginView { user: self.user@, password: self.password@ }
    }
}

impl Login {
    /// A login for `user` with `password`.
    #[must_use]
    pub fn new(user: &str, password: &str) -> (login: Self)
        ensures
            login@ == (LoginView { user: user@, password: password@ }),
    {
        Login { user: user.to_owned(), password: password.to_owned() }
    }

    /// The same login again.
    pub fn copy(&self) -> (login: Self)
        ensures
            login@ == self@,
    {
        Login { user: self.user.clone(), password: self.password.clone() }
    }
}

/// What a statement came back with.
#[derive(Clone, Debug, PartialEq, Eq)]
pub struct QueryResult {
    pub columns: Vec<String>,
    /// Each row, each column its bytes or NULL.
    pub rows: Vec<Vec<Option<Vec<u8>>>>,
    /// What a statement without rows reported.
    pub affected_rows: u64,
}

/// What a [`QueryResult`] holds, as contracts speak of it.
pub struct QueryResultView {
    pub columns: Seq<Seq<char>>,
    pub rows: Seq<Seq<Option<Seq<u8>>>>,
    pub affected_rows: nat,
}

impl QueryResultView {
    /// Nothing yet.
    pub open spec fn empty() -> QueryResultView {
        QueryResultView { columns: Seq::empty(), rows: Seq::empty(), affected_rows: 0 }
    }
}

impl View for QueryResult {
    type V = QueryResultView;

    open spec fn view(&self) -> QueryResultView {
        QueryResultView {
            columns: sql::texts_view(self.columns@),
            rows: sql::rows_view(self.rows@),
            affected_rows: self.affected_rows as nat,
        }
    }
}

impl Default for QueryResult {
    fn default() -> (result: Self)
        ensures
            result@ == QueryResultView::empty(),
    {
        let result = QueryResult { columns: Vec::new(), rows: Vec::new(), affected_rows: 0 };
        assert(result@.columns =~= Seq::empty());
        assert(result@.rows =~= Seq::empty());
        result
    }
}

/// The banner this client names itself with in the protocol handshake.
pub const BANNER: &'static str = "xmip-thin";

// Errors.

/// Whether an `ORA-` code is a resource shortage, a lock, a serialisation
/// failure or a listener not yet up: what a later attempt might not meet.
pub open spec fn transient(code: nat) -> bool {
    code == 54 || code == 60 || code == 8176 || code == 8177 || code == 12514 || code == 12520
        || code == 12528 || code == 30006
}

/// What an `ORA-` error is.
pub open spec fn oracle_fault(code: nat, message: Seq<char>) -> Fault {
    Fault {
        message: "the server answered ORA-"@ + text::padded_decimal(code, 5) + ": "@ + message,
        retryable: transient(code),
    }
}

/// The error an error message carries.
pub open spec fn fault_in(message: MessageView) -> Fault {
    match ttc::integer_in(message.body) {
        Err(_) => Fault::protocol("a malformed error message"@),
        Ok((code, left)) => match ttc::string_in(left) {
            Ok((text, _)) => oracle_fault(code, text),
            Err(_) => oracle_fault(code, Seq::empty()),
        },
    }
}

/// The fault of a message that has no place where it came.
pub open spec fn unexpected_fault(message: MessageView) -> Fault {
    Fault::protocol("a message with tag "@ + text::hex_byte(message.tag))
}

/// An `ORA-` error, retryable where it is a resource shortage, a lock, a
/// serialisation failure or a listener not yet up: what a later attempt
/// might not meet.
#[must_use]
pub fn oracle_error(code: u32, message: &str) -> (error: TransportError)
    ensures
        error@ == oracle_fault(code as nat, message@),
        error.message@ == "the server answered ORA-"@ + text::padded_decimal(code as nat, 5)
            + ": "@ + message@,
        error.retryable <==> {
            ||| code == 54
            ||| code == 60
            ||| code == 8176
            ||| code == 8177
            ||| code == 12514
            ||| code == 12520
            ||| code == 12528
            ||| code == 30006
        },
{
    let mut text = "the server answered ORA-".to_owned();
    text.append(padded_decimal_text(code, 5).as_str());
    text.append(": ");
    text.append(message);
    if code == 54 || code == 60 || code == 8176 || code == 8177 || code == 12514 || code == 12520
        || code == 12528 || code == 30006 {
        TransportError::retryable(text)
    } else {
        TransportError::permanent(text)
    }
}

/// The error an error message carries.
pub fn error_of(message: &Message) -> (error: TransportError)
    ensures
        error@ == fault_in(message@),
{
    let mut reader = message.cursor();
    let code: u32 = match reader.integer() {
        Ok(code) => code,
        Err(_) => return protocol_error("a malformed error message".to_owned()),
    };
    let text = match reader.string() {
        Ok(text) => text,
        Err(_) => String::new(),
    };
    oracle_error(code, text.as_str())
}

/// The error a message that has no place where it came is.
pub fn unexpected(message: &Message) -> (error: TransportError)
    ensures
        error@ == unexpected_fault(message@),
{
    let mut text = "a message with tag ".to_owned();
    text.append(hex_byte_text(message.tag).as_str());
    protocol_error(text)
}

/// What the message that is due, which must be of `tag`, comes to.
pub open spec fn expected_in(packet: Option<PacketView>, tag: u8) -> Result<MessageView, Fault> {
    match ttc::message_due(packet) {
        Err(fault) => Err(fault),
        Ok(message) => if message.tag == tag {
            Ok(message)
        } else if message.tag == tag::ERROR {
            Err(fault_in(message))
        } else {
            Err(unexpected_fault(message))
        },
    }
}

/// The next message, which must be of `tag`.
///
/// # Errors
/// Where the server closed, answered an error, or sent another message.
pub fn expect(packet: &Option<Packet>, tag: u8) -> (read: Result<Message, TransportError>)
    ensures
        match read {
            Ok(message) => expected_in(ttc::packet_view(*packet), tag) == Ok::<_, Fault>(message@),
            Err(error) => expected_in(ttc::packet_view(*packet), tag) == Err::<MessageView, _>(
                error@,
            ),
        },
{
    let message = match Message::due(packet) {
        Ok(message) => message,
        Err(error) => return Err(error),
    };
    if message.tag == tag {
        Ok(message)
    } else if message.tag == tag::ERROR {
        Err(error_of(&message))
    } else {
        Err(unexpected(&message))
    }
}

// Connecting.

/// What a client that connects waits for.
#[derive(Clone, Copy, Debug, PartialEq, Eq, Structural)]
pub enum Stage {
    /// The listener's accept.
    Accept,
    /// The server's version.
    Protocol,
    /// The server's data types.
    DataTypes,
    /// The session key.
    Key,
    /// What became of the login.
    Verdict,
}

/// A client that connects: negotiating, then logging in.
pub struct Connecting {
    stage: Stage,
    login: Login,
    banner: String,
}

/// What a [`Connecting`] holds, as contracts speak of it.
pub struct ConnectingView {
    pub stage: Stage,
    pub login: LoginView,
    pub banner: Seq<char>,
}

impl View for Connecting {
    type V = ConnectingView;

    closed spec fn view(&self) -> ConnectingView {
        ConnectingView { stage: self.stage, login: self.login@, banner: self.banner@ }
    }
}

/// What a step of connecting came to.
pub enum Connect {
    /// This is to be sent, and the server's next packet awaited.
    Sent(Connecting, Packet),
    /// The server accepted the login.
    Connected(Client),
}

/// What a [`Connect`] is, as contracts speak of it.
pub enum ConnectView {
    Sent(ConnectingView, PacketView),
    Connected(Seq<char>),
}

impl View for Connect {
    type V = ConnectView;

    open spec fn view(&self) -> ConnectView {
        match *self {
            Connect::Sent(connecting, packet) => ConnectView::Sent(connecting@, packet@),
            Connect::Connected(client) => ConnectView::Connected(client@),
        }
    }
}

/// A step of connecting, as contracts speak of it.
pub open spec fn outcome_view(step: Result<Connect, TransportError>) -> Result<
    ConnectView,
    Fault,
> {
    match step {
        Ok(connect) => Ok(connect@),
        Err(error) => Err(error@),
    }
}

/// What a client opens with.
pub open spec fn opening(login: LoginView) -> ConnectingView {
    ConnectingView { stage: Stage::Accept, login, banner: Seq::empty() }
}

/// What an authentication for `login` is in answer to `challenge`.
pub open spec fn authentication(login: LoginView, challenge: Seq<u8>) -> Seq<u8> {
    ttc::string_bytes(login.user) + ttc::counted_bytes(
        ttc::answer_to(challenge, encode_utf8(login.password)),
    )
}

/// One step of connecting: `packet` is what the server sent.
pub open spec fn connect_step(state: ConnectingView, packet: Option<PacketView>) -> Result<
    ConnectView,
    Fault,
> {
    match state.stage {
        Stage::Accept => match packet {
            None => Err(tns::closed_fault()),
            Some(packet) => if packet.kind != tns::ACCEPT {
                Err(tns::refusal_in(packet))
            } else {
                Ok(
                    ConnectView::Sent(
                        ConnectingView { stage: Stage::Protocol, ..state },
                        ttc::message_packet(tag::PROTOCOL, ttc::string_bytes(BANNER@)),
                    ),
                )
            },
        },
        Stage::Protocol => match expected_in(packet, tag::PROTOCOL) {
            Err(fault) => Err(fault),
            Ok(message) => match ttc::string_in(message.body) {
                Err(fault) => Err(fault),
                Ok((banner, _)) => Ok(
                    ConnectView::Sent(
                        ConnectingView { stage: Stage::DataTypes, banner, ..state },
                        ttc::message_packet(tag::DATA_TYPES, Seq::empty()),
                    ),
                ),
            },
        },
        Stage::DataTypes => match expected_in(packet, tag::DATA_TYPES) {
            Err(fault) => Err(fault),
            Ok(_) => Ok(
                ConnectView::Sent(
                    ConnectingView { stage: Stage::Key, ..state },
                    ttc::message_packet(
                        tag::SESSION_KEY_REQUEST,
                        ttc::string_bytes(state.login.user),
                    ),
                ),
            ),
        },
        Stage::Key => match expected_in(packet, tag::SESSION_KEY) {
            Err(fault) => Err(fault),
            Ok(message) => match ttc::counted_in(message.body) {
                Err(fault) => Err(fault),
                Ok((challenge, _)) => if challenge.len() != 16 {
                    Err(Fault::protocol("the session key was not sixteen bytes"@))
                } else {
                    Ok(
                        ConnectView::Sent(
                            ConnectingView { stage: Stage::Verdict, ..state },
                            ttc::message_packet(
                                tag::AUTHENTICATE,
                                authentication(state.login, challenge),
                            ),
                        ),
                    )
                },
            },
        },
        Stage::Verdict => match expected_in(packet, tag::AUTH_ACCEPTED) {
            Err(fault) => Err(fault),
            Ok(_) => Ok(ConnectView::Connected(state.banner)),
        },
    }
}

/// The sixteen bytes that `bytes` are.
fn block_of(bytes: &[u8]) -> (block: [u8; 16])
    requires
        bytes@.len() == 16,
    ensures
        block@ == bytes@,
{
    let mut block: [u8; 16] = [0u8;16];
    let mut i: usize = 0;
    while i < 16
        invariant
            i <= 16,
            bytes@.len() == 16,
            forall|j: int| 0 <= j < i ==> block@[j] == bytes@[j],
        decreases 16 - i,
    {
        block[i] = bytes[i];
        i = i + 1;
    }
    assert(block@ =~= bytes@);
    block
}

impl Connecting {
    /// The next step: `packet` is what the server sent, none where it
    /// closed.
    ///
    /// # Errors
    /// Where the server refused the connection or the login, closed, or
    /// sent what has no place there.
    pub fn next(self, packet: Option<Packet>) -> (step: Result<Connect, TransportError>)
        ensures
            outcome_view(step) == connect_step(self@, ttc::packet_view(packet)),
    {
        match self.stage {
            Stage::Accept => self.accepted(packet),
            Stage::Protocol => self.negotiated(packet),
            Stage::DataTypes => self.agreed(packet),
            Stage::Key => self.challenged(packet),
            Stage::Verdict => self.judged(packet),
        }
    }

    fn sending(self, stage: Stage, tag: u8, body: Vec<u8>) -> (step: Connect)
        ensures
            step@ == ConnectView::Sent(
                ConnectingView { stage, ..self@ },
                ttc::message_packet(tag, body@),
            ),
    {
        let packet = packet_of(tag, body);
        Connect::Sent(Connecting { stage, login: self.login, banner: self.banner }, packet)
    }

    fn accepted(self, packet: Option<Packet>) -> (step: Result<Connect, TransportError>)
        requires
            self@.stage == Stage::Accept,
        ensures
            outcome_view(step) == connect_step(self@, ttc::packet_view(packet)),
    {
        let accept = match Packet::due(packet) {
            Ok(accept) => accept,
            Err(error) => return Err(error),
        };
        if accept.kind != tns::ACCEPT {
            return Err(tns::refused(&accept));
        }
        let mut protocol: Vec<u8> = Vec::new();
        protocol.string(BANNER);
        assert(protocol@ =~= ttc::string_bytes(BANNER@));
        Ok(self.sending(Stage::Protocol, tag::PROTOCOL, protocol))
    }

    fn negotiated(self, packet: Option<Packet>) -> (step: Result<Connect, TransportError>)
        requires
            self@.stage == Stage::Protocol,
        ensures
            outcome_view(step) == connect_step(self@, ttc::packet_view(packet)),
    {
        let answer = match expect(&packet, tag::PROTOCOL) {
            Ok(answer) => answer,
            Err(error) => return Err(error),
        };
        let banner = match answer.cursor().string() {
            Ok(banner) => banner,
            Err(error) => return Err(error),
        };
        let told = Connecting { stage: self.stage, login: self.login, banner };
        let nothing: Vec<u8> = Vec::new();
        Ok(told.sending(Stage::DataTypes, tag::DATA_TYPES, nothing))
    }

    fn agreed(self, packet: Option<Packet>) -> (step: Result<Connect, TransportError>)
        requires
            self@.stage == Stage::DataTypes,
        ensures
            outcome_view(step) == connect_step(self@, ttc::packet_view(packet)),
    {
        match expect(&packet, tag::DATA_TYPES) {
            Ok(_) => {},
            Err(error) => return Err(error),
        }
        let mut request: Vec<u8> = Vec::new();
        request.string(self.login.user.as_str());
        assert(request@ =~= ttc::string_bytes(self@.login.user));
        Ok(self.sending(Stage::Key, tag::SESSION_KEY_REQUEST, request))
    }

    fn challenged(self, packet: Option<Packet>) -> (step: Result<Connect, TransportError>)
        requires
            self@.stage == Stage::Key,
        ensures
            outcome_view(step) == connect_step(self@, ttc::packet_view(packet)),
    {
        let key = match expect(&packet, tag::SESSION_KEY) {
            Ok(key) => key,
            Err(error) => return Err(error),
        };
        let mut reader = key.cursor();
        let challenge = match reader.counted() {
            Ok(challenge) => challenge,
            Err(error) => return Err(error),
        };
        if challenge.len() != 16 {
            return Err(protocol_error("the session key was not sixteen bytes".to_owned()));
        }
        let block = block_of(challenge);
        let answer = logon_verifier(&block, self.login.password.as_str().as_bytes());
        let mut auth: Vec<u8> = Vec::new();
        auth.string(self.login.user.as_str());
        auth.counted(answer.as_slice());
        assert(auth@ =~= authentication(self@.login, challenge@));
        Ok(self.sending(Stage::Verdict, tag::AUTHENTICATE, auth))
    }

    fn judged(self, packet: Option<Packet>) -> (step: Result<Connect, TransportError>)
        requires
            self@.stage == Stage::Verdict,
        ensures
            outcome_view(step) == connect_step(self@, ttc::packet_view(packet)),
    {
        match expect(&packet, tag::AUTH_ACCEPTED) {
            Ok(_) => Ok(Connect::Connected(Client { banner: self.banner })),
            Err(error) => Err(error),
        }
    }
}

// Connected.

/// A client whose login the server accepted; its view is the banner the
/// server named itself with.
pub struct Client {
    banner: String,
}

impl View for Client {
    type V = Seq<char>;

    closed spec fn view(&self) -> Seq<char> {
        self.banner@
    }
}

/// A statement that was sent, and what came back so far.
pub struct Query {
    result: QueryResult,
}

impl View for Query {
    type V = QueryResultView;

    closed spec fn view(&self) -> QueryResultView {
        self.result@
    }
}

/// What a step of fetching came to.
pub enum Fetch {
    /// The server's next packet is awaited.
    More(Query),
    /// The statement is done.
    Done(QueryResult),
}

/// What a [`Fetch`] is, as contracts speak of it.
pub enum FetchView {
    More(QueryResultView),
    Done(QueryResultView),
}

impl View for Fetch {
    type V = FetchView;

    open spec fn view(&self) -> FetchView {
        match *self {
            Fetch::More(query) => FetchView::More(query@),
            Fetch::Done(result) => FetchView::Done(result@),
        }
    }
}

/// What executing `sql` with `bind` is.
pub open spec fn execution(sql: Seq<char>, bind: Option<Seq<u8>>) -> Seq<u8> {
    ttc::string_bytes(sql) + ttc::value_bytes(bind)
}

/// Runs of bytes, read as text.
pub open spec fn texts_in(runs: Seq<Seq<u8>>) -> Seq<Seq<char>> {
    Seq::new(runs.len(), |i: int| text::lossy_text(runs[i]))
}

/// `n` column values at the front of `rest`.
pub open spec fn value_run_in(rest: Seq<u8>, n: nat) -> Result<
    (Seq<Option<Seq<u8>>>, Seq<u8>),
    Fault,
>
    decreases n,
{
    if n == 0 {
        Ok((Seq::empty(), rest))
    } else {
        match ttc::value_in(rest) {
            Ok((first, left)) => ttc::behind(seq![first], value_run_in(left, (n - 1) as nat)),
            Err(fault) => Err(fault),
        }
    }
}

/// The columns of the row a message is.
pub open spec fn row_in(message: MessageView) -> Result<Seq<Option<Seq<u8>>>, Fault> {
    match cursor::u16_in(message.body) {
        Err(fault) => Err(fault),
        Ok((count, left)) => match value_run_in(left, count as nat) {
            Ok((row, _)) => Ok(row),
            Err(fault) => Err(fault),
        },
    }
}

/// One step of fetching: `packet` is what the server sent.
pub open spec fn fetch_step(result: QueryResultView, packet: Option<PacketView>) -> Result<
    FetchView,
    Fault,
> {
    match ttc::message_due(packet) {
        Err(fault) => Err(fault),
        Ok(message) => if message.tag == tag::DESCRIBE {
            match ttc::values_in(message.body) {
                Err(fault) => Err(fault),
                Ok((names, _)) => Ok(
                    FetchView::More(QueryResultView { columns: texts_in(names), ..result }),
                ),
            }
        } else if message.tag == tag::ROW {
            match row_in(message) {
                Err(fault) => Err(fault),
                Ok(row) => Ok(
                    FetchView::More(QueryResultView { rows: result.rows.push(row), ..result }),
                ),
            }
        } else if message.tag == tag::STATUS {
            match ttc::long_in(message.body) {
                Err(fault) => Err(fault),
                Ok((affected_rows, _)) => Ok(
                    FetchView::Done(QueryResultView { affected_rows, ..result }),
                ),
            }
        } else if message.tag == tag::ERROR {
            Err(fault_in(message))
        } else {
            Err(unexpected_fault(message))
        },
    }
}

impl Client {
    /// Open a connection to `connect_string`'s service as `login`: the
    /// client that connects, and the packet it opens with.
    #[must_use]
    pub fn connect(connect_string: &str, login: &Login) -> (opened: (Connecting, Packet))
        ensures
            opened.0@ == opening(login@),
            opened.1@ == tns::connect_packet(connect_string@),
    {
        (
            Connecting { stage: Stage::Accept, login: login.copy(), banner: String::new() },
            tns::connect(connect_string),
        )
    }

    /// The banner the server named itself with.
    #[must_use]
    pub fn server_banner(&self) -> (banner: &str)
        ensures
            banner@ == self@,
    {
        self.banner.as_str()
    }

    /// Run `sql`, binding `bind` where there is one: the statement under
    /// way, whose rows are to be fetched, and the packet it is sent as.
    #[must_use]
    pub fn query(&self, sql: &str, bind: Option<&[u8]>) -> (sent: (Query, Packet))
        ensures
            sent.0@ == QueryResultView::empty(),
            sent.1@ == ttc::message_packet(tag::EXECUTE, execution(sql@, ttc::bound_view(bind))),
    {
        let mut body: Vec<u8> = Vec::new();
        body.string(sql);
        body.value(bind);
        assert(body@ =~= execution(sql@, ttc::bound_view(bind)));
        (Query { result: QueryResult::default() }, packet_of(tag::EXECUTE, body))
    }

    /// Log off: the logoff, and the goodbye that follows it.
    #[must_use]
    pub fn close(self) -> (last: (Packet, Packet))
        ensures
            last.0@ == ttc::message_packet(tag::LOGOFF, Seq::empty()),
            last.1@ == tns::data_packet(tns::DATA_FLAG_EOF, Seq::empty()),
    {
        (Message::bare(tag::LOGOFF).to_packet(), tns::data_eof())
    }
}

impl Query {
    /// The next step: `packet` is what the server sent, none where it
    /// closed.
    ///
    /// # Errors
    /// Where the server went away or answered with an error.
    pub fn next(self, packet: Option<Packet>) -> (step: Result<Fetch, TransportError>)
        ensures
            match step {
                Ok(fetch) => fetch_step(self@, ttc::packet_view(packet)) == Ok::<_, Fault>(
                    fetch@,
                ),
                Err(error) => fetch_step(self@, ttc::packet_view(packet)) == Err::<FetchView, _>(
                    error@,
                ),
            },
    {
        let message = match Message::due(&packet) {
            Ok(message) => message,
            Err(error) => return Err(error),
        };
        let mut result = self.result;
        let ghost before = result@;
        if message.tag == tag::DESCRIBE {
            let names = match message.cursor().values() {
                Ok(names) => names,
                Err(error) => return Err(error),
            };
            result.columns = texts_of(&names);
            Ok(Fetch::More(Query { result }))
        } else if message.tag == tag::ROW {
            let row = match read_row(&message) {
                Ok(row) => row,
                Err(error) => return Err(error),
            };
            result.rows.push(row);
            assert(result@.rows =~= before.rows.push(sql::row_view(row@)));
            Ok(Fetch::More(Query { result }))
        } else if message.tag == tag::STATUS {
            result.affected_rows = match message.cursor().long() {
                Ok(affected_rows) => affected_rows,
                Err(error) => return Err(error),
            };
            Ok(Fetch::Done(result))
        } else if message.tag == tag::ERROR {
            Err(error_of(&message))
        } else {
            Err(unexpected(&message))
        }
    }
}

/// Runs of bytes, read as text.
fn texts_of(runs: &Vec<Vec<u8>>) -> (texts: Vec<String>)
    ensures
        sql::texts_view(texts@) == texts_in(ttc::byte_runs(runs@)),
{
    let ghost all = texts_in(ttc::byte_runs(runs@));
    let mut texts: Vec<String> = Vec::new();
    let mut i: usize = 0;
    assert(sql::texts_view(texts@) =~= all.take(0));
    while i < runs.len()
        invariant
            i <= runs@.len(),
            all == texts_in(ttc::byte_runs(runs@)),
            sql::texts_view(texts@) == all.take(i as int),
        decreases runs@.len() - i,
    {
        let ghost earlier = sql::texts_view(texts@);
        let text = text_of(runs[i].as_slice());
        texts.push(text);
        i = i + 1;
        assert(sql::texts_view(texts@) =~= earlier.push(text@));
        assert(sql::texts_view(texts@) =~= all.take(i as int));
    }
    assert(all.take(i as int) =~= all);
    texts
}

/// The values of a row's columns.
///
/// # Errors
/// Where the message ends first.
pub fn read_row(message: &Message) -> (read: Result<Vec<Option<Vec<u8>>>, TransportError>)
    ensures
        match read {
            Ok(row) => row_in(message@) == Ok::<_, Fault>(sql::row_view(row@)),
            Err(error) => row_in(message@) == Err::<Seq<Option<Seq<u8>>>, _>(error@),
        },
{
    let mut reader = message.cursor();
    let count: u16 = match reader.u16_be() {
        Ok(count) => count,
        Err(error) => return Err(error),
    };
    let ghost whole = value_run_in(reader@, count as nat);
    let mut row: Vec<Option<Vec<u8>>> = Vec::new();
    let mut i: u16 = 0;
    proof {
        assert(sql::row_view(row@) =~= Seq::empty());
        if whole is Ok {
            assert(sql::row_view(row@) + whole->Ok_0.0 =~= whole->Ok_0.0);
        }
    }
    while i < count
        invariant
            i <= count,
            whole == ttc::behind(
                sql::row_view(row@),
                value_run_in(reader@, (count - i) as nat),
            ),
            row_in(message@) == (match whole {
                Ok((all, _)) => Ok::<_, Fault>(all),
                Err(fault) => Err(fault),
            }),
        decreases count - i,
    {
        let ghost earlier = sql::row_view(row@);
        match reader.value() {
            Ok(value) => {
                let ghost more = value_run_in(reader@, (count - i - 1) as nat);
                row.push(value);
                i = i + 1;
                proof {
                    let seen = ttc::value_view(value);
                    assert(sql::row_view(row@) =~= earlier.push(seen));
                    if more is Ok {
                        assert(earlier + (seq![seen] + more->Ok_0.0) =~= sql::row_view(row@)
                            + more->Ok_0.0);
                    }
                }
            },
            Err(error) => return Err(error),
        }
    }
    assert(sql::row_view(row@) + Seq::<Option<Seq<u8>>>::empty() =~= sql::row_view(row@));
    Ok(row)
}

// What each step comes to, by the numbers on the wire.

/// The codes that are worth another attempt are these eight and no others,
/// and the message tells the code and all of the server's text.
pub proof fn law_codes_worth_another_attempt(code: nat, message: Seq<char>)
    ensures
        oracle_fault(code, message).retryable <==> seq![
            54nat,
            60nat,
            8176nat,
            8177nat,
            12514nat,
            12520nat,
            12528nat,
            30006nat,
        ].contains(code),
        oracle_fault(code, message).message == "the server answered ORA-"@ + text::padded_decimal(
            code,
            5,
        ) + ": "@ + message,
{
    let codes = seq![54nat, 60nat, 8176nat, 8177nat, 12514nat, 12520nat, 12528nat, 30006nat];
    assert(codes[0] == 54 && codes[1] == 60 && codes[2] == 8176 && codes[3] == 8177 && codes[4]
        == 12514 && codes[5] == 12520 && codes[6] == 12528 && codes[7] == 30006);
}

/// The error a message carries is its code and, where there is one, its text;
/// one without a code is malformed, and that is not worth another attempt.
pub proof fn law_error_is_read(message: MessageView)
    ensures
        match ttc::integer_in(message.body) {
            Ok((code, left)) => fault_in(message) == oracle_fault(
                code,
                match ttc::string_in(left) {
                    Ok((text, _)) => text,
                    Err(_) => Seq::empty(),
                },
            ),
            Err(_) => fault_in(message) == (Fault {
                message: "a malformed error message"@,
                retryable: false,
            }),
        },
        unexpected_fault(message) == (Fault {
            message: "a message with tag "@ + text::hex_byte(message.tag),
            retryable: false,
        }),
{
}

/// What a message that was due comes to, where one of `tag` was: itself where
/// it is of that tag, the error it carries where its tag is eleven, and an
/// error that tells its tag otherwise.
pub proof fn law_message_must_be_due(packet: Option<PacketView>, tag: u8)
    ensures
        match ttc::message_due(packet) {
            Err(fault) => expected_in(packet, tag) == Err::<MessageView, _>(fault),
            Ok(message) => {
                &&& message.tag == tag ==> expected_in(packet, tag) == Ok::<_, Fault>(message)
                &&& message.tag != tag && message.tag == 11 ==> expected_in(packet, tag) == Err::<
                    MessageView,
                    _,
                >(fault_in(message))
                &&& message.tag != tag && message.tag != 11 ==> expected_in(packet, tag) == Err::<
                    MessageView,
                    _,
                >(unexpected_fault(message))
            },
        },
{
}

/// A client opens with its login and nothing heard of the server yet, and is
/// let on by an accept alone, whose type is two: then it names itself.
pub proof fn law_client_opens(login: LoginView, packet: Option<PacketView>)
    ensures
        opening(login) == (ConnectingView {
            stage: Stage::Accept,
            login,
            banner: Seq::empty(),
        }),
        connect_step(opening(login), packet) == match packet {
            None => Err(Fault { message: "the peer closed the connection"@, retryable: false }),
            Some(sent) => if sent.kind == 2 {
                Ok::<_, Fault>(
                    ConnectView::Sent(
                        ConnectingView { stage: Stage::Protocol, login, banner: Seq::empty() },
                        ttc::message_packet(1, ttc::string_bytes("xmip-thin"@)),
                    ),
                )
            } else {
                Err(tns::refusal_in(sent))
            },
        },
{
}

/// What a client makes of each message the server owes it. A version, tag
/// one, is answered with the data types, tag two, and its text is kept; data
/// types, tag two, with the user's request for a session key, tag three; a
/// session key, tag four, of sixteen bytes, with the user and the answer that
/// its own password gives to it, tag five; and tag six connects it. It keeps
/// its login throughout.
pub proof fn law_client_is_led(state: ConnectingView, packet: Option<PacketView>)
    requires
        state.stage != Stage::Accept,
    ensures
        ({
            let due: u8 = match state.stage {
                Stage::Protocol => 1,
                Stage::DataTypes => 2,
                Stage::Key => 4,
                _ => 6,
            };
            match expected_in(packet, due) {
                Err(fault) => connect_step(state, packet) == Err::<ConnectView, _>(fault),
                Ok(message) => match state.stage {
                    Stage::Protocol => match ttc::string_in(message.body) {
                        Ok((text, _)) => connect_step(state, packet) == Ok::<_, Fault>(
                            ConnectView::Sent(
                                ConnectingView {
                                    stage: Stage::DataTypes,
                                    login: state.login,
                                    banner: text,
                                },
                                ttc::message_packet(2, Seq::empty()),
                            ),
                        ),
                        Err(fault) => connect_step(state, packet) == Err::<ConnectView, _>(fault),
                    },
                    Stage::DataTypes => connect_step(state, packet) == Ok::<_, Fault>(
                        ConnectView::Sent(
                            ConnectingView {
                                stage: Stage::Key,
                                login: state.login,
                                banner: state.banner,
                            },
                            ttc::message_packet(3, ttc::string_bytes(state.login.user)),
                        ),
                    ),
                    Stage::Key => match ttc::counted_in(message.body) {
                        Ok((key, _)) => connect_step(state, packet) == if key.len() == 16 {
                            Ok::<_, Fault>(
                                ConnectView::Sent(
                                    ConnectingView {
                                        stage: Stage::Verdict,
                                        login: state.login,
                                        banner: state.banner,
                                    },
                                    ttc::message_packet(
                                        5,
                                        ttc::string_bytes(state.login.user) + ttc::counted_bytes(
                                            ttc::answer_to(key, encode_utf8(state.login.password)),
                                        ),
                                    ),
                                ),
                            )
                        } else {
                            Err(
                                Fault {
                                    message: "the session key was not sixteen bytes"@,
                                    retryable: false,
                                },
                            )
                        },
                        Err(fault) => connect_step(state, packet) == Err::<ConnectView, _>(fault),
                    },
                    _ => connect_step(state, packet) == Ok::<_, Fault>(
                        ConnectView::Connected(state.banner),
                    ),
                },
            }
        }),
{
}

/// A statement is sent as its text and its bind, whole, under tag seven.
pub proof fn law_statement_is_sent(sql: Seq<char>, bind: Option<Seq<u8>>)
    ensures
        ttc::message_packet(tag::EXECUTE, execution(sql, bind)) == ttc::message_packet(
            7,
            ttc::string_bytes(sql) + ttc::value_bytes(bind),
        ),
        ttc::message_packet(tag::LOGOFF, Seq::empty()) == ttc::message_packet(12, Seq::empty()),
{
}

/// What a client makes of each message that answers a statement. Tag eight
/// names the columns and changes no row; tag nine is one more row, behind
/// those that were there, and changes no column; tag ten ends the statement
/// with the number of rows and changes neither; tag eleven is the server's
/// error; any other has no place there.
pub proof fn law_answer_is_fetched(result: QueryResultView, packet: Option<PacketView>)
    ensures
        match ttc::message_due(packet) {
            Err(fault) => fetch_step(result, packet) == Err::<FetchView, _>(fault),
            Ok(message) => if message.tag == 8 {
                match ttc::values_in(message.body) {
                    Err(fault) => fetch_step(result, packet) == Err::<FetchView, _>(fault),
                    Ok((names, _)) => {
                        &&& fetch_step(result, packet) matches Ok(FetchView::More(next))
                        &&& next.rows == result.rows
                        &&& next.affected_rows == result.affected_rows
                        &&& next.columns.len() == names.len()
                        &&& forall|i: int|
                            0 <= i < names.len() ==> #[trigger] next.columns[i]
                                == text::lossy_text(names[i])
                    },
                }
            } else if message.tag == 9 {
                match row_in(message) {
                    Err(fault) => fetch_step(result, packet) == Err::<FetchView, _>(fault),
                    Ok(row) => {
                        &&& fetch_step(result, packet) matches Ok(FetchView::More(next))
                        &&& next.rows == result.rows.push(row)
                        &&& next.affected_rows == result.affected_rows
                        &&& next.columns == result.columns
                    },
                }
            } else if message.tag == 10 {
                match ttc::long_in(message.body) {
                    Err(fault) => fetch_step(result, packet) == Err::<FetchView, _>(fault),
                    Ok((n, _)) => {
                        &&& fetch_step(result, packet) matches Ok(FetchView::Done(next))
                        &&& next.rows == result.rows
                        &&& next.affected_rows == n
                        &&& next.columns == result.columns
                    },
                }
            } else if message.tag == 11 {
                fetch_step(result, packet) == Err::<FetchView, _>(fault_in(message))
            } else {
                fetch_step(result, packet) == Err::<FetchView, _>(unexpected_fault(message))
            },
        },
        QueryResultView::empty().columns.len() == 0,
        QueryResultView::empty().rows.len() == 0,
        QueryResultView::empty().affected_rows == 0,
{
}

/// How a row is read: as many values as the first two bytes say, one behind
/// the other, each in its place; and what is behind them is not the row's.
pub proof fn law_row_is_read(message: MessageView, rest: Seq<u8>, n: nat)
    ensures
        message.body.len() < 2 ==> row_in(message) is Err,
        message.body.len() >= 2 ==> row_in(message) == match value_run_in(
            message.body.skip(2),
            (message.body[0] * 256 + message.body[1]) as nat,
        ) {
            Ok((row, _)) => Ok::<_, Fault>(row),
            Err(fault) => Err(fault),
        },
        value_run_in(rest, 0) == Ok::<_, Fault>((Seq::<Option<Seq<u8>>>::empty(), rest)),
        match ttc::value_in(rest) {
            Err(fault) => value_run_in(rest, n + 1) == Err::<(Seq<Option<Seq<u8>>>, Seq<u8>), _>(
                fault,
            ),
            Ok((first, left)) => match value_run_in(left, n) {
                Err(fault) => value_run_in(rest, n + 1) == Err::<
                    (Seq<Option<Seq<u8>>>, Seq<u8>),
                    _,
                >(fault),
                Ok((others, behind)) => {
                    &&& value_run_in(rest, n + 1) matches Ok((row, end))
                    &&& end == behind
                    &&& row.len() == others.len() + 1
                    &&& row[0] == first
                    &&& row.skip(1) == others
                },
            },
        },
{
    cursor::law_numbers_are_taken(message.body);
    if let Ok((first, left)) = ttc::value_in(rest) {
        if let Ok((others, _)) = value_run_in(left, n) {
            assert((seq![first] + others).skip(1) =~= others);
        }
    }
}

/// What a result and a login hold is what contracts say they do: every
/// column, every value of every row, and every character.
pub proof fn law_results_are_seen(result: QueryResult, login: Login)
    ensures
        result@.columns.len() == result.columns@.len(),
        forall|i: int|
            0 <= i < result.columns@.len() ==> #[trigger] result@.columns[i] == result.columns@[i]@,
        result@.rows.len() == result.rows@.len(),
        forall|i: int|
            0 <= i < result.rows@.len() ==> (#[trigger] result@.rows[i]).len()
                == result.rows@[i]@.len(),
        forall|i: int, j: int|
            0 <= i < result.rows@.len() && 0 <= j < result.rows@[i]@.len() ==> (
            #[trigger] result@.rows[i][j]) == match result.rows@[i]@[j] {
                Some(bytes) => Some(bytes@),
                None => None,
            },
        result@.affected_rows == result.affected_rows,
        login@.user == login.user@,
        login@.password == login.password@,
{
}

/// Steps are seen as what they come to.
pub proof fn law_steps_are_seen(
    connecting: Connecting,
    packet: Packet,
    client: Client,
    query: Query,
    result: QueryResult,
    error: TransportError,
)
    ensures
        outcome_view(Ok(Connect::Sent(connecting, packet))) == Ok::<_, Fault>(
            ConnectView::Sent(connecting@, packet@),
        ),
        outcome_view(Ok(Connect::Connected(client))) == Ok::<_, Fault>(
            ConnectView::Connected(client@),
        ),
        outcome_view(Err(error)) == Err::<ConnectView, _>(error@),
        Fetch::More(query)@ == FetchView::More(query@),
        Fetch::Done(result)@ == FetchView::Done(result@),
{
}

} // verus!
