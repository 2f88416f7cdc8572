//! The server's side of one connection: what a test puts at the far end, and
//! what the loopback pair drives.
//!
//! Not a database. One session accepts one client's TNS connect, answers the
//! protocol and data-type negotiation, hands out a session key and checks
//! the verifier against the one login it expects, or takes any where none
//! is, and answers each statement from a closure or from one fixed table:
//! any SELECT gets the table's rows, an `INSERT ... VALUES (:1)` records its
//! bound RAW as a Stream, anything else is done with no rows. Planning,
//! storage and SQL are a database's.
//!
//! Nothing here touches a socket. Each step takes the packet the client
//! sent, none where it closed, and says what to send back and what the
//! client did.

use vstd::prelude::*;
use vstd::string::*;
use vstd::utf8::*;

use crate::client::{Login, LoginView};
use crate::error::{protocol_error, Fault, TransportError};
use crate::sql;
use crate::sql::{copy_rows, copy_texts, verb_is, Arrived, ArrivedView};
use crate::text;
use crate::text::{
    before_text, decimal_text, fields_of, find_text, hex_byte_text, same_text, same_word_text,
    Separator,
};
use crate::tns;
use crate::tns::{Packet, PacketView};
use crate::ttc;
use crate::ttc::{logon_verifier, packet_of, tag, Message, MessageView, Ttc, TtcWrite};
use crate::wire;
use crate::wire::{put_be, same_bytes};

verus! {

/// The number Oracle answers a refused login with (`ORA-01017`).
pub const INVALID_CREDENTIAL: u32 = 1017;

/// The number it answers a statement it will not run (`ORA-00900`). A
/// session by itself refuses none; a closure that answers first may answer
/// this.
pub const INVALID_STATEMENT: u32 = 900;

/// What the far end names itself in the protocol handshake.
pub const SERVER_BANNER: &'static str = "Oracle Database (xmip)";

/// What the client did, as [`Session::next_event`] reports it.
#[derive(Clone, Debug, PartialEq, Eq)]
pub enum Event {
    /// The client ran a SELECT; here it is.
    Selected(String),
    /// The client inserted one bound value; here is the Stream.
    Inserted(Arrived),
    /// The client ran something else; here it is. An INSERT that a closure
    /// answered is reported here too: the table did not take it.
    Executed(String),
}

/// What an [`Event`] is, as contracts speak of it.
pub enum EventView {
    Selected(Seq<char>),
    Inserted(ArrivedView),
    Executed(Seq<char>),
}

impl View for Event {
    type V = EventView;

    open spec fn view(&self) -> EventView {
        match *self {
            Event::Selected(sql) => EventView::Selected(sql@),
            Event::Inserted(arrived) => EventView::Inserted(arrived@),
            Event::Executed(sql) => EventView::Executed(sql@),
        }
    }
}

impl Event {
    /// The Stream, where the client inserted one.
    pub fn inserted(self) -> (arrived: Option<Arrived>)
        ensures
            match self {
                Event::Inserted(stream) => arrived == Some(stream),
                _ => arrived is None,
            },
    {
        match self {
            Event::Inserted(arrived) => Some(arrived),
            Event::Selected(_) => None,
            Event::Executed(_) => None,
        }
    }
}

/// How a statement is answered.
#[derive(Clone, Debug, PartialEq, Eq)]
pub enum Answer {
    Rows { columns: Vec<String>, rows: Vec<Vec<Option<Vec<u8>>>> },
    /// Done, this many rows touched.
    Complete(u64),
    Error { code: u32, message: String },
}

/// What an [`Answer`] is, as contracts speak of it.
pub enum AnswerView {
    Rows { columns: Seq<Seq<char>>, rows: Seq<Seq<Option<Seq<u8>>>> },
    Complete(nat),
    Error { code: nat, message: Seq<char> },
}

impl View for Answer {
    type V = AnswerView;

    open spec fn view(&self) -> AnswerView {
        match *self {
            Answer::Rows { columns, rows } => AnswerView::Rows {
                columns: sql::texts_view(columns@),
                rows: sql::rows_view(rows@),
            },
            Answer::Complete(rows) => AnswerView::Complete(rows as nat),
            Answer::Error { code, message } => AnswerView::Error {
                code: code as nat,
                message: message@,
            },
        }
    }
}

/// An answer that may have been declined, as contracts speak of it.
pub open spec fn answered_view(answered: Option<Answer>) -> Option<AnswerView> {
    match answered {
        Some(answer) => Some(answer@),
        None => None,
    }
}

// What a statement and a connect string name.

/// The `SERVICE_NAME` a connect string names, or the whole string where it
/// carries no such field.
pub open spec fn service_named(connect_string: Seq<char>) -> Seq<char> {
    match text::find(connect_string, "SERVICE_NAME="@) {
        Some(at) => text::before(
            connect_string.skip((at + "SERVICE_NAME="@.len()) as int),
            Separator::Either(')', ' '),
        ),
        None => connect_string,
    }
}

/// The `SERVICE_NAME` a connect string names, or the whole string where it
/// carries no such field.
pub fn service_name(connect_string: &str) -> (service: String)
    ensures
        service@ == service_named(connect_string@),
{
    let field = "SERVICE_NAME=";
    match find_text(connect_string, field) {
        Some(at) => {
            let length = connect_string.unicode_len();
            let width = field.unicode_len();
            let from = at + width;
            let rest = connect_string.substring_char(from, length);
            assert(rest@ =~= connect_string@.skip(from as int));
            before_text(rest, Separator::Either(')', ' ')).to_owned()
        },
        None => connect_string.to_owned(),
    }
}

/// The word that follows the first `word`.
pub open spec fn word_after(words: Seq<Seq<char>>, word: Seq<char>) -> Option<Seq<char>>
    decreases words.len(),
{
    if words.len() == 0 {
        None
    } else if text::same_word(words[0], word) {
        if words.len() > 1 {
            Some(words[1])
        } else {
            None
        }
    } else {
        word_after(words.drop_first(), word)
    }
}

/// The table an `INSERT INTO t (...) ...` names, or `?` where none is plain
/// to read.
pub open spec fn table_named(sql: Seq<char>) -> Seq<char> {
    match word_after(text::fields(sql, Separator::White), "into"@) {
        Some(table) => if text::before(table, Separator::One('(')).len() == 0 {
            "?"@
        } else {
            text::before(table, Separator::One('('))
        },
        None => "?"@,
    }
}

/// The table an `INSERT INTO t (...) ...` names, or `?` where none is plain
/// to read; only for the origin URI.
pub fn table_of(sql: &str) -> (table: String)
    ensures
        table@ == table_named(sql@),
{
    let words = fields_of(sql, Separator::White);
    let ghost all = text::views(words@);
    let mut i: usize = 0;
    assert(all.skip(0) =~= all);
    while i < words.len()
        invariant
            i <= words@.len(),
            all == text::views(words@),
            all == text::fields(sql@, Separator::White),
            word_after(all, "into"@) == word_after(all.skip(i as int), "into"@),
        decreases words@.len() - i,
    {
        let ghost rest = all.skip(i as int);
        assert(rest[0] == words@[i as int]@);
        if same_word_text(words[i], "into") {
            if i + 1 < words.len() {
                assert(rest[1] == words@[i + 1]@);
                let table = before_text(words[i + 1], Separator::One('('));
                if table.unicode_len() == 0 {
                    return "?".to_owned();
                }
                return table.to_owned();
            }
            return "?".to_owned();
        }
        assert(rest.drop_first() =~= all.skip(i + 1));
        i = i + 1;
    }
    "?".to_owned()
}

// The challenge.

/// `x` with its bits turned left by one.
pub open spec fn turned_once(x: u8) -> u8 {
    (x << 1) | (x >> 7)
}

/// The block after the first `n` of `bytes` are folded in, each into the
/// byte of the block that its place falls on.
pub open spec fn folded(bytes: Seq<u8>, n: nat) -> Seq<u8>
    decreases n,
{
    if n == 0 {
        Seq::new(16, |i: int| 0u8)
    } else {
        let block = folded(bytes, (n - 1) as nat);
        let at = (n - 1) % 16;
        block.update(at, turned_once(block[at].wrapping_add(bytes[n - 1])))
    }
}

/// What a challenge is made of: the clock, the peer and a counter.
pub open spec fn challenge_seed(nanos: nat, peer: Seq<char>, session: nat) -> Seq<char> {
    text::decimal(nanos) + ":"@ + peer + ":"@ + text::decimal(session)
}

/// The challenge of the session numbered `session`, for `peer`, at `nanos`:
/// twelve bytes of the block that the seed folds to, then the number itself.
pub open spec fn challenge_for(nanos: nat, peer: Seq<char>, session: nat) -> Seq<u8> {
    let seed = encode_utf8(challenge_seed(nanos, peer, session));
    folded(seed, seed.len()).take(12) + wire::be(session, 4)
}

/// Sixteen bytes no two sessions share: the clock, the peer and a counter
/// folded to a block, which ends in the counter.
#[must_use]
pub fn fresh_challenge(nanos: u128, peer: &str, session: u32) -> (block: [u8; 16])
    ensures
        block@ == challenge_for(nanos as nat, peer@, session as nat),
{
    let mut seed = decimal_text(nanos);
    seed.append(":");
    seed.append(peer);
    seed.append(":");
    seed.append(decimal_text(session as u128).as_str());
    let bytes = seed.as_str().as_bytes();
    let mut block: [u8; 16] = [0u8;16];
    let mut i: usize = 0;
    assert(block@ =~= folded(bytes@, 0));
    while i < bytes.len()
        invariant
            i <= bytes@.len(),
            block@ == folded(bytes@, i as nat),
        decreases bytes@.len() - i,
    {
        let at: usize = i % 16;
        let sum: u8 = block[at].wrapping_add(bytes[i]);
        block[at] = (sum << 1) | (sum >> 7);
        i = i + 1;
        assert(block@ =~= folded(bytes@, i as nat));
    }
    let mut number: Vec<u8> = Vec::new();
    put_be(&mut number, session as u64, 4);
    proof {
        wire::lemma_be_len(session as nat, 4);
        assert(number@ =~= wire::be(session as nat, 4));
    }
    block[12] = number[0];
    block[13] = number[1];
    block[14] = number[2];
    block[15] = number[3];
    assert(block@ =~= folded(bytes@, bytes@.len()).take(12) + wire::be(session as nat, 4));
    block
}

proof fn lemma_folded_len(bytes: Seq<u8>, n: nat)
    ensures
        folded(bytes, n).len() == 16,
    decreases n,
{
    if n > 0 {
        lemma_folded_len(bytes, (n - 1) as nat);
    }
}

/// No two sessions share a challenge: sessions of different numbers are
/// challenged differently, whoever their peers are and whatever the clock
/// said.
pub proof fn law_challenges_differ(
    nanos: nat,
    peer: Seq<char>,
    session: nat,
    other_nanos: nat,
    other_peer: Seq<char>,
    other: nat,
)
    requires
        session < 0x1_0000_0000,
        other < 0x1_0000_0000,
        session != other,
    ensures
        challenge_for(nanos, peer, session) != challenge_for(other_nanos, other_peer, other),
{
    let a = challenge_for(nanos, peer, session);
    let b = challenge_for(other_nanos, other_peer, other);
    law_challenge_is_sixteen_bytes(nanos, peer, session);
    law_challenge_is_sixteen_bytes(other_nanos, other_peer, other);
    wire::lemma_spans();
    wire::law_be_reads_back(session, 4);
    wire::law_be_reads_back(other, 4);
    assert(a.skip(12) =~= wire::be(session, 4));
    assert(b.skip(12) =~= wire::be(other, 4));
}

/// A challenge is sixteen bytes.
pub proof fn law_challenge_is_sixteen_bytes(nanos: nat, peer: Seq<char>, session: nat)
    ensures
        challenge_for(nanos, peer, session).len() == 16,
{
    let seed = encode_utf8(challenge_seed(nanos, peer, session));
    lemma_folded_len(seed, seed.len());
    wire::lemma_be_len(session, 4);
}

// Accepting.

/// What a session that accepts waits for.
#[derive(Clone, Copy, Debug, PartialEq, Eq, Structural)]
pub enum Phase {
    /// The client's connect.
    Connect,
    /// The client's version.
    Protocol,
    /// The client's data types.
    DataTypes,
    /// The client's request for a session key.
    KeyRequest,
    /// The client's answer to the session key.
    Authenticate,
}

/// A session that accepts one client: negotiating, then logging it in.
pub struct Accepting {
    phase: Phase,
    peer: String,
    expected: Option<Login>,
    challenge: [u8; 16],
    service: String,
    user: String,
}

/// What an [`Accepting`] holds, as contracts speak of it.
pub struct AcceptingView {
    pub phase: Phase,
    pub peer: Seq<char>,
    /// The login that is demanded; any is taken where there is none.
    pub expected: Option<LoginView>,
    /// What the session key is.
    pub challenge: Seq<u8>,
    /// The service the connect named.
    pub service: Seq<char>,
    /// The user the session key was asked for.
    pub user: Seq<char>,
}

/// A login that may not be demanded, as contracts speak of it.
pub open spec fn expected_view(expected: Option<Login>) -> Option<LoginView> {
    match expected {
        Some(login) => Some(login@),
        None => None,
    }
}

impl View for Accepting {
    type V = AcceptingView;

    closed spec fn view(&self) -> AcceptingView {
        AcceptingView {
            phase: self.phase,
            peer: self.peer@,
            expected: expected_view(self.expected),
            challenge: self.challenge@,
            service: self.service@,
            user: self.user@,
        }
    }
}

/// What a session opens as.
pub open spec fn accepting(
    peer: Seq<char>,
    expected: Option<LoginView>,
    challenge: Seq<u8>,
) -> AcceptingView {
    AcceptingView {
        phase: Phase::Connect,
        peer,
        expected,
        challenge,
        service: Seq::empty(),
        user: Seq::empty(),
    }
}

/// What a step of accepting came to.
pub enum Accept {
    /// This is to be sent, and the client's next packet awaited.
    Sent(Accepting, Packet),
    /// The client is logged in; this is to be sent.
    Accepted(Session, Packet),
    /// The client is not let in; this is to be sent first, where there is
    /// anything to say to it.
    Refused(Option<Packet>, TransportError),
}

/// What an [`Accept`] is, as contracts speak of it.
pub enum AcceptView {
    Sent(AcceptingView, PacketView),
    Accepted(SessionView, PacketView),
    Refused(Option<PacketView>, Fault),
}

impl View for Accept {
    type V = AcceptView;

    open spec fn view(&self) -> AcceptView {
        match *self {
            Accept::Sent(accepting, packet) => AcceptView::Sent(accepting@, packet@),
            Accept::Accepted(session, packet) => AcceptView::Accepted(session@, packet@),
            Accept::Refused(packet, error) => AcceptView::Refused(
                ttc::packet_view(packet),
                error@,
            ),
        }
    }
}

/// What the message that is due, which must be of `tag`, comes to.
pub open spec fn request_in(packet: Option<PacketView>, tag: u8) -> Result<MessageView, Fault> {
    match ttc::message_due(packet) {
        Err(fault) => Err(fault),
        Ok(message) => if message.tag == tag {
            Ok(message)
        } else {
            Err(
                Fault::protocol(
                    "a message with tag "@ + text::hex_byte(message.tag) + " where "@
                        + text::hex_byte(tag) + " was due"@,
                ),
            )
        },
    }
}

/// What an error message of `code` saying `message` is.
pub open spec fn error_packet(code: nat, message: Seq<char>) -> PacketView {
    ttc::message_packet(
        tag::ERROR,
        ttc::counted_bytes(wire::be(code, 4)) + ttc::string_bytes(message),
    )
}

/// What a status of `rows` is.
pub open spec fn status_packet(rows: nat) -> PacketView {
    ttc::message_packet(tag::STATUS, ttc::counted_bytes(wire::be(rows, 8)))
}

/// Whether `user` who answered `offered` may log in, where the session key
/// was asked for by the user of `state`.
pub open spec fn admits(state: AcceptingView, user: Seq<char>, offered: Seq<u8>) -> bool {
    &&& user == state.user
    &&& match state.expected {
        Some(login) => {
            &&& user == login.user
            &&& offered == ttc::answer_to(state.challenge, encode_utf8(login.password))
        },
        None => true,
    }
}

/// What a user who is not let in is told.
pub open spec fn denial(user: Seq<char>) -> Seq<char> {
    "invalid username/password for '"@ + user + "'; logon denied"@
}

/// What a client that authenticates with `body` comes to.
pub open spec fn verdict(state: AcceptingView, body: Seq<u8>) -> AcceptView {
    match ttc::string_in(body) {
        Err(fault) => AcceptView::Refused(None, fault),
        Ok((user, left)) => match ttc::counted_in(left) {
            Err(fault) => AcceptView::Refused(None, fault),
            Ok((offered, _)) => if admits(state, user, offered) {
                AcceptView::Accepted(
                    SessionView {
                        peer: state.peer,
                        user,
                        service: state.service,
                        columns: Seq::empty(),
                        rows: Seq::empty(),
                    },
                    ttc::message_packet(tag::AUTH_ACCEPTED, Seq::empty()),
                )
            } else {
                AcceptView::Refused(
                    Some(error_packet(INVALID_CREDENTIAL as nat, denial(user))),
                    Fault::permanent("ORA-01017: "@ + denial(user)),
                )
            },
        },
    }
}

/// One step of accepting: `packet` is what the client sent.
pub open spec fn accept_step(state: AcceptingView, packet: Option<PacketView>) -> AcceptView {
    match state.phase {
        Phase::Connect => match packet {
            None => AcceptView::Refused(None, tns::closed_fault()),
            Some(packet) => if packet.kind != tns::CONNECT {
                AcceptView::Refused(
                    Some(tns::refuse_packet("ORA-12514: no service"@)),
                    Fault::protocol("a first packet that is not a connect"@),
                )
            } else {
                match tns::connect_in(packet) {
                    Err(fault) => AcceptView::Refused(None, fault),
                    Ok(connect_string) => AcceptView::Sent(
                        AcceptingView {
                            phase: Phase::Protocol,
                            service: service_named(connect_string),
                            ..state
                        },
                        tns::accept_packet(),
                    ),
                }
            },
        },
        Phase::Protocol => match request_in(packet, tag::PROTOCOL) {
            Err(fault) => AcceptView::Refused(None, fault),
            Ok(message) => match ttc::string_in(message.body) {
                Err(fault) => AcceptView::Refused(None, fault),
                Ok(_) => AcceptView::Sent(
                    AcceptingView { phase: Phase::DataTypes, ..state },
                    ttc::message_packet(tag::PROTOCOL, ttc::string_bytes(SERVER_BANNER@)),
                ),
            },
        },
        Phase::DataTypes => match request_in(packet, tag::DATA_TYPES) {
            Err(fault) => AcceptView::Refused(None, fault),
            Ok(_) => AcceptView::Sent(
                AcceptingView { phase: Phase::KeyRequest, ..state },
                ttc::message_packet(tag::DATA_TYPES, Seq::empty()),
            ),
        },
        Phase::KeyRequest => match request_in(packet, tag::SESSION_KEY_REQUEST) {
            Err(fault) => AcceptView::Refused(None, fault),
            Ok(message) => match ttc::string_in(message.body) {
                Err(fault) => AcceptView::Refused(None, fault),
                Ok((user, _)) => AcceptView::Sent(
                    AcceptingView { phase: Phase::Authenticate, user, ..state },
                    ttc::message_packet(tag::SESSION_KEY, ttc::counted_bytes(state.challenge)),
                ),
            },
        },
        Phase::Authenticate => match request_in(packet, tag::AUTHENTICATE) {
            Err(fault) => AcceptView::Refused(None, fault),
            Ok(message) => verdict(state, message.body),
        },
    }
}

/// The next message, which must be of `tag`.
///
/// # Errors
/// Where the client closed or sent another message.
pub fn expect(packet: &Option<Packet>, tag: u8) -> (read: Result<Message, TransportError>)
    ensures
        match read {
            Ok(message) => request_in(ttc::packet_view(*packet), tag) == Ok::<_, Fault>(message@),
            Err(error) => request_in(ttc::packet_view(*packet), tag) == Err::<MessageView, _>(
                error@,
            ),
        },
{
    let message = match Message::due(packet) {
        Ok(message) => message,
        Err(error) => return Err(error),
    };
    if message.tag == tag {
        return Ok(message);
    }
    let mut text = "a message with tag ".to_owned();
    text.append(hex_byte_text(message.tag).as_str());
    text.append(" where ");
    text.append(hex_byte_text(tag).as_str());
    text.append(" was due");
    Err(protocol_error(text))
}

/// The error message of `code` saying `message`.
pub fn send_error(code: u32, message: &str) -> (packet: Packet)
    ensures
        packet@ == error_packet(code as nat, message@),
{
    let mut number: Vec<u8> = Vec::new();
    put_be(&mut number, code as u64, 4);
    assert(number@ =~= wire::be(code as nat, 4));
    let mut body: Vec<u8> = Vec::new();
    body.counted(number.as_slice());
    body.string(message);
    assert(body@ =~= ttc::counted_bytes(wire::be(code as nat, 4)) + ttc::string_bytes(message@));
    packet_of(tag::ERROR, body)
}

/// The status of `rows`.
pub fn send_status(rows: u64) -> (packet: Packet)
    ensures
        packet@ == status_packet(rows as nat),
{
    let mut number: Vec<u8> = Vec::new();
    put_be(&mut number, rows, 8);
    assert(number@ =~= wire::be(rows as nat, 8));
    let mut body: Vec<u8> = Vec::new();
    body.counted(number.as_slice());
    assert(body@ =~= ttc::counted_bytes(wire::be(rows as nat, 8)));
    packet_of(tag::STATUS, body)
}

impl Accepting {
    /// The next step: `packet` is what the client sent, none where it
    /// closed.
    pub fn next(self, packet: Option<Packet>) -> (step: Accept)
        ensures
            step@ == accept_step(self@, ttc::packet_view(packet)),
    {
        match self.phase {
            Phase::Connect => self.connected(packet),
            Phase::Protocol => self.negotiated(packet),
            Phase::DataTypes => self.agreed(packet),
            Phase::KeyRequest => self.asked(packet),
            Phase::Authenticate => self.authenticate(packet),
        }
    }

    fn connected(self, packet: Option<Packet>) -> (step: Accept)
        requires
            self@.phase == Phase::Connect,
        ensures
            step@ == accept_step(self@, ttc::packet_view(packet)),
    {
        let connect = match Packet::due(packet) {
            Ok(connect) => connect,
            Err(error) => return Accept::Refused(None, error),
        };
        if connect.kind != tns::CONNECT {
            return Accept::Refused(
                Some(tns::refuse("ORA-12514: no service")),
                protocol_error("a first packet that is not a connect".to_owned()),
            );
        }
        let connect_string = match tns::read_connect(&connect) {
            Ok(connect_string) => connect_string,
            Err(error) => return Accept::Refused(None, error),
        };
        let mut accepting = self;
        accepting.service = service_name(connect_string.as_str());
        accepting.phase = Phase::Protocol;
        Accept::Sent(accepting, tns::accept())
    }

    fn negotiated(self, packet: Option<Packet>) -> (step: Accept)
        requires
            self@.phase == Phase::Protocol,
        ensures
            step@ == accept_step(self@, ttc::packet_view(packet)),
    {
        let protocol = match expect(&packet, tag::PROTOCOL) {
            Ok(protocol) => protocol,
            Err(error) => return Accept::Refused(None, error),
        };
        match protocol.cursor().string() {
            Ok(_) => {},
            Err(error) => return Accept::Refused(None, error),
        }
        let mut answer: Vec<u8> = Vec::new();
        answer.string(SERVER_BANNER);
        assert(answer@ =~= ttc::string_bytes(SERVER_BANNER@));
        let mut accepting = self;
        accepting.phase = Phase::DataTypes;
        Accept::Sent(accepting, packet_of(tag::PROTOCOL, answer))
    }

    fn agreed(self, packet: Option<Packet>) -> (step: Accept)
        requires
            self@.phase == Phase::DataTypes,
        ensures
            step@ == accept_step(self@, ttc::packet_view(packet)),
    {
        match expect(&packet, tag::DATA_TYPES) {
            Ok(_) => {},
            Err(error) => return Accept::Refused(None, error),
        }
        let mut accepting = self;
        accepting.phase = Phase::KeyRequest;
        Accept::Sent(accepting, packet_of(tag::DATA_TYPES, Vec::new()))
    }

    fn asked(self, packet: Option<Packet>) -> (step: Accept)
        requires
            self@.phase == Phase::KeyRequest,
        ensures
            step@ == accept_step(self@, ttc::packet_view(packet)),
    {
        let request = match expect(&packet, tag::SESSION_KEY_REQUEST) {
            Ok(request) => request,
            Err(error) => return Accept::Refused(None, error),
        };
        let user = match request.cursor().string() {
            Ok(user) => user,
            Err(error) => return Accept::Refused(None, error),
        };
        let mut key: Vec<u8> = Vec::new();
        key.counted(self.challenge.as_slice());
        assert(key@ =~= ttc::counted_bytes(self@.challenge));
        let mut accepting = self;
        accepting.user = user;
        accepting.phase = Phase::Authenticate;
        Accept::Sent(accepting, packet_of(tag::SESSION_KEY, key))
    }

    fn authenticate(self, packet: Option<Packet>) -> (step: Accept)
        requires
            self@.phase == Phase::Authenticate,
        ensures
            step@ == accept_step(self@, ttc::packet_view(packet)),
    {
        let auth = match expect(&packet, tag::AUTHENTICATE) {
            Ok(auth) => auth,
            Err(error) => return Accept::Refused(None, error),
        };
        let mut reader = auth.cursor();
        let user = match reader.string() {
            Ok(user) => user,
            Err(error) => return Accept::Refused(None, error),
        };
        let offered = match reader.counted() {
            Ok(offered) => offered,
            Err(error) => return Accept::Refused(None, error),
        };
        let accepted = match &self.expected {
            Some(login) => {
                let due = logon_verifier(&self.challenge, login.password.as_str().as_bytes());
                same_text(user.as_str(), login.user.as_str()) && same_bytes(
                    offered,
                    due.as_slice(),
                )
            },
            None => true,
        };
        if !accepted || !same_text(user.as_str(), self.user.as_str()) {
            let mut message = "invalid username/password for '".to_owned();
            message.append(user.as_str());
            message.append("'; logon denied");
            let mut text = "ORA-01017: ".to_owned();
            text.append(message.as_str());
            return Accept::Refused(
                Some(send_error(INVALID_CREDENTIAL, message.as_str())),
                TransportError::permanent(text),
            );
        }
        let session = Session {
            peer: self.peer,
            user,
            service: self.service,
            columns: Vec::new(),
            rows: Vec::new(),
        };
        assert(session@.columns =~= Seq::empty());
        assert(session@.rows =~= Seq::empty());
        Accept::Accepted(session, packet_of(tag::AUTH_ACCEPTED, Vec::new()))
    }
}

// Accepted.

/// A session whose client is logged in, and the table it answers from.
pub struct Session {
    peer: String,
    user: String,
    service: String,
    columns: Vec<String>,
    rows: Vec<Vec<Option<Vec<u8>>>>,
}

/// What a [`Session`] holds, as contracts speak of it.
pub struct SessionView {
    pub peer: Seq<char>,
    pub user: Seq<char>,
    pub service: Seq<char>,
    pub columns: Seq<Seq<char>>,
    pub rows: Seq<Seq<Option<Seq<u8>>>>,
}

impl View for Session {
    type V = SessionView;

    closed spec fn view(&self) -> SessionView {
        SessionView {
            peer: self.peer@,
            user: self.user@,
            service: self.service@,
            columns: sql::texts_view(self.columns@),
            rows: sql::rows_view(self.rows@),
        }
    }
}

/// A statement the client ran, and what it bound.
pub struct Statement {
    pub sql: String,
    pub bind: Option<Vec<u8>>,
}

/// What a [`Statement`] is, as contracts speak of it.
pub struct StatementView {
    pub sql: Seq<char>,
    pub bind: Option<Seq<u8>>,
}

impl View for Statement {
    type V = StatementView;

    open spec fn view(&self) -> StatementView {
        StatementView { sql: self.sql@, bind: ttc::value_view(self.bind) }
    }
}

/// The statement the client ran; none where it logged off.
pub open spec fn statement_in(packet: Option<PacketView>) -> Result<Option<StatementView>, Fault> {
    match ttc::message_sent(packet) {
        Err(fault) => Err(fault),
        Ok(None) => Ok(None),
        Ok(Some(message)) => if message.tag == tag::LOGOFF {
            Ok(None)
        } else if message.tag != tag::EXECUTE {
            Err(
                Fault::protocol(
                    "a message with tag "@ + text::hex_byte(message.tag) + " after the login"@,
                ),
            )
        } else {
            match ttc::string_in(message.body) {
                Err(fault) => Err(fault),
                Ok((sql, left)) => match ttc::value_in(left) {
                    Err(fault) => Err(fault),
                    Ok((bind, _)) => Ok(Some(StatementView { sql, bind })),
                },
            }
        },
    }
}

/// Where a Stream that the client of `session` inserted came from.
pub open spec fn insert_origin(session: SessionView, sql: Seq<char>) -> Seq<char> {
    "oracle://"@ + session.peer + "/"@ + table_named(sql)
}

/// How `statement` is answered, and what it was. What `answered` gives goes
/// first; what it declines falls to the table. A SELECT is reported as one
/// either way, an INSERT only where it fell to the table: one that `answered`
/// took is reported as executed.
pub open spec fn answer_of(
    session: SessionView,
    statement: StatementView,
    answered: Option<AnswerView>,
) -> (AnswerView, EventView) {
    match answered {
        Some(answer) => (
            answer,
            if sql::has_verb(statement.sql, "SELECT"@) {
                EventView::Selected(statement.sql)
            } else {
                EventView::Executed(statement.sql)
            },
        ),
        None => if sql::has_verb(statement.sql, "SELECT"@) {
            (
                AnswerView::Rows { columns: session.columns, rows: session.rows },
                EventView::Selected(statement.sql),
            )
        } else if sql::has_verb(statement.sql, "INSERT"@) {
            (
                AnswerView::Complete(1),
                EventView::Inserted(
                    ArrivedView {
                        origin_uri: insert_origin(session, statement.sql),
                        bytes: match statement.bind {
                            Some(bytes) => bytes,
                            None => Seq::empty(),
                        },
                    },
                ),
            )
        } else {
            (AnswerView::Complete(0), EventView::Executed(statement.sql))
        },
    }
}

/// Names, each as it is written.
pub open spec fn encoded(names: Seq<Seq<char>>) -> Seq<Seq<u8>> {
    Seq::new(names.len(), |i: int| encode_utf8(names[i]))
}

/// What describing `columns` is.
pub open spec fn describe_packet(columns: Seq<Seq<char>>) -> PacketView {
    ttc::message_packet(
        tag::DESCRIBE,
        wire::count_of(columns.len()) + ttc::counted_runs(encoded(columns)),
    )
}

/// What `row` is.
pub open spec fn row_packet(row: Seq<Option<Seq<u8>>>) -> PacketView {
    ttc::message_packet(tag::ROW, wire::count_of(row.len()) + ttc::value_runs(row))
}

/// What `rows` are.
pub open spec fn row_packets(rows: Seq<Seq<Option<Seq<u8>>>>) -> Seq<PacketView> {
    Seq::new(rows.len(), |i: int| row_packet(rows[i]))
}

/// What is sent to answer: the columns, each row and a status, or one
/// packet that says what became of the statement.
pub open spec fn answer_packets(answer: AnswerView) -> Seq<PacketView> {
    match answer {
        AnswerView::Rows { columns, rows } => (seq![describe_packet(columns)] + row_packets(
            rows,
        )).push(status_packet(rows.len())),
        AnswerView::Complete(rows) => seq![status_packet(rows)],
        AnswerView::Error { code, message } => seq![error_packet(code, message)],
    }
}

impl Session {
    /// Accept one client, which `peer` names, and log it in: against
    /// `expected` where there is one, taking any login where there is not.
    /// The clock at `nanos` and the number of the session make its
    /// challenge.
    #[must_use]
    pub fn accept(peer: &str, expected: Option<&Login>, nanos: u128, session: u32) -> (accepting:
        Accepting)
        ensures
            accepting@ == crate::session::accepting(
                peer@,
                match expected {
                    Some(login) => Some(login@),
                    None => None,
                },
                challenge_for(nanos as nat, peer@, session as nat),
            ),
    {
        Accepting {
            phase: Phase::Connect,
            peer: peer.to_owned(),
            expected: match expected {
                Some(login) => Some(login.copy()),
                None => None,
            },
            challenge: fresh_challenge(nanos, peer, session),
            service: String::new(),
            user: String::new(),
        }
    }

    /// The user the client logged in as.
    #[must_use]
    pub fn user(&self) -> (user: &str)
        ensures
            user@ == self@.user,
    {
        self.user.as_str()
    }

    /// The service the connect named.
    #[must_use]
    pub fn service(&self) -> (service: &str)
        ensures
            service@ == self@.service,
    {
        self.service.as_str()
    }

    /// Answer any SELECT with these `columns` and `rows`.
    #[must_use]
    pub fn with_table(self, columns: &[&str], rows: &[&[Option<&[u8]>]]) -> (session: Self)
        ensures
            session@ == (SessionView {
                columns: text::views(columns@),
                rows: sql::borrowed_rows(rows@),
                ..self@
            }),
    {
        let (columns, rows) = sql::table(columns, rows);
        let mut session = self;
        session.columns = columns;
        session.rows = rows;
        session
    }

    /// The statement `packet` carries, `None` where the client logged off.
    ///
    /// # Errors
    /// Where the client sent a message this crate does not serve.
    pub fn statement(packet: &Option<Packet>) -> (read: Result<Option<Statement>, TransportError>)
        ensures
            match read {
                Ok(Some(statement)) => statement_in(ttc::packet_view(*packet)) == Ok::<_, Fault>(
                    Some(statement@),
                ),
                Ok(None) => statement_in(ttc::packet_view(*packet)) == Ok::<_, Fault>(
                    None::<StatementView>,
                ),
                Err(error) => statement_in(ttc::packet_view(*packet)) == Err::<
                    Option<StatementView>,
                    _,
                >(error@),
            },
    {
        let message = match Message::sent(packet) {
            Ok(Some(message)) => message,
            Ok(None) => return Ok(None),
            Err(error) => return Err(error),
        };
        if message.tag == tag::LOGOFF {
            return Ok(None);
        }
        if message.tag != tag::EXECUTE {
            let mut text = "a message with tag ".to_owned();
            text.append(hex_byte_text(message.tag).as_str());
            text.append(" after the login");
            return Err(protocol_error(text));
        }
        let mut reader = message.cursor();
        let sql = match reader.string() {
            Ok(sql) => sql,
            Err(error) => return Err(error),
        };
        let bind = match reader.value() {
            Ok(bind) => bind,
            Err(error) => return Err(error),
        };
        Ok(Some(Statement { sql, bind }))
    }

    /// How `statement` is answered, and what it was. What `answered` gives
    /// goes first; what it declines falls to the table. A SELECT is reported
    /// as one either way, an INSERT only where it fell to the table: one that
    /// `answered` took is reported as executed.
    pub fn answer(&self, statement: Statement, answered: Option<Answer>) -> (outcome: (
        Answer,
        Event,
    ))
        ensures
            (outcome.0@, outcome.1@) == answer_of(self@, statement@, answered_view(answered)),
    {
        let sql = statement.sql;
        let selects = verb_is(sql.as_str(), "SELECT");
        if let Some(answer) = answered {
            if selects {
                return (answer, Event::Selected(sql));
            }
            return (answer, Event::Executed(sql));
        }
        if selects {
            (
                Answer::Rows { columns: copy_texts(&self.columns), rows: copy_rows(&self.rows) },
                Event::Selected(sql),
            )
        } else if verb_is(sql.as_str(), "INSERT") {
            let mut origin_uri = "oracle://".to_owned();
            origin_uri.append(self.peer.as_str());
            origin_uri.append("/");
            origin_uri.append(table_of(sql.as_str()).as_str());
            let bytes: Vec<u8> = match statement.bind {
                Some(bytes) => bytes,
                None => Vec::new(),
            };
            (Answer::Complete(1), Event::Inserted(Arrived { origin_uri, bytes }))
        } else {
            (Answer::Complete(0), Event::Executed(sql))
        }
    }

    /// The statement `packet` carries, answered: what the client did and
    /// what to send it, or `None` where it logged off. `answering` is asked
    /// first; what it declines falls to the table.
    ///
    /// # Errors
    /// Where the client sent a message this crate does not serve.
    pub fn next_event<F: FnOnce(&str) -> Option<Answer>>(
        &self,
        packet: Option<Packet>,
        answering: F,
    ) -> (read: Result<Option<(Event, Vec<Packet>)>, TransportError>)
        requires
            forall|sql: &str| call_requires(answering, (sql,)),
        ensures
            match statement_in(ttc::packet_view(packet)) {
                Err(fault) => read matches Err(error) && error@ == fault,
                Ok(None) => read == Ok::<Option<(Event, Vec<Packet>)>, TransportError>(None),
                Ok(Some(statement)) => {
                    &&& read matches Ok(Some(done))
                    &&& exists|sql: &str, answered: Option<Answer>|
                        {
                            &&& sql@ == statement.sql
                            &&& #[trigger] call_ensures(answering, (sql,), answered)
                            &&& done.0@ == answer_of(
                                self@,
                                statement,
                                answered_view(answered),
                            ).1
                            &&& tns::packets_view(done.1@) == answer_packets(
                                answer_of(self@, statement, answered_view(answered)).0,
                            )
                        }
                },
            },
    {
        let statement = match Self::statement(&packet) {
            Ok(Some(statement)) => statement,
            Ok(None) => return Ok(None),
            Err(error) => return Err(error),
        };
        let sql = statement.sql.clone();
        let answered = answering(sql.as_str());
        let (answer, event) = self.answer(statement, answered);
        let packets = write_answer(&answer);
        Ok(Some((event, packets)))
    }
}

/// What is sent to answer with `answer`.
pub fn write_answer(answer: &Answer) -> (packets: Vec<Packet>)
    ensures
        tns::packets_view(packets@) == answer_packets(answer@),
{
    let mut packets: Vec<Packet> = Vec::new();
    match answer {
        Answer::Rows { columns, rows } => {
            packets.push(write_columns(columns));
            let ghost head = seq![describe_packet(sql::texts_view(columns@))];
            let ghost all = row_packets(sql::rows_view(rows@));
            let mut i: usize = 0;
            assert(tns::packets_view(packets@) =~= head + all.take(0));
            while i < rows.len()
                invariant
                    i <= rows@.len(),
                    all == row_packets(sql::rows_view(rows@)),
                    tns::packets_view(packets@) == head + all.take(i as int),
                decreases rows@.len() - i,
            {
                let ghost earlier = tns::packets_view(packets@);
                let packet = write_row(&rows[i]);
                packets.push(packet);
                i = i + 1;
                assert(tns::packets_view(packets@) =~= earlier.push(packet@));
                assert(tns::packets_view(packets@) =~= head + all.take(i as int));
            }
            let ghost earlier = tns::packets_view(packets@);
            let status = send_status(rows.len() as u64);
            packets.push(status);
            assert(tns::packets_view(packets@) =~= earlier.push(status@));
            assert(all.take(i as int) =~= all);
        },
        Answer::Complete(rows) => {
            packets.push(send_status(*rows));
            assert(tns::packets_view(packets@) =~= answer_packets(answer@));
        },
        Answer::Error { code, message } => {
            packets.push(send_error(*code, message.as_str()));
            assert(tns::packets_view(packets@) =~= answer_packets(answer@));
        },
    }
    packets
}

fn write_columns(columns: &Vec<String>) -> (packet: Packet)
    ensures
        packet@ == describe_packet(sql::texts_view(columns@)),
{
    let ghost names = encoded(sql::texts_view(columns@));
    let mut describe: Vec<u8> = Vec::new();
    describe.count(columns.len());
    let mut i: usize = 0;
    assert(names.take(0) =~= Seq::empty());
    assert(describe@ =~= wire::count_of(names.len()) + ttc::counted_runs(names.take(0)));
    while i < columns.len()
        invariant
            i <= columns@.len(),
            names == encoded(sql::texts_view(columns@)),
            describe@ == wire::count_of(names.len()) + ttc::counted_runs(names.take(i as int)),
        decreases columns@.len() - i,
    {
        describe.string(columns[i].as_str());
        proof {
            let name = names[i as int];
            ttc::lemma_counted_runs_push(names.take(i as int), name);
            assert(names.take(i + 1) =~= names.take(i as int).push(name));
            assert(describe@ =~= wire::count_of(names.len()) + ttc::counted_runs(
                names.take(i + 1),
            ));
        }
        i = i + 1;
    }
    assert(names.take(i as int) =~= names);
    packet_of(tag::DESCRIBE, describe)
}

fn write_row(row: &Vec<Option<Vec<u8>>>) -> (packet: Packet)
    ensures
        packet@ == row_packet(sql::row_view(row@)),
{
    let ghost values = sql::row_view(row@);
    let mut body: Vec<u8> = Vec::new();
    body.count(row.len());
    let mut i: usize = 0;
    assert(values.take(0) =~= Seq::empty());
    assert(body@ =~= wire::count_of(values.len()) + ttc::value_runs(values.take(0)));
    while i < row.len()
        invariant
            i <= row@.len(),
            values == sql::row_view(row@),
            body@ == wire::count_of(values.len()) + ttc::value_runs(values.take(i as int)),
        decreases row@.len() - i,
    {
        let value: Option<&[u8]> = match &row[i] {
            Some(bytes) => Some(bytes.as_slice()),
            None => None,
        };
        body.value(value);
        proof {
            let last = values[i as int];
            ttc::lemma_value_runs_push(values.take(i as int), last);
            assert(values.take(i + 1) =~= values.take(i as int).push(last));
            assert(body@ =~= wire::count_of(values.len()) + ttc::value_runs(values.take(i + 1)));
        }
        i = i + 1;
    }
    assert(values.take(i as int) =~= values);
    packet_of(tag::ROW, body)
}

// What a session does, by the characters of a statement and the numbers on
// the wire.

/// What each statement is answered, told by how it opens. What answers first
/// stands. Otherwise one that opens with the word SELECT, in whatever case
/// and behind whatever white space, gets the session's columns and rows, all
/// of them; one that opens with INSERT is one row, and what was bound arrives
/// whole, nothing where nothing was; any other is done with no rows.
pub proof fn law_statement_is_told_apart(
    session: SessionView,
    statement: StatementView,
    answered: Option<AnswerView>,
)
    ensures
        ({
            let selects = exists|at: int| sql::opens_with(statement.sql, "SELECT"@, at);
            let inserts = exists|at: int| sql::opens_with(statement.sql, "INSERT"@, at);
            let (answer, event) = answer_of(session, statement, answered);
            if answered is Some {
                &&& answer == answered->0
                &&& selects ==> event == EventView::Selected(statement.sql)
                &&& !selects ==> event == EventView::Executed(statement.sql)
            } else if selects {
                &&& answer == (AnswerView::Rows { columns: session.columns, rows: session.rows })
                &&& event == EventView::Selected(statement.sql)
            } else if inserts {
                &&& answer == AnswerView::Complete(1)
                &&& event matches EventView::Inserted(arrived)
                &&& statement.bind is Some ==> arrived.bytes == statement.bind->0
                &&& statement.bind is None ==> arrived.bytes.len() == 0
                &&& arrived.origin_uri == "oracle://"@ + session.peer + "/"@ + table_named(
                    statement.sql,
                )
            } else {
                &&& answer == AnswerView::Complete(0)
                &&& event == EventView::Executed(statement.sql)
            }
        }),
{
    reveal_strlit("SELECT");
    reveal_strlit("INSERT");
    sql::law_verb(statement.sql, "SELECT"@);
    sql::law_verb(statement.sql, "INSERT"@);
}

/// A statement that is white space, then S, E, L, E, C and T in whatever
/// case, then white space and anything or nothing, gets the session's table,
/// whatever was bound.
pub proof fn law_select_by_its_letters(
    session: SessionView,
    gap: Seq<char>,
    verb: Seq<char>,
    rest: Seq<char>,
    bind: Option<Seq<u8>>,
)
    requires
        forall|i: int| 0 <= i < gap.len() ==> text::blank(#[trigger] gap[i]),
        verb.len() == 6,
        text::either_case(verb[0], 's'),
        text::either_case(verb[1], 'e'),
        text::either_case(verb[2], 'l'),
        text::either_case(verb[3], 'e'),
        text::either_case(verb[4], 'c'),
        text::either_case(verb[5], 't'),
        rest.len() == 0 || text::blank(rest[0]),
    ensures
        answer_of(session, StatementView { sql: gap + verb + rest, bind }, None) == (
            AnswerView::Rows { columns: session.columns, rows: session.rows },
            EventView::Selected(gap + verb + rest),
        ),
{
    reveal_strlit("SELECT");
    let sql = gap + verb + rest;
    lemma_opening(gap, verb, rest, "SELECT"@);
    law_statement_is_told_apart(session, StatementView { sql, bind }, None);
    assert(sql::opens_with(sql, "SELECT"@, gap.len() as int));
}

/// A statement that is white space, then I, N, S, E, R and T in whatever
/// case, then white space and anything or nothing, is reported as a Stream:
/// the bytes that were bound, every one.
pub proof fn law_insert_by_its_letters(
    session: SessionView,
    gap: Seq<char>,
    verb: Seq<char>,
    rest: Seq<char>,
    bytes: Seq<u8>,
)
    requires
        forall|i: int| 0 <= i < gap.len() ==> text::blank(#[trigger] gap[i]),
        verb.len() == 6,
        text::either_case(verb[0], 'i'),
        text::either_case(verb[1], 'n'),
        text::either_case(verb[2], 's'),
        text::either_case(verb[3], 'e'),
        text::either_case(verb[4], 'r'),
        text::either_case(verb[5], 't'),
        rest.len() == 0 || text::blank(rest[0]),
    ensures
        ({
            let sql = gap + verb + rest;
            let (answer, event) = answer_of(
                session,
                StatementView { sql, bind: Some(bytes) },
                None,
            );
            &&& answer == AnswerView::Complete(1)
            &&& event == EventView::Inserted(
                ArrivedView {
                    origin_uri: "oracle://"@ + session.peer + "/"@ + table_named(sql),
                    bytes,
                },
            )
        }),
{
    reveal_strlit("SELECT");
    reveal_strlit("INSERT");
    let sql = gap + verb + rest;
    lemma_opening(gap, verb, rest, "INSERT"@);
    assert(sql::opens_with(sql, "INSERT"@, gap.len() as int));
    assert forall|at: int| !sql::opens_with(sql, "SELECT"@, at) by {
        lemma_one_opening(sql, "INSERT"@, gap.len() as int, "SELECT"@, at);
    }
    law_statement_is_told_apart(session, StatementView { sql, bind: Some(bytes) }, None);
}

proof fn lemma_opening(gap: Seq<char>, verb: Seq<char>, rest: Seq<char>, word: Seq<char>)
    requires
        forall|i: int| 0 <= i < gap.len() ==> text::blank(#[trigger] gap[i]),
        verb.len() == word.len(),
        verb.len() == 6,
        text::one_letter(verb[0], word[0]),
        text::one_letter(verb[1], word[1]),
        text::one_letter(verb[2], word[2]),
        text::one_letter(verb[3], word[3]),
        text::one_letter(verb[4], word[4]),
        text::one_letter(verb[5], word[5]),
        rest.len() == 0 || text::blank(rest[0]),
    ensures
        sql::opens_with(gap + verb + rest, word, gap.len() as int),
{
    let sql = gap + verb + rest;
    let at = gap.len() as int;
    assert forall|i: int| 0 <= i < at implies text::blank(#[trigger] sql[i]) by {
        assert(sql[i] == gap[i]);
    }
    assert forall|i: int| 0 <= i < word.len() implies #[trigger] text::one_letter(
        sql[at + i],
        word[i],
    ) by {
        assert(sql[at + i] == verb[i]);
    }
    if at > 0 {
        assert(text::blank(gap[at - 1]));
        assert(sql[at - 1] == gap[at - 1]);
    }
    if rest.len() > 0 {
        assert(sql[at + 6] == rest[0]);
    }
}

/// A statement opens with one word.
pub proof fn lemma_one_opening(sql: Seq<char>, a: Seq<char>, at: int, b: Seq<char>, other: int)
    requires
        a.len() > 0,
        b.len() > 0,
        !text::blank(a[0]),
        !text::blank(b[0]),
        !text::one_letter(a[0], b[0]),
        'A' <= a[0] <= 'Z',
        'A' <= b[0] <= 'Z',
        sql::opens_with(sql, a, at),
    ensures
        !sql::opens_with(sql, b, other),
{
    assert(text::one_letter(sql[at + 0], a[0]));
    assert(!text::blank(sql[at]));
    if sql::opens_with(sql, b, other) {
        assert(text::one_letter(sql[other + 0], b[0]));
        assert(!text::blank(sql[other]));
        if at < other {
            assert(text::blank(sql[at]));
        }
        if other < at {
            assert(text::blank(sql[other]));
        }
    }
}

/// The table of an INSERT is what follows its first INTO: the word behind it,
/// whatever white space keeps them apart, as far as a bracket, and `?` where
/// nothing stands before the bracket.
pub proof fn law_table_follows_into(
    front: Seq<char>,
    into: Seq<char>,
    gap: Seq<char>,
    word: Seq<char>,
    rest: Seq<char>,
)
    requires
        front.len() == 0 || text::blank(front.last()),
        forall|at: int| !text::word_at(front, at, "into"@),
        into.len() == 4,
        text::either_case(into[0], 'i'),
        text::either_case(into[1], 'n'),
        text::either_case(into[2], 't'),
        text::either_case(into[3], 'o'),
        gap.len() > 0,
        forall|i: int| 0 <= i < gap.len() ==> text::blank(#[trigger] gap[i]),
        word.len() > 0,
        forall|i: int| 0 <= i < word.len() ==> !text::blank(#[trigger] word[i]),
        rest.len() == 0 || text::blank(rest[0]),
    ensures
        ({
            let table = table_named(front + into + gap + word + rest);
            &&& word[0] == '(' ==> table == "?"@
            &&& word[0] != '(' ==> {
                &&& table.len() > 0
                &&& table.is_prefix_of(word)
                &&& !table.contains('(')
                &&& table.len() == word.len() || word[table.len() as int] == '('
            }
        }),
{
    let sql = front + into + gap + word + rest;
    lemma_words_behind_into(front, into, gap, word, rest);
    let bracket = Separator::One('(');
    text::law_before(word, bracket);
    let table = text::before(word, bracket);
    assert(table =~= word.subrange(0, table.len() as int));
    if word[0] == '(' {
        if table.len() > 0 {
            assert(!bracket.parts(word[0]));
        }
    } else {
        if table.len() == 0 {
            assert(bracket.parts(word[0]));
        }
        assert forall|i: int| 0 <= i < table.len() implies table[i] != '(' by {
            assert(!bracket.parts(word[i]));
        }
    }
}

/// Where no word is INTO, or nothing follows the one that is, no table is
/// plain to read.
pub proof fn law_no_table_without_into(front: Seq<char>, into: Seq<char>, gap: Seq<char>)
    requires
        forall|at: int| !text::word_at(front, at, "into"@),
        forall|i: int| 0 <= i < gap.len() ==> text::blank(#[trigger] gap[i]),
        into.len() == 4,
        text::either_case(into[0], 'i'),
        text::either_case(into[1], 'n'),
        text::either_case(into[2], 't'),
        text::either_case(into[3], 'o'),
    ensures
        table_named(front) == "?"@,
        front.len() == 0 || text::blank(front.last()) ==> table_named(front + into + gap) == "?"@,
{
    let white = Separator::White;
    let words = text::fields(front, white);
    lemma_no_into(front);
    lemma_word_after_none(words);
    if front.len() == 0 || text::blank(front.last()) {
        let sql = front + into + gap;
        lemma_into(into);
        if front.len() > 0 {
            text::law_separators(' ', ' ', front.last());
        }
        assert(sql =~= front + (into + gap));
        text::law_fields_join(front, into + gap, white);
        if gap.len() > 0 {
            text::law_separators(' ', ' ', gap[0]);
        }
        text::lemma_first_field(into, gap, white);
        assert forall|i: int| 0 <= i < gap.len() implies white.parts(#[trigger] gap[i]) by {
            text::law_separators(' ', ' ', gap[i]);
        }
        text::law_no_fields(gap, white);
        assert(text::fields(sql, white) =~= words + seq![into]);
        lemma_word_after_skips(words, seq![into]);
    }
}

proof fn lemma_into(into: Seq<char>)
    requires
        into.len() == 4,
        text::either_case(into[0], 'i'),
        text::either_case(into[1], 'n'),
        text::either_case(into[2], 't'),
        text::either_case(into[3], 'o'),
    ensures
        text::same_word(into, "into"@),
        forall|i: int| 0 <= i < 4 ==> !Separator::White.parts(#[trigger] into[i]),
{
    reveal_strlit("into");
    text::law_same_word(into, "into"@);
    assert forall|i: int| 0 <= i < into.len() implies #[trigger] text::one_letter(
        into[i],
        "into"@[i],
    ) by {
        assert(i == 0 || i == 1 || i == 2 || i == 3);
    }
    assert forall|i: int| 0 <= i < 4 implies !Separator::White.parts(#[trigger] into[i]) by {
        assert(i == 0 || i == 1 || i == 2 || i == 3);
        text::law_separators(' ', ' ', into[i]);
    }
}

proof fn lemma_no_into(front: Seq<char>)
    requires
        forall|at: int| !text::word_at(front, at, "into"@),
    ensures
        forall|k: int|
            0 <= k < text::fields(front, Separator::White).len() ==> !text::same_word(
                #[trigger] text::fields(front, Separator::White)[k],
                "into"@,
            ),
{
    let words = text::fields(front, Separator::White);
    assert forall|k: int| 0 <= k < words.len() implies !text::same_word(
        #[trigger] words[k],
        "into"@,
    ) by {
        if text::same_word(words[k], "into"@) {
            let at = text::lemma_word_stands(front, "into"@, k);
            assert(!text::word_at(front, at, "into"@));
        }
    }
}

proof fn lemma_word_after_none(words: Seq<Seq<char>>)
    requires
        forall|k: int| 0 <= k < words.len() ==> !text::same_word(#[trigger] words[k], "into"@),
    ensures
        word_after(words, "into"@) is None,
    decreases words.len(),
{
    if words.len() > 0 {
        let rest = words.drop_first();
        assert forall|k: int| 0 <= k < rest.len() implies !text::same_word(
            #[trigger] rest[k],
            "into"@,
        ) by {
            assert(rest[k] == words[k + 1]);
        }
        assert(!text::same_word(words[0], "into"@));
        lemma_word_after_none(rest);
    }
}

proof fn lemma_word_after_skips(words: Seq<Seq<char>>, rest: Seq<Seq<char>>)
    requires
        forall|k: int| 0 <= k < words.len() ==> !text::same_word(#[trigger] words[k], "into"@),
    ensures
        word_after(words + rest, "into"@) == word_after(rest, "into"@),
    decreases words.len(),
{
    if words.len() == 0 {
        assert(words + rest =~= rest);
    } else {
        let later = words.drop_first();
        assert forall|k: int| 0 <= k < later.len() implies !text::same_word(
            #[trigger] later[k],
            "into"@,
        ) by {
            assert(later[k] == words[k + 1]);
        }
        assert(!text::same_word(words[0], "into"@));
        lemma_word_after_skips(later, rest);
        assert((words + rest)[0] == words[0]);
        assert((words + rest).drop_first() =~= later + rest);
    }
}

proof fn lemma_words_behind_into(
    front: Seq<char>,
    into: Seq<char>,
    gap: Seq<char>,
    word: Seq<char>,
    rest: Seq<char>,
)
    requires
        front.len() == 0 || text::blank(front.last()),
        forall|at: int| !text::word_at(front, at, "into"@),
        into.len() == 4,
        text::either_case(into[0], 'i'),
        text::either_case(into[1], 'n'),
        text::either_case(into[2], 't'),
        text::either_case(into[3], 'o'),
        gap.len() > 0,
        forall|i: int| 0 <= i < gap.len() ==> text::blank(#[trigger] gap[i]),
        word.len() > 0,
        forall|i: int| 0 <= i < word.len() ==> !text::blank(#[trigger] word[i]),
        rest.len() == 0 || text::blank(rest[0]),
    ensures
        word_after(
            text::fields(front + into + gap + word + rest, Separator::White),
            "into"@,
        ) == Some(word),
{
    let white = Separator::White;
    let words = text::fields(front, white);
    let behind = gap + (word + rest);
    let sql = front + into + gap + word + rest;
    lemma_no_into(front);
    lemma_into(into);
    if front.len() > 0 {
        text::law_separators(' ', ' ', front.last());
    }
    assert(sql =~= front + (into + behind));
    text::law_fields_join(front, into + behind, white);
    text::law_separators(' ', ' ', gap[0]);
    assert(behind[0] == gap[0]);
    text::lemma_first_field(into, behind, white);
    assert forall|i: int| 0 <= i < gap.len() implies white.parts(#[trigger] gap[i]) by {
        text::law_separators(' ', ' ', gap[i]);
    }
    text::law_no_fields(gap, white);
    text::law_fields_join(gap, word + rest, white);
    assert forall|i: int| 0 <= i < word.len() implies !white.parts(#[trigger] word[i]) by {
        text::law_separators(' ', ' ', word[i]);
    }
    if rest.len() > 0 {
        text::law_separators(' ', ' ', rest[0]);
    }
    text::lemma_first_field(word, rest, white);
    let others = text::fields(rest, white);
    let tail = seq![into, word] + others;
    assert(text::fields(sql, white) =~= words + tail);
    lemma_word_after_skips(words, tail);
    assert(tail[0] == into && tail[1] == word);
}

/// The service of a connect string is what stands behind its first
/// `SERVICE_NAME=`, as far as a closing bracket, a space or the end, and all
/// of it; a connect string without one is the service itself.
pub proof fn law_service_follows_its_field(
    front: Seq<char>,
    service: Seq<char>,
    rest: Seq<char>,
)
    requires
        forall|i: int| 0 <= i < service.len() ==> #[trigger] service[i] != ')' && service[i] != ' ',
        rest.len() == 0 || rest[0] == ')' || rest[0] == ' ',
        forall|i: int|
            0 <= i < front.len() ==> !"SERVICE_NAME="@.is_prefix_of(
                #[trigger] (front + "SERVICE_NAME="@ + service + rest).skip(i),
            ),
    ensures
        service_named(front + "SERVICE_NAME="@ + service + rest) == service,
        (forall|i: int|
            0 <= i <= rest.len() ==> !"SERVICE_NAME="@.is_prefix_of(#[trigger] rest.skip(i)))
            ==> service_named(rest) == rest,
{
    let field = "SERVICE_NAME="@;
    let string = front + field + service + rest;
    let at = front.len();
    let stop = Separator::Either(')', ' ');
    assert(field =~= string.skip(at as int).subrange(0, field.len() as int));
    text::lemma_find_is(string, field, at);
    let behind = string.skip((at + field.len()) as int);
    assert(behind =~= service + rest);
    assert forall|i: int| 0 <= i < service.len() implies !stop.parts(#[trigger] behind[i]) by {
        assert(behind[i] == service[i]);
    }
    text::lemma_run_is(behind, stop, service.len());
    assert(behind.take(service.len() as int) =~= service);
    text::law_find(rest, field);
    if forall|i: int| 0 <= i <= rest.len() ==> !field.is_prefix_of(#[trigger] rest.skip(i)) {
        if let Some(found) = text::find(rest, field) {
            assert(field =~= rest.skip(found as int).subrange(0, field.len() as int));
            assert(field.is_prefix_of(rest.skip(found as int)));
        }
    }
}

/// What a challenge is, byte by byte. The text of the clock, a colon, the
/// peer, a colon and the number of the session are folded: each byte in turn
/// is added to the place that it falls on, over and over sixteen of them, and
/// the sum turned left by one. Twelve places of that, and then the number in
/// four bytes, most significant first, are the challenge.
pub proof fn law_challenge_is_folded(nanos: nat, peer: Seq<char>, session: nat, n: nat)
    requires
        session < 0x1_0000_0000,
    ensures
        ({
            let seed = encode_utf8(
                text::decimal(nanos) + ":"@ + peer + ":"@ + text::decimal(session),
            );
            let challenge = challenge_for(nanos, peer, session);
            &&& challenge.len() == 16
            &&& forall|i: int|
                0 <= i < 12 ==> #[trigger] challenge[i] == folded(seed, seed.len())[i]
            &&& challenge[12] == session / 0x100_0000
            &&& challenge[13] == session / 0x1_0000 % 256
            &&& challenge[14] == session / 256 % 256
            &&& challenge[15] == session % 256
            &&& forall|i: int| 0 <= i < 16 ==> #[trigger] folded(seed, 0)[i] == 0
            &&& n < seed.len() ==> {
                let old_block = folded(seed, n);
                let block = folded(seed, n + 1);
                let at = (n % 16) as int;
                let sum = ((old_block[at] + seed[n as int]) % 256) as u8;
                &&& block[at] == (sum << 1u8) | (sum >> 7u8)
                &&& forall|i: int| 0 <= i < 16 && i != at ==> #[trigger] block[i] == old_block[i]
            }
        }),
{
    let seed = encode_utf8(challenge_seed(nanos, peer, session));
    law_challenge_is_sixteen_bytes(nanos, peer, session);
    lemma_folded_len(seed, seed.len());
    lemma_folded_len(seed, n);
    wire::law_numbers_are_big_endian(session);
    let challenge = challenge_for(nanos, peer, session);
    assert(challenge[12] == wire::be(session, 4)[0]);
    assert(challenge[13] == wire::be(session, 4)[1]);
    assert(challenge[14] == wire::be(session, 4)[2]);
    assert(challenge[15] == wire::be(session, 4)[3]);
}

/// A session begins with who the peer is, the login that is demanded and the
/// challenge, and nothing else. A first packet whose type is not one is
/// refused, and told so; one whose type is one is accepted, and the service
/// that its connect string names is kept.
pub proof fn law_session_opens(
    peer: Seq<char>,
    expected: Option<LoginView>,
    challenge: Seq<u8>,
    packet: Option<PacketView>,
)
    ensures
        accepting(peer, expected, challenge) == (AcceptingView {
            phase: Phase::Connect,
            peer,
            expected,
            challenge,
            service: Seq::empty(),
            user: Seq::empty(),
        }),
        accept_step(accepting(peer, expected, challenge), packet) == match packet {
            None => AcceptView::Refused(
                None,
                Fault { message: "the peer closed the connection"@, retryable: false },
            ),
            Some(sent) => if sent.kind != 1 {
                AcceptView::Refused(
                    Some(tns::refuse_packet("ORA-12514: no service"@)),
                    Fault { message: "a first packet that is not a connect"@, retryable: false },
                )
            } else {
                match tns::connect_in(sent) {
                    Err(fault) => AcceptView::Refused(None, fault),
                    Ok(text) => AcceptView::Sent(
                        AcceptingView {
                            phase: Phase::Protocol,
                            peer,
                            expected,
                            challenge,
                            service: service_named(text),
                            user: Seq::empty(),
                        },
                        tns::accept_packet(),
                    ),
                }
            },
        },
{
}

/// What a message that a session waits for comes to, where one of `tag` was
/// due: itself where it is of that tag, and otherwise an error that tells
/// both tags and is not worth another attempt.
pub proof fn law_request_must_be_due(packet: Option<PacketView>, tag: u8)
    ensures
        request_in(packet, tag) == match ttc::message_due(packet) {
            Err(fault) => Err::<MessageView, Fault>(fault),
            Ok(message) => if message.tag == tag {
                Ok(message)
            } else {
                Err(
                    Fault {
                        message: "a message with tag "@ + text::hex_byte(message.tag) + " where "@
                            + text::hex_byte(tag) + " was due"@,
                        retryable: false,
                    },
                )
            },
        },
{
}

/// What a session makes of each message before the login. A version, tag one,
/// is answered with its own, tag one; data types, tag two, with tag two; the
/// request of a user for a session key, tag three, with the challenge whole,
/// tag four, and the user is kept. Nothing else of what it knows changes, and
/// nobody is let in.
pub proof fn law_session_leads(state: AcceptingView, packet: Option<PacketView>)
    requires
        state.phase != Phase::Connect,
        state.phase != Phase::Authenticate,
    ensures
        ({
            let due: u8 = match state.phase {
                Phase::Protocol => 1,
                Phase::DataTypes => 2,
                _ => 3,
            };
            match request_in(packet, due) {
                Err(fault) => accept_step(state, packet) == AcceptView::Refused(None, fault),
                Ok(message) => match state.phase {
                    Phase::Protocol => accept_step(state, packet) == match ttc::string_in(
                        message.body,
                    ) {
                        Err(fault) => AcceptView::Refused(None, fault),
                        Ok(_) => AcceptView::Sent(
                            AcceptingView {
                                phase: Phase::DataTypes,
                                peer: state.peer,
                                expected: state.expected,
                                challenge: state.challenge,
                                service: state.service,
                                user: state.user,
                            },
                            ttc::message_packet(1, ttc::string_bytes("Oracle Database (xmip)"@)),
                        ),
                    },
                    Phase::DataTypes => accept_step(state, packet) == AcceptView::Sent(
                        AcceptingView {
                            phase: Phase::KeyRequest,
                            peer: state.peer,
                            expected: state.expected,
                            challenge: state.challenge,
                            service: state.service,
                            user: state.user,
                        },
                        ttc::message_packet(2, Seq::empty()),
                    ),
                    _ => accept_step(state, packet) == match ttc::string_in(message.body) {
                        Err(fault) => AcceptView::Refused(None, fault),
                        Ok((user, _)) => AcceptView::Sent(
                            AcceptingView {
                                phase: Phase::Authenticate,
                                peer: state.peer,
                                expected: state.expected,
                                challenge: state.challenge,
                                service: state.service,
                                user,
                            },
                            ttc::message_packet(4, ttc::counted_bytes(state.challenge)),
                        ),
                    },
                },
            }
        }),
{
}

/// Who is let in: exactly a user who asked for the session key, and who,
/// where a login is demanded, is the one demanded and offers the answer that
/// the demanded password gives to this session's challenge, every byte. A
/// client that is not is told number 1017 and who it said it was, and so is
/// the session's owner. An offer that cannot be read lets nobody in either.
pub proof fn law_only_the_login_demanded(state: AcceptingView, packet: Option<PacketView>)
    requires
        state.phase == Phase::Authenticate,
    ensures
        match request_in(packet, 5) {
            Err(fault) => accept_step(state, packet) == AcceptView::Refused(None, fault),
            Ok(message) => match ttc::string_in(message.body) {
                Err(fault) => accept_step(state, packet) == AcceptView::Refused(None, fault),
                Ok((user, left)) => match ttc::counted_in(left) {
                    Err(fault) => accept_step(state, packet) == AcceptView::Refused(None, fault),
                    Ok((offered, _)) => {
                        let demanded = match state.expected {
                            None => true,
                            Some(login) => user == login.user && offered == ttc::answer_to(
                                state.challenge,
                                encode_utf8(login.password),
                            ),
                        };
                        let told = "invalid username/password for '"@ + user + "'; logon denied"@;
                        accept_step(state, packet) == if demanded && user == state.user {
                            AcceptView::Accepted(
                                SessionView {
                                    peer: state.peer,
                                    user,
                                    service: state.service,
                                    columns: Seq::empty(),
                                    rows: Seq::empty(),
                                },
                                ttc::message_packet(6, Seq::empty()),
                            )
                        } else {
                            AcceptView::Refused(
                                Some(error_packet(1017, told)),
                                Fault { message: "ORA-01017: "@ + told, retryable: false },
                            )
                        }
                    },
                },
            },
        },
{
}

/// What answers are on the wire. Rows are one message of tag eight that names
/// every column, one of tag nine for every row in order with every value of
/// it, and one of tag ten with how many rows there were; what is done is that
/// last message alone; an error is one of tag eleven with its number in four
/// bytes and its text.
pub proof fn law_answer_on_the_wire(
    columns: Seq<Seq<char>>,
    rows: Seq<Seq<Option<Seq<u8>>>>,
    n: nat,
    message: Seq<char>,
)
    ensures
        ({
            let packets = answer_packets(AnswerView::Rows { columns, rows });
            let names = Seq::new(columns.len(), |i: int| encode_utf8(columns[i]));
            &&& packets.len() == rows.len() + 2
            &&& packets[0] == ttc::message_packet(
                8,
                wire::count_of(columns.len()) + ttc::counted_runs(names),
            )
            &&& forall|i: int|
                0 <= i < rows.len() ==> packets[i + 1] == #[trigger] ttc::message_packet(
                    9,
                    wire::count_of(rows[i].len()) + ttc::value_runs(rows[i]),
                )
            &&& packets.last() == ttc::message_packet(
                10,
                ttc::counted_bytes(wire::be(rows.len(), 8)),
            )
        }),
        answer_packets(AnswerView::Complete(n)) == seq![
            ttc::message_packet(10, ttc::counted_bytes(wire::be(n, 8))),
        ],
        answer_packets(AnswerView::Error { code: n, message }) == seq![
            ttc::message_packet(
                11,
                ttc::counted_bytes(wire::be(n, 4)) + ttc::string_bytes(message),
            ),
        ],
        error_packet(n, message) == ttc::message_packet(
            11,
            ttc::counted_bytes(wire::be(n, 4)) + ttc::string_bytes(message),
        ),
{
    let names = Seq::new(columns.len(), |i: int| encode_utf8(columns[i]));
    assert(encoded(columns) =~= names);
}

/// What a client sent, once it is logged in: under tag seven a statement and
/// what it bound, both whole; under tag twelve, with a goodbye or with
/// nothing, its leave; under any other tag an error that tells it and is not
/// worth another attempt.
pub proof fn law_statement_is_read(packet: Option<PacketView>)
    ensures
        match ttc::message_sent(packet) {
            Err(fault) => statement_in(packet) == Err::<Option<StatementView>, _>(fault),
            Ok(None) => statement_in(packet) == Ok::<_, Fault>(None::<StatementView>),
            Ok(Some(message)) => if message.tag == 12 {
                statement_in(packet) == Ok::<_, Fault>(None::<StatementView>)
            } else if message.tag != 7 {
                statement_in(packet) == Err::<Option<StatementView>, _>(
                    Fault {
                        message: "a message with tag "@ + text::hex_byte(message.tag)
                            + " after the login"@,
                        retryable: false,
                    },
                )
            } else {
                match ttc::string_in(message.body) {
                    Err(fault) => statement_in(packet) == Err::<Option<StatementView>, _>(fault),
                    Ok((sql, left)) => match ttc::value_in(left) {
                        Err(fault) => statement_in(packet) == Err::<Option<StatementView>, _>(
                            fault,
                        ),
                        Ok((bind, _)) => statement_in(packet) == Ok::<_, Fault>(
                            Some(StatementView { sql, bind }),
                        ),
                    },
                }
            },
        },
{
}

/// Events, answers and statements are seen as they are: every character,
/// every byte and every number.
pub proof fn law_events_are_seen(
    text: String,
    arrived: Arrived,
    columns: Vec<String>,
    rows: Vec<Vec<Option<Vec<u8>>>>,
    n: u64,
    code: u32,
    bytes: Vec<u8>,
)
    ensures
        Event::Selected(text)@ == EventView::Selected(text@),
        Event::Inserted(arrived)@ == EventView::Inserted(
            ArrivedView { origin_uri: arrived.origin_uri@, bytes: arrived.bytes@ },
        ),
        Event::Executed(text)@ == EventView::Executed(text@),
        (Answer::Rows { columns, rows })@ == (AnswerView::Rows {
            columns: sql::texts_view(columns@),
            rows: sql::rows_view(rows@),
        }),
        Answer::Complete(n)@ == AnswerView::Complete(n as nat),
        (Answer::Error { code, message: text })@ == (AnswerView::Error {
            code: code as nat,
            message: text@,
        }),
        (Statement { sql: text, bind: Some(bytes) })@ == (StatementView {
            sql: text@,
            bind: Some(bytes@),
        }),
        (Statement { sql: text, bind: None })@ == (StatementView { sql: text@, bind: None }),
{
}

/// Steps, answers and demands are seen as what they come to.
pub proof fn law_steps_are_seen(
    accepting: Accepting,
    packet: Packet,
    session: Session,
    error: TransportError,
    answer: Answer,
    login: Login,
)
    ensures
        Accept::Sent(accepting, packet)@ == AcceptView::Sent(accepting@, packet@),
        Accept::Accepted(session, packet)@ == AcceptView::Accepted(session@, packet@),
        Accept::Refused(Some(packet), error)@ == AcceptView::Refused(Some(packet@), error@),
        Accept::Refused(None, error)@ == AcceptView::Refused(None, error@),
        answered_view(Some(answer)) == Some(answer@),
        answered_view(None) == None::<AnswerView>,
        expected_view(Some(login)) == Some(login@),
        expected_view(None) == None::<LoginView>,
{
}

} // verus!
