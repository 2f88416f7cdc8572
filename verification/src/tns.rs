//! The Oracle Net transparent network substrate (TNS): a packet is an
//! eight-byte header (a big-endian length, two checksum fields a thin client
//! leaves zero, a type and a flag byte) and a body. Five types carry a
//! session: Connect offers a service, Accept agrees the sizes, Refuse says
//! no, Data carries the two-task layer under a two-byte data flag, and
//! Marker breaks in. Nothing here knows what the data means.

use vstd::prelude::*;
use vstd::slice::slice_subrange;
use vstd::slice::slice_to_vec;
use vstd::string::*;
use vstd::utf8::*;

use crate::error::{broken_error, protocol_error, Fault, TransportError};
use crate::text;
use crate::text::{decimal_text, text_of};
use crate::wire;
use crate::wire::{put_be, put_bytes, read_be};

verus! {

/// `NSPTCN`, a connect.
pub const CONNECT: u8 = 1;

/// `NSPTAC`, an accept.
pub const ACCEPT: u8 = 2;

/// `NSPTRF`, a refuse.
pub const REFUSE: u8 = 4;

/// `NSPTDA`, a data packet.
pub const DATA: u8 = 6;

/// `NSPTMK`, a marker.
pub const MARKER: u8 = 12;

/// The protocol version this crate offers and accepts.
pub const VERSION: u16 = 318;

/// The largest packet either side reads, the session data unit a modern
/// listener defaults to.
pub const MAX_PACKET: usize = 8192;

/// The data flag on an ordinary data packet.
pub const DATA_FLAG: u16 = 0;

/// The data flag that ends the session: a logoff's last packet.
pub const DATA_FLAG_EOF: u16 = 0x0040;

/// How many bytes a header is.
pub const HEADER: usize = 8;

/// One packet read off the wire: its type, and its body past the header.
#[derive(Clone, Debug, PartialEq, Eq)]
pub struct Packet {
    pub kind: u8,
    pub body: Vec<u8>,
}

/// What a [`Packet`] holds, as contracts speak of it.
pub struct PacketView {
    pub kind: u8,
    pub body: Seq<u8>,
}

impl View for Packet {
    type V = PacketView;

    open spec fn view(&self) -> PacketView {
        PacketView { kind: self.kind, body: self.body@ }
    }
}

impl PacketView {
    /// The packet's length as its header gives it, as long as it fits there.
    pub open spec fn length(self) -> nat {
        self.body.len() + HEADER as nat
    }

    /// The bytes of the packet, header and body. A length over what two
    /// bytes hold is written as the largest they do.
    pub open spec fn bytes(self) -> Seq<u8> {
        wire::count_of(self.length()) + seq![0u8, 0u8, self.kind, 0u8, 0u8, 0u8] + self.body
    }

    /// Whether the other side reads a packet of this length.
    pub open spec fn fits(self) -> bool {
        self.length() <= MAX_PACKET
    }
}

/// Packets, as contracts speak of them.
pub open spec fn packets_view(packets: Seq<Packet>) -> Seq<PacketView> {
    Seq::new(packets.len(), |i: int| packets[i]@)
}

/// The length a header gives, where it is one that is read.
pub open spec fn header_length(head: Seq<u8>) -> Result<nat, Fault> {
    let length = wire::be_value(head.take(2));
    if HEADER <= length <= MAX_PACKET {
        Ok(length)
    } else {
        Err(Fault::protocol("a TNS packet of "@ + text::decimal(length) + " bytes"@))
    }
}

/// What reading one packet off `input` comes to, where `input` is all that
/// the peer sent before it closed, and what of `input` is left to read.
pub open spec fn packet_in(input: Seq<u8>) -> (Result<Option<PacketView>, Fault>, Seq<u8>) {
    if input.len() == 0 {
        (Ok(None), input)
    } else if input.len() < HEADER {
        (Err(Fault::broken("reading a packet header"@)), Seq::empty())
    } else {
        match header_length(input) {
            Err(fault) => (Err(fault), input.skip(HEADER as int)),
            Ok(length) => if input.len() < length {
                (Err(Fault::broken("reading a packet body"@)), Seq::empty())
            } else {
                (
                    Ok(
                        Some(
                            PacketView {
                                kind: input[4],
                                body: input.subrange(HEADER as int, length as int),
                            },
                        ),
                    ),
                    input.skip(length as int),
                )
            },
        }
    }
}

/// What a connect packet for `connect_string` is.
pub open spec fn connect_packet(connect_string: Seq<char>) -> PacketView {
    PacketView { kind: CONNECT, body: wire::be(VERSION as nat, 2) + encode_utf8(connect_string) }
}

/// The connect string a packet carries, where it is a connect.
pub open spec fn connect_in(packet: PacketView) -> Result<Seq<char>, Fault> {
    if packet.kind != CONNECT || packet.body.len() < 2 {
        Err(Fault::protocol("not a connect packet"@))
    } else {
        Ok(text::lossy_text(packet.body.skip(2)))
    }
}

/// What an accept packet is.
pub open spec fn accept_packet() -> PacketView {
    PacketView { kind: ACCEPT, body: wire::be(VERSION as nat, 2) }
}

/// What a refuse packet for `reason` is.
pub open spec fn refuse_packet(reason: Seq<char>) -> PacketView {
    PacketView { kind: REFUSE, body: encode_utf8(reason) }
}

/// What a data packet carrying `payload` under `flag` is.
pub open spec fn data_packet(flag: u16, payload: Seq<u8>) -> PacketView {
    PacketView { kind: DATA, body: wire::be(flag as nat, 2) + payload }
}

/// The data flag and the payload a packet carries, where it is a data
/// packet. What follows the end-of-file flag is not payload.
pub open spec fn data_in(packet: PacketView) -> Result<(u16, Seq<u8>), Fault> {
    if packet.kind != DATA || packet.body.len() < 2 {
        Err(Fault::protocol("not a data packet"@))
    } else {
        let flag = wire::be_value(packet.body.take(2)) as u16;
        if flag == DATA_FLAG_EOF {
            Ok((flag, Seq::empty()))
        } else {
            Ok((flag, packet.body.skip(2)))
        }
    }
}

/// The refusal a packet is where a session was asked for.
pub open spec fn refusal_in(packet: PacketView) -> Fault {
    if packet.kind == REFUSE {
        Fault::permanent("the listener refused the connection: "@ + text::lossy_text(packet.body))
    } else {
        Fault::protocol(
            "a packet of type "@ + text::decimal(packet.kind as nat)
                + " where a session was expected"@,
        )
    }
}

/// The fault of a peer that closed where a packet was due.
pub open spec fn closed_fault() -> Fault {
    Fault::protocol("the peer closed the connection"@)
}

impl Packet {
    /// The bytes of this packet, header and body.
    #[must_use]
    pub fn to_bytes(&self) -> (out: Vec<u8>)
        ensures
            out@ == self@.bytes(),
    {
        let mut out: Vec<u8> = Vec::new();
        let length: u64 = if self.body.len() <= 65527 {
            (self.body.len() + HEADER) as u64
        } else {
            65535
        };
        put_be(&mut out, length, 2);
        out.push(0);
        out.push(0);
        out.push(self.kind);
        out.push(0);
        out.push(0);
        out.push(0);
        put_bytes(&mut out, self.body.as_slice());
        assert(out@ =~= self@.bytes());
        out
    }

    /// Write this packet behind what `writer` holds.
    ///
    /// # Errors
    /// None: what is written to memory is written.
    pub fn write(&self, writer: &mut Vec<u8>) -> (written: Result<(), TransportError>)
        ensures
            written is Ok,
            final(writer)@ == old(writer)@ + self@.bytes(),
    {
        let bytes = self.to_bytes();
        put_bytes(writer, bytes.as_slice());
        Ok(())
    }

    /// The length of the packet that `head` is the header of.
    ///
    /// # Errors
    /// Where it is shorter than a header or over [`MAX_PACKET`].
    pub fn length(head: &[u8; 8]) -> (length: Result<usize, TransportError>)
        ensures
            match length {
                Ok(n) => header_length(head@) == Ok::<nat, Fault>(n as nat),
                Err(error) => header_length(head@) == Err::<nat, Fault>(error@),
            },
    {
        Self::length_at(head.as_slice())
    }

    fn length_at(head: &[u8]) -> (length: Result<usize, TransportError>)
        requires
            head@.len() >= 2,
        ensures
            match length {
                Ok(n) => header_length(head@) == Ok::<nat, Fault>(n as nat),
                Err(error) => header_length(head@) == Err::<nat, Fault>(error@),
            },
    {
        let front = slice_subrange(head, 0, 2);
        assert(front@ =~= head@.take(2));
        proof {
            wire::lemma_spans();
            wire::law_be_writes_back(front@);
        }
        let length: u64 = read_be(front);
        if HEADER as u64 <= length && length <= MAX_PACKET as u64 {
            Ok(length as usize)
        } else {
            let mut message = "a TNS packet of ".to_owned();
            message.append(decimal_text(length as u128).as_str());
            message.append(" bytes");
            Err(protocol_error(message))
        }
    }

    /// Read one packet off `reader`, which holds what the peer sent before
    /// it closed; `None` where it closed cleanly before one began.
    ///
    /// # Errors
    /// Where the connection broke mid-packet, or the packet is malformed
    /// or over [`MAX_PACKET`].
    pub fn read(reader: &mut &[u8]) -> (read: Result<Option<Self>, TransportError>)
        ensures
            match read {
                Ok(Some(packet)) => packet_in(old(reader)@).0 == Ok::<_, Fault>(Some(packet@)),
                Ok(None) => packet_in(old(reader)@).0 == Ok::<_, Fault>(None::<PacketView>),
                Err(error) => packet_in(old(reader)@).0 == Err::<Option<PacketView>, _>(error@),
            },
            final(reader)@ == packet_in(old(reader)@).1,
    {
        let input: &[u8] = *reader;
        if input.len() == 0 {
            return Ok(None);
        }
        if input.len() < HEADER {
            *reader = slice_subrange(input, input.len(), input.len());
            assert(reader@ =~= Seq::empty());
            return Err(broken_error("reading a packet header"));
        }
        let length: usize = match Self::length_at(input) {
            Ok(length) => length,
            Err(error) => {
                *reader = slice_subrange(input, HEADER, input.len());
                assert(reader@ =~= input@.skip(HEADER as int));
                return Err(error);
            },
        };
        if input.len() < length {
            *reader = slice_subrange(input, input.len(), input.len());
            assert(reader@ =~= Seq::empty());
            return Err(broken_error("reading a packet body"));
        }
        let body = slice_to_vec(slice_subrange(input, HEADER, length));
        *reader = slice_subrange(input, length, input.len());
        assert(reader@ =~= input@.skip(length as int));
        Ok(Some(Packet { kind: input[4], body }))
    }

    /// Read one packet, which must be there.
    ///
    /// # Errors
    /// As [`Packet::read`], and where the connection closed.
    pub fn expect(reader: &mut &[u8]) -> (read: Result<Self, TransportError>)
        ensures
            match packet_in(old(reader)@).0 {
                Ok(Some(packet)) => read matches Ok(found) && found@ == packet,
                Ok(None) => read matches Err(error) && error@ == closed_fault(),
                Err(fault) => read matches Err(error) && error@ == fault,
            },
            final(reader)@ == packet_in(old(reader)@).1,
    {
        match Self::read(reader) {
            Ok(packet) => Self::due(packet),
            Err(error) => Err(error),
        }
    }

    /// The packet that was due, which the peer may have closed before.
    ///
    /// # Errors
    /// Where it closed.
    pub fn due(packet: Option<Packet>) -> (due: Result<Self, TransportError>)
        ensures
            match packet {
                Some(found) => due == Ok::<_, TransportError>(found),
                None => due matches Err(error) && error@ == closed_fault(),
            },
    {
        match packet {
            Some(packet) => Ok(packet),
            None => Err(protocol_error("the peer closed the connection".to_owned())),
        }
    }
}

/// A connect packet carrying the connect string: the service a session
/// asks for.
#[must_use]
pub fn connect(connect_string: &str) -> (packet: Packet)
    ensures
        packet@ == connect_packet(connect_string@),
{
    let mut body: Vec<u8> = Vec::new();
    put_be(&mut body, VERSION as u64, 2);
    put_bytes(&mut body, connect_string.as_bytes());
    let packet = Packet { kind: CONNECT, body };
    assert(packet@.body =~= connect_packet(connect_string@).body);
    packet
}

/// The connect string a connect packet carries.
///
/// # Errors
/// Where the packet is not a connect, or is too short to carry a version.
pub fn read_connect(packet: &Packet) -> (read: Result<String, TransportError>)
    ensures
        match read {
            Ok(text) => connect_in(packet@) == Ok::<_, Fault>(text@),
            Err(error) => connect_in(packet@) == Err::<Seq<char>, _>(error@),
        },
{
    if packet.kind != CONNECT || packet.body.len() < 2 {
        return Err(protocol_error("not a connect packet".to_owned()));
    }
    let rest = slice_subrange(packet.body.as_slice(), 2, packet.body.len());
    assert(rest@ =~= packet.body@.skip(2));
    Ok(text_of(rest))
}

/// An accept packet: the version agreed.
#[must_use]
pub fn accept() -> (packet: Packet)
    ensures
        packet@ == accept_packet(),
{
    let mut body: Vec<u8> = Vec::new();
    put_be(&mut body, VERSION as u64, 2);
    let packet = Packet { kind: ACCEPT, body };
    assert(packet@.body =~= accept_packet().body);
    packet
}

/// A refuse packet carrying its reason.
#[must_use]
pub fn refuse(reason: &str) -> (packet: Packet)
    ensures
        packet@ == refuse_packet(reason@),
{
    Packet { kind: REFUSE, body: slice_to_vec(reason.as_bytes()) }
}

/// A data packet carrying `payload` under the ordinary data flag.
#[must_use]
pub fn data(payload: &[u8]) -> (packet: Packet)
    ensures
        packet@ == data_packet(DATA_FLAG, payload@),
{
    packet_with_flag(DATA_FLAG, payload)
}

/// A data packet with the end-of-file data flag and no payload: a
/// logoff's goodbye.
#[must_use]
pub fn data_eof() -> (packet: Packet)
    ensures
        packet@ == data_packet(DATA_FLAG_EOF, Seq::empty()),
{
    let nothing: Vec<u8> = Vec::new();
    packet_with_flag(DATA_FLAG_EOF, nothing.as_slice())
}

fn packet_with_flag(flag: u16, payload: &[u8]) -> (packet: Packet)
    ensures
        packet@ == data_packet(flag, payload@),
{
    let mut body: Vec<u8> = Vec::new();
    put_be(&mut body, flag as u64, 2);
    put_bytes(&mut body, payload);
    let packet = Packet { kind: DATA, body };
    assert(packet@.body =~= data_packet(flag, payload@).body);
    packet
}

/// The two-task payload a data packet carries, and its data flag; the
/// end-of-file flag comes back with an empty payload.
///
/// # Errors
/// Where the packet is not a data packet or is too short for its flag.
pub fn read_data(packet: &Packet) -> (read: Result<(u16, &[u8]), TransportError>)
    ensures
        match read {
            Ok((flag, payload)) => data_in(packet@) == Ok::<_, Fault>((flag, payload@)),
            Err(error) => data_in(packet@) == Err::<(u16, Seq<u8>), _>(error@),
        },
{
    if packet.kind != DATA || packet.body.len() < 2 {
        return Err(protocol_error("not a data packet".to_owned()));
    }
    let front = slice_subrange(packet.body.as_slice(), 0, 2);
    assert(front@ =~= packet.body@.take(2));
    proof {
        wire::lemma_spans();
        wire::law_be_writes_back(front@);
    }
    let flag: u16 = read_be(front) as u16;
    let length = packet.body.len();
    let from: usize = if flag == DATA_FLAG_EOF { length } else { 2 };
    let payload = slice_subrange(packet.body.as_slice(), from, length);
    proof {
        if flag == DATA_FLAG_EOF {
            assert(payload@ =~= Seq::empty());
        } else {
            assert(payload@ =~= packet.body@.skip(2));
        }
    }
    Ok((flag, payload))
}

/// The refusal a refuse packet or an unexpected type is, as an error.
#[must_use]
pub fn refused(packet: &Packet) -> (error: TransportError)
    ensures
        error@ == refusal_in(packet@),
{
    if packet.kind == REFUSE {
        let mut message = "the listener refused the connection: ".to_owned();
        message.append(text_of(packet.body.as_slice()).as_str());
        TransportError::permanent(message)
    } else {
        let mut message = "a packet of type ".to_owned();
        message.append(decimal_text(packet.kind as u128).as_str());
        message.append(" where a session was expected");
        protocol_error(message)
    }
}

/// A packet that fits is what its bytes read back as, and what follows it
/// on the wire is left to read.
pub proof fn law_packet_reads_back(packet: PacketView, rest: Seq<u8>)
    requires
        packet.fits(),
    ensures
        packet_in(packet.bytes() + rest) == (Ok::<_, Fault>(Some(packet)), rest),
{
    let input = packet.bytes() + rest;
    let length = packet.length();
    wire::lemma_be_two(length);
    assert(input.take(2) =~= wire::be(length, 2));
    assert(input[4] == packet.kind);
    assert(input.subrange(8, length as int) =~= packet.body);
    assert(input.skip(length as int) =~= rest);
}

/// A packet that does not fit is refused, whatever follows it: its length
/// is over the maximum, or the largest a header can give.
pub proof fn law_oversize_packet_is_refused(packet: PacketView, rest: Seq<u8>)
    requires
        !packet.fits(),
    ensures
        packet_in(packet.bytes() + rest).0 == Err::<Option<PacketView>, _>(
            Fault::protocol(
                "a TNS packet of "@ + text::decimal(
                    if packet.length() <= 65535 {
                        packet.length()
                    } else {
                        65535
                    },
                ) + " bytes"@,
            ),
        ),
{
    let input = packet.bytes() + rest;
    let written = if packet.length() <= 65535 {
        packet.length()
    } else {
        65535
    };
    wire::lemma_be_two(written);
    assert(input.take(2) =~= wire::be(written, 2));
}

/// The connect string a connect offers is the one that is read out of it.
pub proof fn law_connect_reads_back(connect_string: Seq<char>)
    ensures
        connect_in(connect_packet(connect_string)) == Ok::<_, Fault>(connect_string),
{
    let body = connect_packet(connect_string).body;
    wire::lemma_be_len(VERSION as nat, 2);
    assert(body.skip(2) =~= encode_utf8(connect_string));
    text::law_text_reads_back(connect_string);
}

/// A data packet gives back its flag and its payload, and a goodbye gives
/// back the end-of-file flag with an empty payload.
pub proof fn law_data_reads_back(payload: Seq<u8>)
    ensures
        data_in(data_packet(DATA_FLAG, payload)) == Ok::<_, Fault>((DATA_FLAG, payload)),
        data_in(data_packet(DATA_FLAG_EOF, Seq::empty())) == Ok::<_, Fault>(
            (DATA_FLAG_EOF, Seq::<u8>::empty()),
        ),
{
    let ordinary = data_packet(DATA_FLAG, payload).body;
    let goodbye = data_packet(DATA_FLAG_EOF, Seq::empty()).body;
    wire::lemma_be_two(DATA_FLAG as nat);
    wire::lemma_be_two(DATA_FLAG_EOF as nat);
    assert(ordinary.take(2) =~= wire::be(DATA_FLAG as nat, 2));
    assert(ordinary.skip(2) =~= payload);
    assert(goodbye.take(2) =~= wire::be(DATA_FLAG_EOF as nat, 2));
}

/// A packet on the wire is its length in two bytes, most significant first,
/// two zeros, its type, three zeros, and then its body whole. A length over
/// what two bytes hold is written as the largest they do.
pub proof fn law_packet_layout(packet: PacketView)
    ensures
        packet.body.len() <= 65527 ==> packet.bytes() == seq![
            ((packet.body.len() + 8) / 256) as u8,
            ((packet.body.len() + 8) % 256) as u8,
            0u8,
            0u8,
            packet.kind,
            0u8,
            0u8,
            0u8,
        ] + packet.body,
        packet.body.len() > 65527 ==> packet.bytes() == seq![
            255u8,
            255u8,
            0u8,
            0u8,
            packet.kind,
            0u8,
            0u8,
            0u8,
        ] + packet.body,
        packet.fits() <==> packet.body.len() <= 8184,
{
    wire::law_count_saturates(packet.length());
    if packet.body.len() <= 65527 {
        assert(packet.bytes() =~= seq![
            ((packet.body.len() + 8) / 256) as u8,
            ((packet.body.len() + 8) % 256) as u8,
            0u8,
            0u8,
            packet.kind,
            0u8,
            0u8,
            0u8,
        ] + packet.body);
    } else {
        assert(packet.bytes() =~= seq![255u8, 255u8, 0u8, 0u8, packet.kind, 0u8, 0u8, 0u8]
            + packet.body);
    }
}

/// What is read off a wire, byte by byte. The first two bytes are the length
/// `n`; from eight to 8192 the packet is the `n` bytes, its type the fifth
/// and its body all behind the eighth, and what follows is left. Any other
/// length is told and not worth another attempt. A wire that ends before the
/// packet broke, and one that ends before it began closed.
pub proof fn law_packet_is_read(input: Seq<u8>)
    ensures
        ({
            let (read, left) = packet_in(input);
            let n = input[0] * 256 + input[1];
            if input.len() == 0 {
                &&& read matches Ok(None)
                &&& left.len() == 0
            } else if input.len() < 8 {
                &&& read matches Err(fault)
                &&& fault.retryable
                &&& fault.message == "reading a packet header"@ + ": the connection broke"@
                &&& left.len() == 0
            } else if n < 8 || n > 8192 {
                &&& read matches Err(fault)
                &&& !fault.retryable
                &&& fault.message == "a TNS packet of "@ + text::decimal(n as nat) + " bytes"@
                &&& left == input.skip(8)
            } else if input.len() < n {
                &&& read matches Err(fault)
                &&& fault.retryable
                &&& fault.message == "reading a packet body"@ + ": the connection broke"@
                &&& left.len() == 0
            } else {
                &&& read matches Ok(Some(packet))
                &&& packet.kind == input[4]
                &&& packet.body == input.subrange(8, n)
                &&& left == input.skip(n)
            }
        }),
{
    if input.len() >= 8 {
        wire::law_bytes_weigh_by_place(input.take(2));
    }
}

/// What each packet is: a connect its version and its connect string, an
/// accept its version, a refusal its reason, and data its flag and its
/// payload whole.
pub proof fn law_packet_shapes(text: Seq<char>, flag: u16, payload: Seq<u8>)
    ensures
        connect_packet(text) == (PacketView { kind: 1, body: seq![1u8, 62u8] + encode_utf8(text) }),
        accept_packet() == (PacketView { kind: 2, body: seq![1u8, 62u8] }),
        refuse_packet(text) == (PacketView { kind: 4, body: encode_utf8(text) }),
        data_packet(flag, payload) == (PacketView {
            kind: 6,
            body: seq![(flag / 256) as u8, (flag % 256) as u8] + payload,
        }),
        DATA_FLAG == 0,
        DATA_FLAG_EOF == 64,
        MARKER == 12,
        MAX_PACKET == 8192,
{
    wire::law_numbers_are_big_endian(VERSION as nat);
    wire::law_numbers_are_big_endian(flag as nat);
}

/// What a packet carries, byte by byte. A connect carries text behind its
/// first two bytes; data carries the flag that its first two are and, unless
/// that is 64, all that is behind them. A packet of another type or without
/// two bytes carries neither, and is not worth another attempt.
pub proof fn law_packet_carries(packet: PacketView)
    ensures
        match connect_in(packet) {
            Ok(text) => {
                &&& packet.kind == 1
                &&& packet.body.len() >= 2
                &&& text == text::lossy_text(packet.body.skip(2))
            },
            Err(fault) => {
                &&& packet.kind != 1 || packet.body.len() < 2
                &&& !fault.retryable
                &&& fault.message == "not a connect packet"@
            },
        },
        match data_in(packet) {
            Ok((flag, payload)) => {
                &&& packet.kind == 6
                &&& packet.body.len() >= 2
                &&& flag == packet.body[0] * 256 + packet.body[1]
                &&& flag == 64 ==> payload.len() == 0
                &&& flag != 64 ==> payload == packet.body.skip(2)
            },
            Err(fault) => {
                &&& packet.kind != 6 || packet.body.len() < 2
                &&& !fault.retryable
                &&& fault.message == "not a data packet"@
            },
        },
{
    if packet.body.len() >= 2 {
        wire::law_bytes_weigh_by_place(packet.body.take(2));
    }
}

/// A refusal tells the reason that the listener gave, all of it; a packet of
/// another type tells its type. Neither is worth another attempt.
pub proof fn law_refusal_tells_why(packet: PacketView)
    ensures
        !refusal_in(packet).retryable,
        packet.kind == 4 ==> refusal_in(packet).message == "the listener refused the connection: "@
            + text::lossy_text(packet.body),
        packet.kind != 4 ==> refusal_in(packet).message == "a packet of type "@ + text::decimal(
            packet.kind as nat,
        ) + " where a session was expected"@,
        !closed_fault().retryable,
        closed_fault().message == "the peer closed the connection"@,
{
}

/// The length that a header gives is its first two bytes, most significant
/// first, and one from eight to 8192 is taken. Any other is told, and not
/// worth another attempt.
pub proof fn law_header_gives_length(head: Seq<u8>)
    requires
        head.len() >= 2,
    ensures
        match header_length(head) {
            Ok(n) => n == head[0] * 256 + head[1] && 8 <= n <= 8192,
            Err(fault) => {
                let n = head[0] * 256 + head[1];
                &&& n < 8 || n > 8192
                &&& !fault.retryable
                &&& fault.message == "a TNS packet of "@ + text::decimal(n as nat) + " bytes"@
            },
        },
{
    wire::law_bytes_weigh_by_place(head.take(2));
}

/// Packets are seen as they are, in order, and every byte of them.
pub proof fn law_packets_are_seen(packets: Seq<Packet>)
    ensures
        packets_view(packets).len() == packets.len(),
        forall|i: int|
            0 <= i < packets.len() ==> (#[trigger] packets_view(packets)[i]).kind == packets[i].kind
                && packets_view(packets)[i].body == packets[i].body@,
{
}

} // verus!
