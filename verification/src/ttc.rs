//! The two-task common layer (TTC), the function messages Oracle carries
//! inside TNS data packets: a protocol handshake, a data-type negotiation,
//! the O5LOGON key exchange and authentication, then the functions that
//! execute a statement with a bind and fetch rows.
//!
//! A message is a tag and its fields, with each string and each opaque value
//! counted. The O5LOGON verifier a real server checks is an AES key schedule
//! over the password; here a session-key mix stands in for it, which this
//! crate's own listener checks. A Stream binds as one RAW value and comes
//! back as one column, so a byte is a byte both ways.

use vstd::prelude::*;
use vstd::slice::slice_subrange;
use vstd::slice::slice_to_vec;
use vstd::string::*;
use vstd::utf8::*;

use crate::cursor;
use crate::cursor::Cursor;
use crate::error::{protocol_error, Fault, TransportError};
use crate::text;
use crate::text::text_of;
use crate::tns;
use crate::tns::{Packet, PacketView};
use crate::wire;
use crate::wire::{put_be, put_bytes, read_be, same_bytes};

pub mod tag;

verus! {

// What the fields are, written.

/// Counted opaque bytes: a two-byte length, then the bytes.
pub open spec fn counted_bytes(bytes: Seq<u8>) -> Seq<u8> {
    wire::count_of(bytes.len()) + bytes
}

/// A counted string.
pub open spec fn string_bytes(text: Seq<char>) -> Seq<u8> {
    counted_bytes(encode_utf8(text))
}

/// A column value: a present byte, one for a value and zero for NULL, then
/// the value's counted bytes where it is present.
pub open spec fn value_bytes(value: Option<Seq<u8>>) -> Seq<u8> {
    match value {
        Some(bytes) => seq![1u8] + counted_bytes(bytes),
        None => seq![0u8],
    }
}

// What the fields are, read: the field, and what is left behind it.

/// Counted opaque bytes at the front of `rest`.
pub open spec fn counted_in(rest: Seq<u8>) -> Result<(Seq<u8>, Seq<u8>), Fault> {
    match cursor::u16_in(rest) {
        Ok((length, left)) => cursor::taken(left, length as nat),
        Err(fault) => Err(fault),
    }
}

/// A counted string at the front of `rest`.
pub open spec fn string_in(rest: Seq<u8>) -> Result<(Seq<char>, Seq<u8>), Fault> {
    match counted_in(rest) {
        Ok((bytes, left)) => Ok((text::lossy_text(bytes), left)),
        Err(fault) => Err(fault),
    }
}

/// A counted number of `width` bytes at the front of `rest`; `complaint` is
/// what is said where its count is another.
pub open spec fn number_in(rest: Seq<u8>, width: nat, complaint: Seq<char>) -> Result<
    (nat, Seq<u8>),
    Fault,
> {
    match counted_in(rest) {
        Ok((bytes, left)) => if bytes.len() == width {
            Ok((wire::be_value(bytes), left))
        } else {
            Err(Fault::protocol(complaint))
        },
        Err(fault) => Err(fault),
    }
}

/// A counted integer at the front of `rest`.
pub open spec fn integer_in(rest: Seq<u8>) -> Result<(nat, Seq<u8>), Fault> {
    number_in(rest, 4, "a TTC integer that is not four bytes"@)
}

/// A counted long at the front of `rest`.
pub open spec fn long_in(rest: Seq<u8>) -> Result<(nat, Seq<u8>), Fault> {
    number_in(rest, 8, "a TTC long that is not eight bytes"@)
}

/// `n` runs of counted bytes at the front of `rest`.
pub open spec fn counted_run_in(rest: Seq<u8>, n: nat) -> Result<(Seq<Seq<u8>>, Seq<u8>), Fault>
    decreases n,
{
    if n == 0 {
        Ok((Seq::empty(), rest))
    } else {
        match counted_in(rest) {
            Ok((first, left)) => behind(seq![first], counted_run_in(left, (n - 1) as nat)),
            Err(fault) => Err(fault),
        }
    }
}

/// What was read, behind what had been read before it.
pub open spec fn behind<A>(
    done: Seq<A>,
    read: Result<(Seq<A>, Seq<u8>), Fault>,
) -> Result<(Seq<A>, Seq<u8>), Fault> {
    match read {
        Ok((more, left)) => Ok((done + more, left)),
        Err(fault) => Err(fault),
    }
}

/// A two-byte count, then that many counted values, at the front of `rest`.
pub open spec fn values_in(rest: Seq<u8>) -> Result<(Seq<Seq<u8>>, Seq<u8>), Fault> {
    match cursor::u16_in(rest) {
        Ok((count, left)) => counted_run_in(left, count as nat),
        Err(fault) => Err(fault),
    }
}

/// A column value at the front of `rest`.
pub open spec fn value_in(rest: Seq<u8>) -> Result<(Option<Seq<u8>>, Seq<u8>), Fault> {
    match cursor::byte_in(rest) {
        Ok((present, left)) => if present == 0 {
            Ok((None, left))
        } else {
            match counted_in(left) {
                Ok((bytes, left)) => Ok((Some(bytes), left)),
                Err(fault) => Err(fault),
            }
        },
        Err(fault) => Err(fault),
    }
}

// Where a read that fails leaves the cursor: behind what it had read by then.

/// Where a failed read of counted bytes stops: in front of the length where
/// that was cut short, behind it where the bytes were.
pub open spec fn counted_stop(rest: Seq<u8>) -> Seq<u8> {
    match cursor::u16_in(rest) {
        Ok((_, left)) => left,
        Err(_) => rest,
    }
}

/// Where a failed read of a counted number stops: behind the bytes where
/// they were too many or too few.
pub open spec fn number_stop(rest: Seq<u8>) -> Seq<u8> {
    match counted_in(rest) {
        Ok((_, left)) => left,
        Err(_) => counted_stop(rest),
    }
}

/// Where a failed read of `n` runs of counted bytes stops.
pub open spec fn counted_run_stop(rest: Seq<u8>, n: nat) -> Seq<u8>
    decreases n,
{
    if n == 0 {
        rest
    } else {
        match counted_in(rest) {
            Ok((_, left)) => counted_run_stop(left, (n - 1) as nat),
            Err(_) => counted_stop(rest),
        }
    }
}

/// Where a failed read of counted values stops.
pub open spec fn values_stop(rest: Seq<u8>) -> Seq<u8> {
    match cursor::u16_in(rest) {
        Ok((count, left)) => counted_run_stop(left, count as nat),
        Err(_) => rest,
    }
}

/// Where a failed read of a column value stops.
pub open spec fn value_stop(rest: Seq<u8>) -> Seq<u8> {
    match cursor::byte_in(rest) {
        Ok((_, left)) => counted_stop(left),
        Err(_) => rest,
    }
}

/// A value, as contracts speak of it.
pub open spec fn value_view(value: Option<Vec<u8>>) -> Option<Seq<u8>> {
    match value {
        Some(bytes) => Some(bytes@),
        None => None,
    }
}

/// Runs of bytes, as contracts speak of them.
pub open spec fn byte_runs(runs: Seq<Vec<u8>>) -> Seq<Seq<u8>> {
    Seq::new(runs.len(), |i: int| runs[i]@)
}

/// Reading TTC's own fields off a cursor, whose view is what is left to
/// read.
pub trait Ttc<'a>: View<V = Seq<u8>> {
    /// Counted opaque bytes: a big-endian two-byte length, then the bytes.
    ///
    /// # Errors
    /// Where the body ends first.
    fn counted(&mut self) -> (read: Result<&'a [u8], TransportError>)
        ensures
            match counted_in(old(self)@) {
                Ok((bytes, left)) => {
                    &&& read matches Ok(found)
                    &&& found@ == bytes
                    &&& final(self)@ == left
                },
                Err(fault) => {
                    &&& read matches Err(error)
                    &&& error@ == fault
                    &&& final(self)@ == counted_stop(old(self)@)
                },
            },
    ;

    /// A counted string, read as UTF-8, lossily.
    ///
    /// # Errors
    /// Where the body ends first.
    fn string(&mut self) -> (read: Result<String, TransportError>)
        ensures
            match string_in(old(self)@) {
                Ok((text, left)) => {
                    &&& read matches Ok(found)
                    &&& found@ == text
                    &&& final(self)@ == left
                },
                Err(fault) => {
                    &&& read matches Err(error)
                    &&& error@ == fault
                    &&& final(self)@ == counted_stop(old(self)@)
                },
            },
    ;

    /// A counted big-endian integer, which must be four bytes.
    ///
    /// # Errors
    /// Where the body ends first or the count is not four.
    fn integer(&mut self) -> (read: Result<u32, TransportError>)
        ensures
            match integer_in(old(self)@) {
                Ok((n, left)) => {
                    &&& read matches Ok(found)
                    &&& found == n
                    &&& final(self)@ == left
                },
                Err(fault) => {
                    &&& read matches Err(error)
                    &&& error@ == fault
                    &&& final(self)@ == number_stop(old(self)@)
                },
            },
    ;

    /// A counted big-endian long, which must be eight bytes.
    ///
    /// # Errors
    /// Where the body ends first or the count is not eight.
    fn long(&mut self) -> (read: Result<u64, TransportError>)
        ensures
            match long_in(old(self)@) {
                Ok((n, left)) => {
                    &&& read matches Ok(found)
                    &&& found == n
                    &&& final(self)@ == left
                },
                Err(fault) => {
                    &&& read matches Err(error)
                    &&& error@ == fault
                    &&& final(self)@ == number_stop(old(self)@)
                },
            },
    ;

    /// A two-byte count, then that many counted values.
    ///
    /// # Errors
    /// Where the body ends first.
    fn values(&mut self) -> (read: Result<Vec<Vec<u8>>, TransportError>)
        ensures
            match values_in(old(self)@) {
                Ok((values, left)) => {
                    &&& read matches Ok(found)
                    &&& byte_runs(found@) == values
                    &&& final(self)@ == left
                },
                Err(fault) => {
                    &&& read matches Err(error)
                    &&& error@ == fault
                    &&& final(self)@ == values_stop(old(self)@)
                },
            },
    ;

    /// A column value (see [`TtcWrite::value`]), `None` where it is NULL.
    ///
    /// # Errors
    /// Where the body ends first.
    fn value(&mut self) -> (read: Result<Option<Vec<u8>>, TransportError>)
        ensures
            match value_in(old(self)@) {
                Ok((value, left)) => {
                    &&& read matches Ok(found)
                    &&& value_view(found) == value
                    &&& final(self)@ == left
                },
                Err(fault) => {
                    &&& read matches Err(error)
                    &&& error@ == fault
                    &&& final(self)@ == value_stop(old(self)@)
                },
            },
    ;
}

impl<'a> Ttc<'a> for Cursor<'a> {
    fn counted(&mut self) -> (read: Result<&'a [u8], TransportError>) {
        let length: usize = match self.u16_be() {
            Ok(length) => length as usize,
            Err(error) => return Err(error),
        };
        self.take(length)
    }

    fn string(&mut self) -> (read: Result<String, TransportError>) {
        match self.counted() {
            Ok(bytes) => Ok(text_of(bytes)),
            Err(error) => Err(error),
        }
    }

    fn integer(&mut self) -> (read: Result<u32, TransportError>) {
        match self.counted() {
            Ok(bytes) => if bytes.len() == 4 {
                proof {
                    wire::lemma_spans();
                    wire::law_be_writes_back(bytes@);
                }
                Ok(read_be(bytes) as u32)
            } else {
                Err(protocol_error("a TTC integer that is not four bytes".to_owned()))
            },
            Err(error) => Err(error),
        }
    }

    fn long(&mut self) -> (read: Result<u64, TransportError>) {
        match self.counted() {
            Ok(bytes) => if bytes.len() == 8 {
                Ok(read_be(bytes))
            } else {
                Err(protocol_error("a TTC long that is not eight bytes".to_owned()))
            },
            Err(error) => Err(error),
        }
    }

    fn values(&mut self) -> (read: Result<Vec<Vec<u8>>, TransportError>) {
        let ghost input = self@;
        let count: u16 = match self.u16_be() {
            Ok(count) => count,
            Err(error) => return Err(error),
        };
        let mut found: Vec<Vec<u8>> = Vec::new();
        let mut i: u16 = 0;
        proof {
            let read = counted_run_in(self@, count as nat);
            assert(byte_runs(found@) =~= Seq::empty());
            assert(behind(byte_runs(found@), read) == read) by {
                if read is Ok {
                    assert(Seq::empty() + read->Ok_0.0 =~= read->Ok_0.0);
                }
            }
        }
        while i < count
            invariant
                i <= count,
                input == old(self)@,
                values_stop(input) == counted_run_stop(self@, (count - i) as nat),
                values_in(input) == behind(
                    byte_runs(found@),
                    counted_run_in(self@, (count - i) as nat),
                ),
            decreases count - i,
        {
            let ghost earlier = byte_runs(found@);
            match self.counted() {
                Ok(bytes) => {
                    let ghost read = counted_run_in(self@, (count - i - 1) as nat);
                    found.push(slice_to_vec(bytes));
                    i = i + 1;
                    proof {
                        assert(byte_runs(found@) =~= earlier.push(bytes@));
                        if read is Ok {
                            assert(earlier + (seq![bytes@] + read->Ok_0.0) =~= byte_runs(found@)
                                + read->Ok_0.0);
                        }
                    }
                },
                Err(error) => {
                        return Err(error);
                },
            }
        }
        assert(byte_runs(found@) + Seq::<Seq<u8>>::empty() =~= byte_runs(found@));
        Ok(found)
    }

    fn value(&mut self) -> (read: Result<Option<Vec<u8>>, TransportError>) {
        let present: u8 = match self.byte() {
            Ok(present) => present,
            Err(error) => return Err(error),
        };
        if present == 0 {
            return Ok(None);
        }
        match self.counted() {
            Ok(bytes) => Ok(Some(slice_to_vec(bytes))),
            Err(error) => Err(error),
        }
    }
}

/// An optional run of bytes, as contracts speak of it.
pub open spec fn bound_view(value: Option<&[u8]>) -> Option<Seq<u8>> {
    match value {
        Some(bytes) => Some(bytes@),
        None => None,
    }
}

/// Writing TTC's own fields behind the bytes that are there.
pub trait TtcWrite: View<V = Seq<u8>> {
    /// A count or length: two bytes, big-endian, saturating.
    fn count(&mut self, count: usize) -> (out: &mut Self)
        ensures
            out@ == old(self)@ + wire::count_of(count as nat),
            final(self)@ == final(out)@,
    ;

    /// Counted opaque bytes.
    fn counted(&mut self, bytes: &[u8]) -> (out: &mut Self)
        ensures
            out@ == old(self)@ + counted_bytes(bytes@),
            final(self)@ == final(out)@,
    ;

    /// A counted string.
    fn string(&mut self, text: &str) -> (out: &mut Self)
        ensures
            out@ == old(self)@ + string_bytes(text@),
            final(self)@ == final(out)@,
    ;

    /// A column value: a present byte, one for a value and zero for NULL,
    /// then the value's counted bytes where it is present. A genuine empty
    /// value and a NULL are then two different shapes, which is what a
    /// database needs them to be.
    fn value(&mut self, value: Option<&[u8]>) -> (out: &mut Self)
        ensures
            out@ == old(self)@ + value_bytes(bound_view(value)),
            final(self)@ == final(out)@,
    ;
}

impl TtcWrite for Vec<u8> {
    fn count(&mut self, count: usize) -> (out: &mut Self) {
        put_be(self, if count <= 65535 { count as u64 } else { 65535 }, 2);
        self
    }

    fn counted(&mut self, bytes: &[u8]) -> (out: &mut Self) {
        let ghost before = self@;
        put_be(self, if bytes.len() <= 65535 { bytes.len() as u64 } else { 65535 }, 2);
        put_bytes(self, bytes);
        assert(self@ =~= before + counted_bytes(bytes@));
        self
    }

    fn string(&mut self, text: &str) -> (out: &mut Self) {
        self.counted(text.as_bytes())
    }

    fn value(&mut self, value: Option<&[u8]>) -> (out: &mut Self) {
        let ghost before = self@;
        match value {
            Some(bytes) => {
                self.push(1);
                assert(self@ + counted_bytes(bytes@) =~= before + value_bytes(bound_view(value)));
                self.counted(bytes)
            },
            None => {
                self.push(0);
                assert(self@ =~= before + value_bytes(bound_view(value)));
                self
            },
        }
    }
}

// The verifier.

/// `x` with its bits turned left by three.
pub open spec fn turned(x: u8) -> u8 {
    (x << 3) | (x >> 5)
}

/// The byte of `password` that turn `i` of pass `pass` mixes in: the
/// password over and over, or the pass where it is empty.
pub open spec fn key_byte(password: Seq<u8>, i: int, pass: u8) -> u8 {
    if password.len() == 0 {
        pass
    } else {
        password[i % (password.len() as int)]
    }
}

/// One turn of the mix: byte `i` of the block takes the key in, is turned,
/// and is crossed with its neighbour.
pub open spec fn mix(block: Seq<u8>, i: int, key: u8) -> Seq<u8> {
    block.update(i, turned(block[i].wrapping_add(key)) ^ block[(i + 15) % 16])
}

/// The block after `turns` turns: turn `n` is at byte `n % 16` of pass
/// `n / 16`.
pub open spec fn mixed(challenge: Seq<u8>, password: Seq<u8>, turns: nat) -> Seq<u8>
    decreases turns,
{
    if turns == 0 {
        challenge
    } else {
        let n = (turns - 1) as nat;
        let pass = (n / 16) as u8;
        mix(
            mixed(challenge, password, n),
            (n % 16) as int,
            key_byte(password, (n % 16) as int, pass) ^ pass,
        )
    }
}

/// The empty answer: sixteen zeros.
pub open spec fn empty_answer() -> Seq<u8> {
    Seq::new(16, |i: int| 0u8)
}

/// What is answered in place of the empty answer: sixteen times all bits.
pub open spec fn full_answer() -> Seq<u8> {
    Seq::new(16, |i: int| 0xffu8)
}

/// The answer to `challenge` for `password`: three passes over the block. A
/// password that is not empty never gives the empty answer.
pub open spec fn answer_to(challenge: Seq<u8>, password: Seq<u8>) -> Seq<u8> {
    let block = mixed(challenge, password, 48);
    if password.len() > 0 && block == empty_answer() {
        full_answer()
    } else {
        block
    }
}

proof fn lemma_mixed_len(challenge: Seq<u8>, password: Seq<u8>, turns: nat)
    requires
        challenge.len() == 16,
    ensures
        mixed(challenge, password, turns).len() == 16,
    decreases turns,
{
    if turns > 0 {
        lemma_mixed_len(challenge, password, (turns - 1) as nat);
    }
}

/// The O5LOGON verifier, stood in (see the module doc): the sixteen-byte
/// answer to `challenge` for `password`, a keyed mix a real client would
/// instead derive with AES. Deterministic, so this crate's own listener
/// checks it, and never the empty answer for a non-empty password.
#[must_use]
pub fn logon_verifier(challenge: &[u8; 16], password: &[u8]) -> (answer: [u8; 16])
    ensures
        answer@ == answer_to(challenge@, password@),
        password@.len() > 0 ==> answer@ != Seq::new(16, |i: int| 0u8),
{
    let mut state: [u8; 16] = *challenge;
    let mut pass: u8 = 0;
    while pass < 3
        invariant
            pass <= 3,
            state@ == mixed(challenge@, password@, (pass * 16) as nat),
        decreases 3 - pass,
    {
        let mut i: usize = 0;
        while i < 16
            invariant
                pass < 3,
                i <= 16,
                state@ == mixed(challenge@, password@, (pass * 16 + i) as nat),
            decreases 16 - i,
        {
            let key: u8 = if password.len() == 0 {
                pass
            } else {
                password[i % password.len()]
            };
            let prior: u8 = state[(i + 15) % 16];
            let sum: u8 = state[i].wrapping_add(key ^ pass);
            let ghost n = (pass * 16 + i) as nat;
            assert(n / 16 == pass as nat && n % 16 == i as nat);
            state[i] = ((sum << 3) | (sum >> 5)) ^ prior;
            assert(state@ =~= mixed(challenge@, password@, n + 1));
            i = i + 1;
        }
        pass = pass + 1;
    }
    let empty: [u8; 16] = [0u8;16];
    let full: [u8; 16] = [0xffu8;16];
    assert(empty@ =~= empty_answer());
    assert(full@ =~= full_answer());
    assert(full@[0] != empty@[0]);
    if password.len() > 0 && same_bytes(state.as_slice(), empty.as_slice()) {
        return full;
    }
    state
}

proof fn lemma_turned_is_one_to_one(a: u8, b: u8)
    ensures
        turned(a) == turned(b) ==> a == b,
{
    assert(((a << 3) | (a >> 5)) == ((b << 3) | (b >> 5)) ==> a == b) by (bit_vector);
}

proof fn lemma_mix_is_one_to_one(a: Seq<u8>, b: Seq<u8>, i: int, key: u8)
    requires
        a.len() == 16,
        b.len() == 16,
        0 <= i < 16,
        mix(a, i, key) == mix(b, i, key),
    ensures
        a == b,
{
    let before = (i + 15) % 16;
    assert(before != i);
    assert forall|j: int| 0 <= j < 16 && j != i implies a[j] == b[j] by {
        assert(mix(a, i, key)[j] == a[j]);
        assert(mix(b, i, key)[j] == b[j]);
    }
    let x = turned(a[i].wrapping_add(key));
    let y = turned(b[i].wrapping_add(key));
    let p = a[before];
    assert(mix(a, i, key)[i] == x ^ p);
    assert(mix(b, i, key)[i] == y ^ p);
    assert((x ^ p) == (y ^ p) ==> x == y) by (bit_vector);
    lemma_turned_is_one_to_one(a[i].wrapping_add(key), b[i].wrapping_add(key));
    assert(a[i] == b[i]);
    assert(a =~= b);
}

proof fn lemma_mixed_is_one_to_one(a: Seq<u8>, b: Seq<u8>, password: Seq<u8>, turns: nat)
    requires
        a.len() == 16,
        b.len() == 16,
        mixed(a, password, turns) == mixed(b, password, turns),
    ensures
        a == b,
    decreases turns,
{
    if turns > 0 {
        let n = (turns - 1) as nat;
        let pass = (n / 16) as u8;
        let key = key_byte(password, (n % 16) as int, pass) ^ pass;
        lemma_mixed_len(a, password, n);
        lemma_mixed_len(b, password, n);
        lemma_mix_is_one_to_one(
            mixed(a, password, n),
            mixed(b, password, n),
            (n % 16) as int,
            key,
        );
        lemma_mixed_is_one_to_one(a, b, password, n);
    }
}

/// Whether one of two blocks is the empty answer and the other what is
/// answered in its place.
pub open spec fn stand_in(a: Seq<u8>, b: Seq<u8>) -> bool {
    ||| a == empty_answer() && b == full_answer()
    ||| a == full_answer() && b == empty_answer()
}

/// The challenge matters: one password answers two challenges differently,
/// so an answer is of no use to another session. Left out are the two
/// challenges of a password that mix to the empty answer and to what is
/// answered in its place.
pub proof fn law_challenge_matters(a: Seq<u8>, b: Seq<u8>, password: Seq<u8>)
    requires
        a.len() == 16,
        b.len() == 16,
        a != b,
        password.len() > 0 ==> !stand_in(mixed(a, password, 48), mixed(b, password, 48)),
    ensures
        answer_to(a, password) != answer_to(b, password),
{
    if answer_to(a, password) == answer_to(b, password) {
        lemma_mixed_is_one_to_one(a, b, password, 48);
    }
}

/// The answer is always sixteen bytes.
pub proof fn law_answer_is_sixteen_bytes(challenge: Seq<u8>, password: Seq<u8>)
    requires
        challenge.len() == 16,
    ensures
        answer_to(challenge, password).len() == 16,
{
    lemma_mixed_len(challenge, password, 48);
}

/// A password that is not empty never gives the empty answer.
pub proof fn law_answer_is_not_empty(challenge: Seq<u8>, password: Seq<u8>)
    requires
        password.len() > 0,
    ensures
        answer_to(challenge, password) != empty_answer(),
{
    assert(full_answer()[0] != empty_answer()[0]);
}

/// Whether the mixes of `p` and of `q` agree on byte `j` after `turns` turns.
spec fn agree(challenge: Seq<u8>, p: Seq<u8>, q: Seq<u8>, turns: nat, j: int) -> bool {
    mixed(challenge, p, turns)[j] == mixed(challenge, q, turns)[j]
}

/// Byte `j` is as it was where no turn between came to it.
proof fn lemma_agree_kept(
    challenge: Seq<u8>,
    p: Seq<u8>,
    q: Seq<u8>,
    from: nat,
    to: nat,
    j: int,
)
    requires
        challenge.len() == 16,
        0 <= j < 16,
        from <= to,
        forall|n: nat| from <= n < to ==> (#[trigger] (n % 16)) as int != j,
    ensures
        agree(challenge, p, q, from, j) == agree(challenge, p, q, to, j),
    decreases to,
{
    if from < to {
        let n = (to - 1) as nat;
        lemma_mixed_len(challenge, p, n);
        lemma_mixed_len(challenge, q, n);
        assert((n % 16) as int != j);
        lemma_agree_kept(challenge, p, q, from, n, j);
    }
}

/// What a turn says of the byte it came to, where the mixes agree on it
/// afterwards: they agreed before where key and neighbour are the same, and
/// did not where one of the two is not.
proof fn lemma_agree_before(challenge: Seq<u8>, p: Seq<u8>, q: Seq<u8>, n: nat)
    requires
        challenge.len() == 16,
        p.len() > 0,
        q.len() > 0,
        n < 48,
        agree(challenge, p, q, n + 1, (n % 16) as int),
    ensures
        ({
            let i = (n % 16) as int;
            let neighbour = agree(challenge, p, q, n, (i + 15) % 16);
            let key = p[i % (p.len() as int)] == q[i % (q.len() as int)];
            &&& neighbour && key ==> agree(challenge, p, q, n, i)
            &&& neighbour && !key ==> !agree(challenge, p, q, n, i)
            &&& !neighbour && key ==> !agree(challenge, p, q, n, i)
        }),
{
    let i = (n % 16) as int;
    let pass = (n / 16) as u8;
    lemma_mixed_len(challenge, p, n);
    lemma_mixed_len(challenge, q, n);
    let a = mixed(challenge, p, n);
    let b = mixed(challenge, q, n);
    let x = p[i % (p.len() as int)];
    let y = q[i % (q.len() as int)];
    assert((x ^ pass) == (y ^ pass) <==> x == y) by (bit_vector);
    let u = turned(a[i].wrapping_add(x ^ pass));
    let v = turned(b[i].wrapping_add(y ^ pass));
    let s = a[(i + 15) % 16];
    let t = b[(i + 15) % 16];
    assert(mixed(challenge, p, n + 1)[i] == u ^ s);
    assert(mixed(challenge, q, n + 1)[i] == v ^ t);
    assert((u ^ s) == (v ^ t) ==> (u == v <==> s == t)) by (bit_vector);
    lemma_turned_is_one_to_one(a[i].wrapping_add(x ^ pass), b[i].wrapping_add(y ^ pass));
}

/// Turns that mix the same in keep the mixes the same.
proof fn lemma_agree_behind(challenge: Seq<u8>, p: Seq<u8>, q: Seq<u8>, n: nat)
    requires
        challenge.len() == 16,
        p.len() > 0,
        q.len() > 0,
        n < 16,
        mixed(challenge, p, n) == mixed(challenge, q, n),
        key_byte(p, n as int, 0) == key_byte(q, n as int, 0),
    ensures
        mixed(challenge, p, n + 1) == mixed(challenge, q, n + 1),
{
}

/// A wrong byte shows: of the sixteen bytes that two passwords, over and
/// over, mix in, let the last that differs be at `m`. Where the next two
/// round the block are the same, the passwords answer differently, but where
/// they mix to the empty answer and to what is answered in its place.
pub proof fn law_wrong_byte_shows(challenge: Seq<u8>, p: Seq<u8>, q: Seq<u8>, m: int)
    requires
        challenge.len() == 16,
        p.len() > 0,
        q.len() > 0,
        0 <= m < 16,
        key_byte(p, m, 0) != key_byte(q, m, 0),
        forall|i: int| m < i < 16 ==> #[trigger] key_byte(p, i, 0) == key_byte(q, i, 0),
        key_byte(p, (m + 1) % 16, 0) == key_byte(q, (m + 1) % 16, 0),
        key_byte(p, (m + 2) % 16, 0) == key_byte(q, (m + 2) % 16, 0),
        !stand_in(mixed(challenge, p, 48), mixed(challenge, q, 48)),
    ensures
        answer_to(challenge, p) != answer_to(challenge, q),
{
    if answer_to(challenge, p) == answer_to(challenge, q) {
        let last = (32 + m) as nat;
        let next = (m + 1) % 16;
        let after = (m + 2) % 16;
        lemma_agree_to_the_end(challenge, p, q, m, last + 1);
        assert(agree(challenge, p, q, last + 1, m));
        assert(agree(challenge, p, q, last + 1, (m + 15) % 16));
        lemma_agree_kept(challenge, p, q, last, last + 1, (m + 15) % 16);
        lemma_agree_before(challenge, p, q, last);
        assert(!agree(challenge, p, q, last, m));
        // The neighbour behind `m` was turned fifteen turns earlier, and
        // had its difference from `m`.
        lemma_agree_kept(challenge, p, q, (last - 15) as nat, last, m);
        assert(agree(challenge, p, q, last + 1, next));
        lemma_agree_kept(challenge, p, q, (last - 14) as nat, last + 1, next);
        lemma_agree_before(challenge, p, q, (last - 15) as nat);
        assert(!agree(challenge, p, q, (last - 15) as nat, next));
        // The one behind that was turned once more before, and had its
        // difference from the neighbour.
        assert(agree(challenge, p, q, last + 1, after));
        lemma_agree_kept(challenge, p, q, (last - 13) as nat, last + 1, after);
        lemma_agree_before(challenge, p, q, (last - 14) as nat);
        lemma_agree_kept(challenge, p, q, (last - 29) as nat, (last - 14) as nat, after);
        lemma_agree_kept(challenge, p, q, (last - 30) as nat, (last - 15) as nat, next);
        lemma_agree_before(challenge, p, q, (last - 30) as nat);
        assert(!agree(challenge, p, q, (last - 30) as nat, after));
        // Yet both began with the same challenge.
        if m < 14 {
            lemma_agree_kept(challenge, p, q, 0, (last - 30) as nat, after);
        } else {
            lemma_agree_behind(challenge, p, q, 0);
            if m == 15 {
                lemma_agree_behind(challenge, p, q, 1);
            }
            lemma_agree_kept(challenge, p, q, (after + 1) as nat, (last - 30) as nat, after);
        }
    }
}

proof fn lemma_agree_to_the_end(challenge: Seq<u8>, p: Seq<u8>, q: Seq<u8>, m: int, n: nat)
    requires
        challenge.len() == 16,
        p.len() > 0,
        q.len() > 0,
        0 <= m < 16,
        forall|i: int| m < i < 16 ==> #[trigger] key_byte(p, i, 0) == key_byte(q, i, 0),
        32 + m < n <= 48,
        mixed(challenge, p, 48) == mixed(challenge, q, 48),
    ensures
        forall|j: int| 0 <= j < 16 ==> #[trigger] agree(challenge, p, q, n, j),
    decreases 48 - n,
{
    if n < 48 {
        let i = (n % 16) as int;
        lemma_agree_to_the_end(challenge, p, q, m, n + 1);
        assert(agree(challenge, p, q, n + 1, i));
        assert(key_byte(p, i, 0) == key_byte(q, i, 0));
        assert forall|j: int| 0 <= j < 16 && j != i implies #[trigger] agree(
            challenge,
            p,
            q,
            n,
            j,
        ) by {
            assert(agree(challenge, p, q, n + 1, j));
            lemma_agree_kept(challenge, p, q, n, n + 1, j);
        }
        lemma_agree_before(challenge, p, q, n);
    }
}

// Messages.

/// One message: its tag and its already-encoded body.
#[derive(Clone, Debug, PartialEq, Eq)]
pub struct Message {
    pub tag: u8,
    pub body: Vec<u8>,
}

/// What a [`Message`] holds, as contracts speak of it.
pub struct MessageView {
    pub tag: u8,
    pub body: Seq<u8>,
}

impl View for Message {
    type V = MessageView;

    open spec fn view(&self) -> MessageView {
        MessageView { tag: self.tag, body: self.body@ }
    }
}

impl MessageView {
    /// The two-task payload: the tag, then the body.
    pub open spec fn payload(self) -> Seq<u8> {
        seq![self.tag] + self.body
    }

    /// The data packet that carries the message.
    pub open spec fn packet(self) -> PacketView {
        tns::data_packet(tns::DATA_FLAG, self.payload())
    }
}

/// The message a two-task payload carries.
pub open spec fn message_of(payload: Seq<u8>) -> Result<MessageView, Fault> {
    if payload.len() == 0 {
        Err(Fault::protocol("an empty two-task payload"@))
    } else {
        Ok(MessageView { tag: payload[0], body: payload.skip(1) })
    }
}

/// The message a packet carries; none where the packet is a goodbye.
pub open spec fn message_in(packet: PacketView) -> Result<Option<MessageView>, Fault> {
    match tns::data_in(packet) {
        Err(fault) => Err(fault),
        Ok((flag, payload)) => if flag == tns::DATA_FLAG_EOF {
            Ok(None)
        } else {
            match message_of(payload) {
                Ok(message) => Ok(Some(message)),
                Err(fault) => Err(fault),
            }
        },
    }
}

/// The message the peer sent; none where it said goodbye or closed.
pub open spec fn message_sent(packet: Option<PacketView>) -> Result<Option<MessageView>, Fault> {
    match packet {
        Some(packet) => message_in(packet),
        None => Ok(None),
    }
}

/// The message that was due from the peer.
pub open spec fn message_due(packet: Option<PacketView>) -> Result<MessageView, Fault> {
    match message_sent(packet) {
        Ok(Some(message)) => Ok(message),
        Ok(None) => Err(Fault::protocol("the peer closed before its message"@)),
        Err(fault) => Err(fault),
    }
}

/// A packet that may not have come, as contracts speak of it.
pub open spec fn packet_view(packet: Option<Packet>) -> Option<PacketView> {
    match packet {
        Some(packet) => Some(packet@),
        None => None,
    }
}

impl Message {
    /// A message of `tag` with an empty body.
    #[must_use]
    pub fn bare(tag: u8) -> (message: Self)
        ensures
            message@ == (MessageView { tag, body: Seq::empty() }),
    {
        Message { tag, body: Vec::new() }
    }

    /// The two-task payload: the tag, then the body.
    #[must_use]
    pub fn to_payload(&self) -> (out: Vec<u8>)
        ensures
            out@ == self@.payload(),
    {
        let mut out: Vec<u8> = Vec::new();
        out.push(self.tag);
        put_bytes(&mut out, self.body.as_slice());
        assert(out@ =~= self@.payload());
        out
    }

    /// The message a two-task payload carries.
    ///
    /// # Errors
    /// Where the payload is empty.
    pub fn from_payload(payload: &[u8]) -> (read: Result<Self, TransportError>)
        ensures
            match read {
                Ok(message) => message_of(payload@) == Ok::<_, Fault>(message@),
                Err(error) => message_of(payload@) == Err::<MessageView, _>(error@),
            },
    {
        if payload.len() == 0 {
            return Err(protocol_error("an empty two-task payload".to_owned()));
        }
        let body = slice_subrange(payload, 1, payload.len());
        assert(body@ =~= payload@.skip(1));
        Ok(Message { tag: payload[0], body: slice_to_vec(body) })
    }

    /// A cursor over this message's body.
    #[must_use]
    pub fn cursor(&self) -> (cursor: Cursor<'_>)
        ensures
            cursor@ == self@.body,
    {
        Cursor::new(self.body.as_slice())
    }

    /// The TNS data packet that carries this message.
    #[must_use]
    pub fn to_packet(&self) -> (packet: Packet)
        ensures
            packet@ == self@.packet(),
    {
        tns::data(self.to_payload().as_slice())
    }

    /// The message `packet` carries; `None` where the peer sent the
    /// end-of-file data flag (a logoff) or closed the connection.
    ///
    /// # Errors
    /// Where it is not a data packet, or the payload is empty.
    pub fn sent(packet: &Option<Packet>) -> (read: Result<Option<Self>, TransportError>)
        ensures
            match read {
                Ok(Some(message)) => message_sent(packet_view(*packet)) == Ok::<_, Fault>(
                    Some(message@),
                ),
                Ok(None) => message_sent(packet_view(*packet)) == Ok::<_, Fault>(
                    None::<MessageView>,
                ),
                Err(error) => message_sent(packet_view(*packet)) == Err::<
                    Option<MessageView>,
                    _,
                >(error@),
            },
    {
        let packet: &Packet = match packet {
            Some(packet) => packet,
            None => return Ok(None),
        };
        let (flag, payload) = match tns::read_data(packet) {
            Ok(read) => read,
            Err(error) => return Err(error),
        };
        if flag == tns::DATA_FLAG_EOF {
            return Ok(None);
        }
        match Self::from_payload(payload) {
            Ok(message) => Ok(Some(message)),
            Err(error) => Err(error),
        }
    }

    /// The message `packet` carries, which must be there.
    ///
    /// # Errors
    /// As [`Message::sent`], and where the peer said goodbye or closed.
    pub fn due(packet: &Option<Packet>) -> (read: Result<Self, TransportError>)
        ensures
            match read {
                Ok(message) => message_due(packet_view(*packet)) == Ok::<_, Fault>(message@),
                Err(error) => message_due(packet_view(*packet)) == Err::<MessageView, _>(error@),
            },
    {
        match Self::sent(packet) {
            Ok(Some(message)) => Ok(message),
            Ok(None) => Err(protocol_error("the peer closed before its message".to_owned())),
            Err(error) => Err(error),
        }
    }
}

/// The message of `tag` with `body`, in its packet.
pub open spec fn message_packet(tag: u8, body: Seq<u8>) -> PacketView {
    (MessageView { tag, body }).packet()
}

/// The message of `tag` with `body`, in its packet.
pub fn packet_of(tag: u8, body: Vec<u8>) -> (packet: Packet)
    ensures
        packet@ == message_packet(tag, body@),
{
    let message = Message { tag, body };
    message.to_packet()
}

/// Write `message` as one TNS data packet behind what `writer` holds.
///
/// # Errors
/// None: what is written to memory is written.
pub fn write_message(writer: &mut Vec<u8>, message: &Message) -> (written: Result<
    (),
    TransportError,
>)
    ensures
        written is Ok,
        final(writer)@ == old(writer)@ + message@.packet().bytes(),
{
    message.to_packet().write(writer)
}

/// What reading one message off `input` comes to.
pub open spec fn message_read(input: Seq<u8>) -> Result<Option<MessageView>, Fault> {
    match tns::packet_in(input).0 {
        Ok(packet) => message_sent(packet),
        Err(fault) => Err(fault),
    }
}

/// Read one TTC message off a TNS data packet; `None` where the peer sent
/// the end-of-file data flag (a logoff) or closed the connection.
///
/// # Errors
/// Where the connection broke, a non-data packet arrived, or the payload
/// was empty.
pub fn read_message(reader: &mut &[u8]) -> (read: Result<Option<Message>, TransportError>)
    ensures
        match read {
            Ok(Some(message)) => message_read(old(reader)@) == Ok::<_, Fault>(Some(message@)),
            Ok(None) => message_read(old(reader)@) == Ok::<_, Fault>(None::<MessageView>),
            Err(error) => message_read(old(reader)@) == Err::<Option<MessageView>, _>(error@),
        },
        final(reader)@ == tns::packet_in(old(reader)@).1,
{
    match Packet::read(reader) {
        Ok(packet) => Message::sent(&packet),
        Err(error) => Err(error),
    }
}

/// Read one TTC message, which must be there.
///
/// # Errors
/// As [`read_message`], and where the peer said goodbye or closed.
pub fn expect_message(reader: &mut &[u8]) -> (read: Result<Message, TransportError>)
    ensures
        match message_read(old(reader)@) {
            Ok(Some(message)) => read matches Ok(found) && found@ == message,
            Ok(None) => {
                &&& read matches Err(error)
                &&& error@ == Fault::protocol("the peer closed before its message"@)
            },
            Err(fault) => read matches Err(error) && error@ == fault,
        },
        final(reader)@ == tns::packet_in(old(reader)@).1,
{
    match read_message(reader) {
        Ok(Some(message)) => Ok(message),
        Ok(None) => Err(protocol_error("the peer closed before its message".to_owned())),
        Err(error) => Err(error),
    }
}

// What is written reads back.

/// A count that fits its two bytes reads back.
pub proof fn law_count_reads_back(count: nat, rest: Seq<u8>)
    requires
        count <= 65535,
    ensures
        cursor::u16_in(wire::count_of(count) + rest) == Ok::<_, Fault>((count as u16, rest)),
{
    wire::lemma_be_two(count);
    let input = wire::count_of(count) + rest;
    assert(input.take(2) =~= wire::count_of(count));
    assert(input.skip(2) =~= rest);
}

/// Counted bytes whose length fits its two bytes read back, every byte.
pub proof fn law_counted_reads_back(bytes: Seq<u8>, rest: Seq<u8>)
    requires
        bytes.len() <= 65535,
    ensures
        counted_in(counted_bytes(bytes) + rest) == Ok::<_, Fault>((bytes, rest)),
{
    assert(counted_bytes(bytes) + rest =~= wire::count_of(bytes.len()) + (bytes + rest));
    law_count_reads_back(bytes.len(), bytes + rest);
    assert((bytes + rest).take(bytes.len() as int) =~= bytes);
    assert((bytes + rest).skip(bytes.len() as int) =~= rest);
}

/// A string whose length fits its two bytes reads back.
pub proof fn law_string_reads_back(text: Seq<char>, rest: Seq<u8>)
    requires
        encode_utf8(text).len() <= 65535,
    ensures
        string_in(string_bytes(text) + rest) == Ok::<_, Fault>((text, rest)),
{
    law_counted_reads_back(encode_utf8(text), rest);
    text::law_text_reads_back(text);
}

/// An integer and a long read back.
pub proof fn law_numbers_read_back(n: nat, rest: Seq<u8>)
    ensures
        n < 0x1_0000_0000 ==> integer_in(counted_bytes(wire::be(n, 4)) + rest) == Ok::<_, Fault>(
            (n, rest),
        ),
        n < 0x1_0000_0000_0000_0000 ==> long_in(counted_bytes(wire::be(n, 8)) + rest) == Ok::<
            _,
            Fault,
        >((n, rest)),
{
    wire::lemma_spans();
    wire::lemma_be_len(n, 4);
    wire::lemma_be_len(n, 8);
    law_counted_reads_back(wire::be(n, 4), rest);
    law_counted_reads_back(wire::be(n, 8), rest);
    if n < 0x1_0000_0000 {
        wire::law_be_reads_back(n, 4);
    }
    if n < 0x1_0000_0000_0000_0000 {
        wire::law_be_reads_back(n, 8);
    }
}

/// A column value reads back, and NULL as NULL.
pub proof fn law_value_reads_back(value: Option<Seq<u8>>, rest: Seq<u8>)
    requires
        value matches Some(bytes) ==> bytes.len() <= 65535,
    ensures
        value_in(value_bytes(value) + rest) == Ok::<_, Fault>((value, rest)),
{
    let input = value_bytes(value) + rest;
    match value {
        Some(bytes) => {
            assert(input.skip(1) =~= counted_bytes(bytes) + rest);
            law_counted_reads_back(bytes, rest);
        },
        None => {
            assert(input.skip(1) =~= rest);
        },
    }
}

/// A genuine empty value and a NULL are two different shapes: no bytes
/// begin as both.
pub proof fn law_empty_is_not_null(rest: Seq<u8>, other: Seq<u8>)
    ensures
        value_bytes(Some(Seq::empty())) + rest != value_bytes(None) + other,
{
    assert((value_bytes(Some(Seq::empty())) + rest)[0] == 1);
    assert((value_bytes(None) + other)[0] == 0);
}

/// Counted runs, one behind the other.
pub open spec fn counted_runs(runs: Seq<Seq<u8>>) -> Seq<u8>
    decreases runs.len(),
{
    if runs.len() == 0 {
        Seq::empty()
    } else {
        counted_bytes(runs[0]) + counted_runs(runs.drop_first())
    }
}

/// One more run stands behind the others.
pub proof fn lemma_counted_runs_push(runs: Seq<Seq<u8>>, run: Seq<u8>)
    ensures
        counted_runs(runs.push(run)) == counted_runs(runs) + counted_bytes(run),
    decreases runs.len(),
{
    if runs.len() == 0 {
        assert(runs.push(run).drop_first() =~= Seq::empty());
        assert(counted_runs(Seq::empty()) =~= Seq::empty());
        assert(counted_runs(runs.push(run)) =~= counted_runs(runs) + counted_bytes(run));
    } else {
        lemma_counted_runs_push(runs.drop_first(), run);
        assert(runs.push(run).drop_first() =~= runs.drop_first().push(run));
        assert(counted_runs(runs.push(run)) =~= counted_runs(runs) + counted_bytes(run));
    }
}

/// Column values, one behind the other.
pub open spec fn value_runs(row: Seq<Option<Seq<u8>>>) -> Seq<u8>
    decreases row.len(),
{
    if row.len() == 0 {
        Seq::empty()
    } else {
        value_bytes(row[0]) + value_runs(row.drop_first())
    }
}

/// One more value stands behind the others.
pub proof fn lemma_value_runs_push(row: Seq<Option<Seq<u8>>>, value: Option<Seq<u8>>)
    ensures
        value_runs(row.push(value)) == value_runs(row) + value_bytes(value),
    decreases row.len(),
{
    if row.len() == 0 {
        assert(row.push(value).drop_first() =~= Seq::empty());
        assert(value_runs(Seq::empty()) =~= Seq::empty());
        assert(value_runs(row.push(value)) =~= value_runs(row) + value_bytes(value));
    } else {
        lemma_value_runs_push(row.drop_first(), value);
        assert(row.push(value).drop_first() =~= row.drop_first().push(value));
        assert(value_runs(row.push(value)) =~= value_runs(row) + value_bytes(value));
    }
}

/// A count and that many counted values read back, each of them.
pub proof fn law_values_read_back(runs: Seq<Seq<u8>>, rest: Seq<u8>)
    requires
        runs.len() <= 65535,
        forall|i: int| 0 <= i < runs.len() ==> (#[trigger] runs[i]).len() <= 65535,
    ensures
        values_in(wire::count_of(runs.len()) + counted_runs(runs) + rest) == Ok::<_, Fault>(
            (runs, rest),
        ),
{
    let fields = counted_runs(runs) + rest;
    assert(wire::count_of(runs.len()) + counted_runs(runs) + rest =~= wire::count_of(runs.len())
        + fields);
    law_count_reads_back(runs.len(), fields);
    lemma_runs_read_back(runs, rest);
}

proof fn lemma_runs_read_back(runs: Seq<Seq<u8>>, rest: Seq<u8>)
    requires
        forall|i: int| 0 <= i < runs.len() ==> (#[trigger] runs[i]).len() <= 65535,
    ensures
        counted_run_in(counted_runs(runs) + rest, runs.len()) == Ok::<_, Fault>((runs, rest)),
    decreases runs.len(),
{
    if runs.len() == 0 {
        assert(counted_runs(runs) + rest =~= rest);
        assert(runs =~= Seq::empty());
    } else {
        let others = runs.drop_first();
        assert(counted_runs(runs) + rest =~= counted_bytes(runs[0]) + (counted_runs(others)
            + rest));
        law_counted_reads_back(runs[0], counted_runs(others) + rest);
        lemma_runs_read_back(others, rest);
        assert(seq![runs[0]] + others =~= runs);
    }
}

/// A message is what its payload and its packet read back as.
pub proof fn law_message_reads_back(message: MessageView)
    ensures
        message_of(message.payload()) == Ok::<_, Fault>(message),
        message_sent(Some(message.packet())) == Ok::<_, Fault>(Some(message)),
        message_due(Some(message.packet())) == Ok::<_, Fault>(message),
{
    assert(message.payload().skip(1) =~= message.body);
    tns::law_data_reads_back(message.payload());
}

/// A message whose packet fits is read off the wire as it was written, and
/// what follows it is left to read.
pub proof fn law_message_crosses_the_wire(message: MessageView, rest: Seq<u8>)
    requires
        message.packet().fits(),
    ensures
        message_read(message.packet().bytes() + rest) == Ok::<_, Fault>(Some(message)),
        tns::packet_in(message.packet().bytes() + rest).1 == rest,
{
    tns::law_packet_reads_back(message.packet(), rest);
    law_message_reads_back(message);
}

/// A goodbye and a closed connection are no message.
pub proof fn law_goodbye_is_no_message()
    ensures
        message_sent(Some(tns::data_packet(tns::DATA_FLAG_EOF, Seq::empty()))) == Ok::<_, Fault>(
            None::<MessageView>,
        ),
        message_sent(None) == Ok::<_, Fault>(None::<MessageView>),
{
    tns::law_data_reads_back(Seq::empty());
}

// What fields, messages and answers are, byte by byte.

/// How fields are written: a length in two bytes, most significant first,
/// and then the bytes whole. A value has a one in front, and NULL is a zero
/// alone. A length over what two bytes hold is written as the largest they
/// do, and no byte is left out.
pub proof fn law_field_layout(bytes: Seq<u8>, text: Seq<char>)
    ensures
        ({
            let length = if bytes.len() <= 65535 {
                seq![(bytes.len() / 256) as u8, (bytes.len() % 256) as u8]
            } else {
                seq![255u8, 255u8]
            };
            &&& counted_bytes(bytes) == length + bytes
            &&& value_bytes(Some(bytes)) == seq![1u8] + length + bytes
        }),
        value_bytes(None) == seq![0u8],
        string_bytes(text) == counted_bytes(encode_utf8(text)),
{
    wire::law_count_saturates(bytes.len());
    assert(value_bytes(Some(bytes)) =~= seq![1u8] + wire::count_of(bytes.len()) + bytes);
}

/// How counted bytes and strings are read: the first two bytes are a length,
/// most significant first, and so many bytes behind them are what was
/// counted. They are read wherever there are so many.
pub proof fn law_counted_is_read(rest: Seq<u8>)
    ensures
        ({
            let n = rest[0] * 256 + rest[1];
            if rest.len() >= 2 && rest.len() >= 2 + n {
                &&& counted_in(rest) == Ok::<_, Fault>((rest.subrange(2, 2 + n), rest.skip(2 + n)))
                &&& string_in(rest) == Ok::<_, Fault>(
                    (text::lossy_text(rest.subrange(2, 2 + n)), rest.skip(2 + n)),
                )
            } else {
                &&& counted_in(rest) matches Err(fault)
                &&& !fault.retryable
                &&& string_in(rest) == Err::<(Seq<char>, Seq<u8>), _>(fault)
                &&& rest.len() >= 2 ==> fault == cursor::runs_past(
                    n as nat,
                    (rest.len() - 2) as nat,
                )
                &&& counted_stop(rest) == if rest.len() >= 2 {
                    rest.skip(2)
                } else {
                    rest
                }
            }
        }),
{
    cursor::law_numbers_are_taken(rest);
    if rest.len() >= 2 {
        let n = rest[0] * 256 + rest[1];
        if rest.len() >= 2 + n {
            assert(rest.skip(2).take(n) =~= rest.subrange(2, 2 + n));
            assert(rest.skip(2).skip(n) =~= rest.skip(2 + n));
        }
    }
}

/// How a column value is read: behind a zero it is NULL, and behind any other
/// byte it is what is counted there.
pub proof fn law_value_is_read(rest: Seq<u8>)
    ensures
        rest.len() == 0 ==> (value_in(rest) matches Err(fault) && !fault.retryable) && value_stop(
            rest,
        ) == rest,
        rest.len() > 0 && rest[0] == 0 ==> value_in(rest) == Ok::<_, Fault>(
            (None::<Seq<u8>>, rest.skip(1)),
        ),
        rest.len() > 0 && rest[0] != 0 ==> {
            &&& value_in(rest) == match counted_in(rest.skip(1)) {
                Ok((bytes, left)) => Ok::<_, Fault>((Some(bytes), left)),
                Err(fault) => Err(fault),
            }
            &&& value_stop(rest) == counted_stop(rest.skip(1))
        },
{
    cursor::law_numbers_are_taken(rest);
}

/// How numbers are read: an integer is four bytes that are counted and a long
/// eight, each weighed by its place. Any other count is told as such.
pub proof fn law_number_is_read(rest: Seq<u8>)
    ensures
        match counted_in(rest) {
            Err(fault) => {
                &&& integer_in(rest) == Err::<(nat, Seq<u8>), _>(fault)
                &&& long_in(rest) == Err::<(nat, Seq<u8>), _>(fault)
                &&& number_stop(rest) == counted_stop(rest)
            },
            Ok((bytes, left)) => {
                &&& number_stop(rest) == left
                &&& if bytes.len() == 4 {
                    integer_in(rest) == Ok::<_, Fault>(
                        (
                            (bytes[0] * 0x100_0000 + bytes[1] * 0x1_0000 + bytes[2] * 256
                                + bytes[3]) as nat,
                            left,
                        ),
                    )
                } else {
                    &&& integer_in(rest) matches Err(fault)
                    &&& !fault.retryable
                    &&& fault.message == "a TTC integer that is not four bytes"@
                }
                &&& if bytes.len() == 8 {
                    long_in(rest) == Ok::<_, Fault>(
                        (
                            (bytes[0] * 0x100_0000_0000_0000 + bytes[1] * 0x1_0000_0000_0000
                                + bytes[2] * 0x100_0000_0000 + bytes[3] * 0x1_0000_0000 + bytes[4]
                                * 0x100_0000 + bytes[5] * 0x1_0000 + bytes[6] * 256
                                + bytes[7]) as nat,
                            left,
                        ),
                    )
                } else {
                    &&& long_in(rest) matches Err(fault)
                    &&& !fault.retryable
                    &&& fault.message == "a TTC long that is not eight bytes"@
                }
            },
        },
{
    if let Ok((bytes, left)) = counted_in(rest) {
        wire::law_bytes_weigh_by_place(bytes);
    }
}

/// How counted values are read: as many as the first two bytes say, each
/// counted, one behind the other. What is read, written again, is what was
/// there, and each value is kept in its place.
pub proof fn law_values_are_read(rest: Seq<u8>)
    ensures
        match values_in(rest) {
            Ok((values, left)) => {
                &&& rest.len() >= 2
                &&& values.len() == rest[0] * 256 + rest[1]
                &&& rest == rest.take(2) + counted_runs(values) + left
            },
            Err(fault) => !fault.retryable,
        },
{
    cursor::law_numbers_are_taken(rest);
    if rest.len() >= 2 {
        let left = rest.skip(2);
        let count = (rest[0] * 256 + rest[1]) as nat;
        lemma_runs_written_again(left, count);
        if let Ok((values, behind)) = counted_run_in(left, count) {
            assert(rest =~= rest.take(2) + left);
            assert(rest.take(2) + counted_runs(values) + behind =~= rest.take(2) + (counted_runs(
                values,
            ) + behind));
        }
    }
}

proof fn lemma_runs_written_again(rest: Seq<u8>, n: nat)
    ensures
        match counted_run_in(rest, n) {
            Ok((values, left)) => values.len() == n && rest == counted_runs(values) + left,
            Err(fault) => !fault.retryable,
        },
    decreases n,
{
    if n == 0 {
        assert(rest =~= counted_runs(Seq::empty()) + rest);
    } else {
        law_counted_is_read(rest);
        if let Ok((first, left)) = counted_in(rest) {
            lemma_runs_written_again(left, (n - 1) as nat);
            if let Ok((more, behind)) = counted_run_in(left, (n - 1) as nat) {
                let values = seq![first] + more;
                assert(values.drop_first() =~= more);
                law_field_layout(first, Seq::empty());
                let length = (rest[0] * 256 + rest[1]) as nat;
                assert(length / 256 == rest[0] && length % 256 == rest[1]);
                assert(rest =~= counted_bytes(first) + left);
                assert(counted_runs(values) + behind =~= counted_bytes(first) + (counted_runs(more)
                    + behind));
            }
        }
    }
}

/// Counted values are written one behind the other, and none is left out.
pub proof fn law_values_are_written(runs: Seq<Seq<u8>>, run: Seq<u8>)
    ensures
        counted_runs(Seq::empty()).len() == 0,
        counted_runs(runs.push(run)) == counted_runs(runs) + counted_bytes(run),
{
    lemma_counted_runs_push(runs, run);
}

/// Column values are written one behind the other, and none is left out.
pub proof fn law_row_is_written(row: Seq<Option<Seq<u8>>>, value: Option<Seq<u8>>)
    ensures
        value_runs(Seq::empty()).len() == 0,
        value_runs(row.push(value)) == value_runs(row) + value_bytes(value),
{
    lemma_value_runs_push(row, value);
}

/// Where a read of counted values fails: behind those that were read, and
/// where the one that was not stops.
pub proof fn law_failed_values_stop(rest: Seq<u8>, n: nat)
    ensures
        rest.len() < 2 ==> values_stop(rest) == rest,
        rest.len() >= 2 ==> values_stop(rest) == counted_run_stop(
            rest.skip(2),
            (rest[0] * 256 + rest[1]) as nat,
        ),
        counted_run_stop(rest, 0) == rest,
        counted_run_stop(rest, n + 1) == match counted_in(rest) {
            Ok((_, left)) => counted_run_stop(left, n),
            Err(_) => counted_stop(rest),
        },
{
    cursor::law_numbers_are_taken(rest);
}

/// A value is its bytes, NULL is none, and runs of bytes are theirs in order.
pub proof fn law_values_are_seen(bytes: Vec<u8>, slice: &[u8], runs: Seq<Vec<u8>>)
    ensures
        value_view(Some(bytes)) == Some(bytes@),
        value_view(None) == None::<Seq<u8>>,
        bound_view(Some(slice)) == Some(slice@),
        bound_view(None) == None::<Seq<u8>>,
        byte_runs(runs).len() == runs.len(),
        forall|i: int| 0 <= i < runs.len() ==> #[trigger] byte_runs(runs)[i] == runs[i]@,
{
}

/// A message is sent as a data packet: two zeros, its tag, and its body
/// whole.
pub proof fn law_message_layout(message: MessageView)
    ensures
        message.payload() == seq![message.tag] + message.body,
        message.packet() == (PacketView {
            kind: 6,
            body: seq![0u8, 0u8, message.tag] + message.body,
        }),
        message_packet(message.tag, message.body) == message.packet(),
{
    tns::law_packet_shapes(Seq::empty(), 0, message.payload());
    assert(message.packet().body =~= seq![0u8, 0u8, message.tag] + message.body);
}

/// What message a packet carries, byte by byte: behind the two bytes of the
/// flag the third is its tag, and all that follows is its body. The flag 64
/// and a connection that closed are no message; a packet that is not data,
/// or has nothing behind its flag, is an error that is not worth another
/// attempt.
pub proof fn law_message_is_carried(packet: PacketView)
    ensures
        ({
            let flag = packet.body[0] * 256 + packet.body[1];
            if packet.kind != 6 || packet.body.len() < 2 {
                &&& message_sent(Some(packet)) matches Err(fault)
                &&& !fault.retryable
                &&& fault.message == "not a data packet"@
                &&& message_due(Some(packet)) == Err::<MessageView, _>(fault)
            } else if flag == 64 {
                &&& message_sent(Some(packet)) matches Ok(None)
                &&& message_due(Some(packet)) matches Err(fault)
                &&& !fault.retryable
                &&& fault.message == "the peer closed before its message"@
            } else if packet.body.len() == 2 {
                &&& message_sent(Some(packet)) matches Err(fault)
                &&& !fault.retryable
                &&& fault.message == "an empty two-task payload"@
                &&& message_due(Some(packet)) == Err::<MessageView, _>(fault)
            } else {
                let message = MessageView { tag: packet.body[2], body: packet.body.skip(3) };
                &&& message_sent(Some(packet)) == Ok::<_, Fault>(Some(message))
                &&& message_due(Some(packet)) == Ok::<_, Fault>(message)
            }
        }),
        message_sent(None) == Ok::<_, Fault>(None::<MessageView>),
        message_due(None) matches Err(fault) && !fault.retryable && fault.message
            == "the peer closed before its message"@,
{
    tns::law_packet_carries(packet);
    if packet.kind == 6 && packet.body.len() >= 3 {
        assert(packet.body.skip(2).skip(1) =~= packet.body.skip(3));
    }
}

/// A message that is read off a wire is the one that its packet carries.
pub proof fn law_message_is_read(input: Seq<u8>)
    ensures
        match tns::packet_in(input).0 {
            Ok(packet) => message_read(input) == message_sent(packet),
            Err(fault) => message_read(input) == Err::<Option<MessageView>, _>(fault),
        },
{
}

/// One turn of the mix, bit by bit. Turn `n` is at byte `n % 16` in pass
/// `n / 16`: the byte of the password that falls on it, the password taken
/// over and over and the pass where it is empty, is crossed with the pass and
/// added; the sum is turned left by three and crossed with the byte before.
/// Every other byte stays.
pub proof fn law_turn_of_the_mix(challenge: Seq<u8>, password: Seq<u8>, n: nat)
    requires
        challenge.len() == 16,
        n < 48,
    ensures
        ({
            let pass = (n / 16) as u8;
            let i = (n % 16) as int;
            let old_block = mixed(challenge, password, n);
            let block = mixed(challenge, password, n + 1);
            let key = if password.len() == 0 {
                pass
            } else {
                password[i % (password.len() as int)]
            };
            let sum = ((old_block[i] + (key ^ pass)) % 256) as u8;
            &&& old_block.len() == 16
            &&& block.len() == 16
            &&& block[i] == ((sum << 3u8) | (sum >> 5u8)) ^ old_block[if i == 0 {
                15
            } else {
                i - 1
            }]
            &&& forall|j: int| 0 <= j < 16 && j != i ==> #[trigger] block[j] == old_block[j]
        }),
{
    lemma_mixed_len(challenge, password, n);
    lemma_mixed_len(challenge, password, n + 1);
    let i = (n % 16) as int;
    assert((i + 15) % 16 == if i == 0 {
        15
    } else {
        i - 1
    });
}

/// The answer is the challenge after three passes over its sixteen bytes. Only
/// where that is sixteen zeros, for a password that is not empty, is it
/// sixteen times 255 instead.
pub proof fn law_answer_is_three_passes(challenge: Seq<u8>, password: Seq<u8>)
    requires
        challenge.len() == 16,
    ensures
        mixed(challenge, password, 0) == challenge,
        ({
            let block = mixed(challenge, password, 48);
            let zeros = forall|i: int| 0 <= i < 16 ==> #[trigger] block[i] == 0;
            let answer = answer_to(challenge, password);
            &&& answer.len() == 16
            &&& password.len() == 0 || !zeros ==> answer == block
            &&& password.len() > 0 && zeros ==> forall|i: int|
                0 <= i < 16 ==> #[trigger] answer[i] == 255
        }),
{
    lemma_mixed_len(challenge, password, 48);
    let block = mixed(challenge, password, 48);
    if forall|i: int| 0 <= i < 16 ==> #[trigger] block[i] == 0 {
        assert(block =~= empty_answer());
    }
    if block == empty_answer() {
        assert forall|i: int| 0 <= i < 16 implies #[trigger] block[i] == 0 by {
            assert(empty_answer()[i] == 0);
        }
    }
}

/// A wrong byte shows, told by the bytes of the passwords themselves: let the
/// last of sixteen places on which the two, taken over and over, differ be
/// `m`. Where the next two places round the block are the same, and neither
/// mix stands in for the other, the answers differ.
pub proof fn law_password_byte_matters(challenge: Seq<u8>, p: Seq<u8>, q: Seq<u8>, m: int)
    requires
        challenge.len() == 16,
        p.len() > 0,
        q.len() > 0,
        0 <= m < 16,
        p[m % (p.len() as int)] != q[m % (q.len() as int)],
        forall|i: int|
            m < i < 16 ==> p[#[trigger] (i % (p.len() as int))] == q[i % (q.len() as int)],
        p[(m + 1) % 16 % (p.len() as int)] == q[(m + 1) % 16 % (q.len() as int)],
        p[(m + 2) % 16 % (p.len() as int)] == q[(m + 2) % 16 % (q.len() as int)],
        !stand_in(mixed(challenge, p, 48), mixed(challenge, q, 48)),
    ensures
        answer_to(challenge, p) != answer_to(challenge, q),
{
    assert forall|i: int| m < i < 16 implies #[trigger] key_byte(p, i, 0) == key_byte(q, i, 0) by {
        assert(p[i % (p.len() as int)] == q[i % (q.len() as int)]);
    }
    law_wrong_byte_shows(challenge, p, q, m);
}

/// Messages and packets are seen as they are, and every byte of them.
pub proof fn law_messages_are_seen(message: Message, packet: Packet)
    ensures
        message@.tag == message.tag,
        message@.body == message.body@,
        packet_view(Some(packet)) == Some(PacketView { kind: packet.kind, body: packet.body@ }),
        packet_view(None) == None::<PacketView>,
{
}

} // verus!
