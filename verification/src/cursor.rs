//! A cursor over bytes that are read front to back. A read that the bytes
//! are too few for fails and leaves the cursor where it was.

use vstd::prelude::*;
use vstd::slice::slice_subrange;
use vstd::string::*;

use crate::error::{protocol_error, Fault, TransportError};
use crate::text;
use crate::text::decimal_text;
use crate::wire;
use crate::wire::read_be;

verus! {

/// The fault of a read of `n` bytes where only `left` are left.
pub open spec fn runs_past(n: nat, left: nat) -> Fault {
    Fault::protocol(
        "a field of "@ + text::decimal(n) + " bytes runs past the "@ + text::decimal(left)
            + " that are left"@,
    )
}

/// What taking `n` bytes off `rest` comes to: them, and what is left.
pub open spec fn taken(rest: Seq<u8>, n: nat) -> Result<(Seq<u8>, Seq<u8>), Fault> {
    if n <= rest.len() {
        Ok((rest.take(n as int), rest.skip(n as int)))
    } else {
        Err(runs_past(n, rest.len()))
    }
}

/// What taking a two-byte number off `rest` comes to.
pub open spec fn u16_in(rest: Seq<u8>) -> Result<(u16, Seq<u8>), Fault> {
    match taken(rest, 2) {
        Ok((front, left)) => Ok((wire::be_value(front) as u16, left)),
        Err(fault) => Err(fault),
    }
}

/// What taking one byte off `rest` comes to.
pub open spec fn byte_in(rest: Seq<u8>) -> Result<(u8, Seq<u8>), Fault> {
    match taken(rest, 1) {
        Ok((front, left)) => Ok((front[0], left)),
        Err(fault) => Err(fault),
    }
}

/// A cursor over bytes; its view is what is left to read.
pub struct Cursor<'a> {
    rest: &'a [u8],
}

impl<'a> View for Cursor<'a> {
    type V = Seq<u8>;

    closed spec fn view(&self) -> Seq<u8> {
        self.rest@
    }
}

impl<'a> Cursor<'a> {
    /// A cursor at the front of `bytes`.
    #[must_use]
    pub fn new(bytes: &'a [u8]) -> (cursor: Self)
        ensures
            cursor@ == bytes@,
    {
        Cursor { rest: bytes }
    }

    /// The next `n` bytes.
    ///
    /// # Errors
    /// Where fewer are left.
    pub fn take(&mut self, n: usize) -> (read: Result<&'a [u8], TransportError>)
        ensures
            match taken(old(self)@, n as nat) {
                Ok((front, left)) => {
                    &&& read matches Ok(bytes)
                    &&& bytes@ == front
                    &&& final(self)@ == left
                },
                Err(fault) => {
                    &&& read matches Err(error)
                    &&& error@ == fault
                    &&& final(self)@ == old(self)@
                },
            },
    {
        let all: &'a [u8] = self.rest;
        if n <= all.len() {
            let front: &'a [u8] = slice_subrange(all, 0, n);
            self.rest = slice_subrange(all, n, all.len());
            assert(front@ =~= all@.take(n as int));
            assert(self.rest@ =~= all@.skip(n as int));
            Ok(front)
        } else {
            let mut message = "a field of ".to_owned();
            message.append(decimal_text(n as u128).as_str());
            message.append(" bytes runs past the ");
            message.append(decimal_text(all.len() as u128).as_str());
            message.append(" that are left");
            Err(protocol_error(message))
        }
    }

    /// The next byte.
    ///
    /// # Errors
    /// Where none is left.
    pub fn byte(&mut self) -> (read: Result<u8, TransportError>)
        ensures
            match byte_in(old(self)@) {
                Ok((byte, left)) => read == Ok::<_, TransportError>(byte) && final(self)@ == left,
                Err(fault) => {
                    &&& read matches Err(error)
                    &&& error@ == fault
                    &&& final(self)@ == old(self)@
                },
            },
    {
        match self.take(1) {
            Ok(front) => Ok(front[0]),
            Err(error) => Err(error),
        }
    }

    /// The next two bytes, as a big-endian number.
    ///
    /// # Errors
    /// Where fewer are left.
    pub fn u16_be(&mut self) -> (read: Result<u16, TransportError>)
        ensures
            match u16_in(old(self)@) {
                Ok((n, left)) => read == Ok::<_, TransportError>(n) && final(self)@ == left,
                Err(fault) => {
                    &&& read matches Err(error)
                    &&& error@ == fault
                    &&& final(self)@ == old(self)@
                },
            },
    {
        match self.take(2) {
            Ok(front) => {
                proof {
                    wire::lemma_spans();
                    wire::law_be_writes_back(front@);
                }
                Ok(read_be(front) as u16)
            },
            Err(error) => Err(error),
        }
    }
}

/// Bytes are taken off the front, as many as were asked for and every one of
/// them, wherever there are as many; where there are not, both numbers are
/// told and trying again is of no use.
pub proof fn law_bytes_are_taken(rest: Seq<u8>, n: nat)
    ensures
        match taken(rest, n) {
            Ok((front, left)) => {
                &&& front.len() == n
                &&& front + left == rest
            },
            Err(fault) => {
                &&& n > rest.len()
                &&& !fault.retryable
                &&& fault.message == "a field of "@ + text::decimal(n) + " bytes runs past the "@
                    + text::decimal(rest.len()) + " that are left"@
            },
        },
{
    if n <= rest.len() {
        assert(rest.take(n as int) + rest.skip(n as int) =~= rest);
    }
}

/// A byte is the first one, and a two-byte number the first two, most
/// significant first; what is behind them is left. Neither is read where
/// there are too few.
pub proof fn law_numbers_are_taken(rest: Seq<u8>)
    ensures
        match byte_in(rest) {
            Ok((byte, left)) => seq![byte] + left == rest,
            Err(fault) => rest.len() == 0 && !fault.retryable,
        },
        match u16_in(rest) {
            Ok((n, left)) => {
                &&& rest.len() >= 2
                &&& n == rest[0] * 256 + rest[1]
                &&& left == rest.skip(2)
            },
            Err(fault) => rest.len() < 2 && !fault.retryable,
        },
{
    if rest.len() >= 1 {
        assert(seq![rest[0]] + rest.skip(1) =~= rest);
    }
    if rest.len() >= 2 {
        wire::law_bytes_weigh_by_place(rest.take(2));
    }
}

} // verus!
