//! Numbers as bytes: every number on this wire is written big-endian, most
//! significant byte first, in a fixed width.

use vstd::prelude::*;

verus! {

/// `n` in `width` bytes, most significant first.
pub open spec fn be(n: nat, width: nat) -> Seq<u8>
    decreases width,
{
    if width == 0 {
        Seq::empty()
    } else {
        be(n / 256, (width - 1) as nat).push((n % 256) as u8)
    }
}

/// The number that `bytes` are, most significant first.
pub open spec fn be_value(bytes: Seq<u8>) -> nat
    decreases bytes.len(),
{
    if bytes.len() == 0 {
        0
    } else {
        be_value(bytes.drop_last()) * 256 + bytes.last() as nat
    }
}

/// How many numbers `width` bytes tell apart.
pub open spec fn be_span(width: nat) -> nat
    decreases width,
{
    if width == 0 {
        1
    } else {
        256 * be_span((width - 1) as nat)
    }
}

/// `n` in two bytes, or the largest two bytes hold where it is over that.
pub open spec fn count_of(n: nat) -> Seq<u8> {
    be(if n <= 65535 { n } else { 65535 }, 2)
}

pub proof fn lemma_be_len(n: nat, width: nat)
    ensures
        be(n, width).len() == width,
    decreases width,
{
    if width > 0 {
        lemma_be_len(n / 256, (width - 1) as nat);
    }
}

/// A number that its width can hold is what its bytes read back as.
pub proof fn law_be_reads_back(n: nat, width: nat)
    requires
        n < be_span(width),
    ensures
        be(n, width).len() == width,
        be_value(be(n, width)) == n,
    decreases width,
{
    if width > 0 {
        let shorter = (width - 1) as nat;
        lemma_be_len(n, width);
        assert(n / 256 < be_span(shorter));
        law_be_reads_back(n / 256, shorter);
        assert(be(n, width).drop_last() =~= be(n / 256, shorter));
        assert(be(n, width).last() == (n % 256) as u8);
    }
}

/// Bytes are what their number is written back as.
pub proof fn law_be_writes_back(bytes: Seq<u8>)
    ensures
        be_value(bytes) < be_span(bytes.len()),
        be(be_value(bytes), bytes.len()) == bytes,
    decreases bytes.len(),
{
    if bytes.len() > 0 {
        law_be_writes_back(bytes.drop_last());
        let n = be_value(bytes);
        assert(n / 256 == be_value(bytes.drop_last()));
        assert(n % 256 == bytes.last() as nat);
        assert(bytes =~= bytes.drop_last().push(bytes.last()));
    }
}

/// The spans of the widths in use.
pub proof fn lemma_spans()
    ensures
        be_span(2) == 65536,
        be_span(4) == 0x1_0000_0000,
        be_span(8) == 0x1_0000_0000_0000_0000,
{
    reveal_with_fuel(be_span, 9);
}

/// The two bytes of a count that fits them, one by one.
pub proof fn lemma_be_two(n: nat)
    requires
        n <= 65535,
    ensures
        be(n, 2) =~= seq![(n / 256) as u8, (n % 256) as u8],
        be_value(be(n, 2)) == n,
{
    reveal_with_fuel(be, 3);
    lemma_spans();
    law_be_reads_back(n, 2);
}

/// Append `n` in `width` bytes to `out`.
pub fn put_be(out: &mut Vec<u8>, n: u64, width: usize)
    ensures
        final(out)@ == old(out)@ + be(n as nat, width as nat),
    decreases width,
{
    if width > 0 {
        put_be(out, n / 256, width - 1);
        out.push((n % 256) as u8);
        proof {
            assert(out@ =~= old(out)@ + be(n as nat, width as nat));
        }
    } else {
        assert(out@ =~= old(out)@ + be(n as nat, width as nat));
    }
}

/// The number that up to eight bytes are.
pub fn read_be(bytes: &[u8]) -> (n: u64)
    requires
        bytes@.len() <= 8,
    ensures
        n == be_value(bytes@),
{
    let mut n: u64 = 0;
    let mut i: usize = 0;
    proof {
        lemma_spans();
        law_be_writes_back(bytes@);
    }
    while i < bytes.len()
        invariant
            i <= bytes@.len() <= 8,
            n == be_value(bytes@.take(i as int)),
        decreases bytes@.len() - i,
    {
        proof {
            assert(bytes@.take(i + 1).drop_last() =~= bytes@.take(i as int));
            law_be_writes_back(bytes@.take(i + 1));
            lemma_span_grows((i + 1) as nat, 8);
            lemma_spans();
        }
        n = n * 256 + bytes[i] as u64;
        i = i + 1;
    }
    assert(bytes@.take(i as int) =~= bytes@);
    n
}

proof fn lemma_span_grows(a: nat, b: nat)
    requires
        a <= b,
    ensures
        be_span(a) <= be_span(b),
    decreases b,
{
    if a < b {
        lemma_span_grows(a, (b - 1) as nat);
    }
}

/// Append `bytes` to `out`.
pub fn put_bytes(out: &mut Vec<u8>, bytes: &[u8])
    ensures
        final(out)@ == old(out)@ + bytes@,
{
    out.extend_from_slice(bytes);
    assert(out@ =~= old(out)@ + bytes@);
}

/// Whether two runs of bytes are the same.
pub fn same_bytes(a: &[u8], b: &[u8]) -> (same: bool)
    ensures
        same == (a@ == b@),
{
    if a.len() != b.len() {
        return false;
    }
    let mut i: usize = 0;
    while i < a.len()
        invariant
            i <= a@.len(),
            a@.len() == b@.len(),
            forall|j: int| 0 <= j < i ==> a@[j] == b@[j],
        decreases a@.len() - i,
    {
        if a[i] != b[i] {
            assert(a@[i as int] != b@[i as int]);
            return false;
        }
        i = i + 1;
    }
    assert(a@ =~= b@);
    true
}

/// Numbers are written most significant byte first: two, four and eight
/// bytes, one by one.
pub proof fn law_numbers_are_big_endian(n: nat)
    ensures
        be(n, 2) == seq![(n / 256 % 256) as u8, (n % 256) as u8],
        be(n, 4) == seq![
            (n / 0x100_0000 % 256) as u8,
            (n / 0x1_0000 % 256) as u8,
            (n / 256 % 256) as u8,
            (n % 256) as u8,
        ],
        be(n, 8) == be(n / 0x1_0000_0000, 4) + be(n, 4),
{
    reveal_with_fuel(be, 9);
    assert(n / 256 / 256 == n / 0x1_0000);
    assert(n / 0x1_0000 / 256 == n / 0x100_0000);
    assert(n / 0x100_0000 / 256 == n / 0x1_0000_0000);
    assert(be(n, 8) =~= be(n / 0x1_0000_0000, 4) + be(n, 4));
}

/// A count is two bytes, most significant first, and the largest they hold
/// where it is over that.
pub proof fn law_count_saturates(n: nat)
    ensures
        n <= 65535 ==> count_of(n) == seq![(n / 256) as u8, (n % 256) as u8],
        n > 65535 ==> count_of(n) == seq![255u8, 255u8],
{
    lemma_be_two(if n <= 65535 { n } else { 65535 });
}

/// The number that two, four or eight bytes are weighs each byte by its
/// place.
pub proof fn law_bytes_weigh_by_place(bytes: Seq<u8>)
    ensures
        bytes.len() == 2 ==> be_value(bytes) == bytes[0] * 256 + bytes[1],
        bytes.len() == 4 ==> be_value(bytes) == bytes[0] * 0x100_0000 + bytes[1] * 0x1_0000
            + bytes[2] * 256 + bytes[3],
        bytes.len() == 8 ==> be_value(bytes) == bytes[0] * 0x100_0000_0000_0000 + bytes[1]
            * 0x1_0000_0000_0000 + bytes[2] * 0x100_0000_0000 + bytes[3] * 0x1_0000_0000
            + bytes[4] * 0x100_0000 + bytes[5] * 0x1_0000 + bytes[6] * 256 + bytes[7],
{
    reveal_with_fuel(be_value, 9);
}

} // verus!
