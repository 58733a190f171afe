use bitstream_io::{BigEndian, BitRead, BitReader, BitWrite, BitWriter};
use vstd::prelude::*;

verus! {

#[verifier::external_type_specification]
#[verifier::external_body]
pub struct ExIoError(std::io::Error);

/// A big-endian bit writer collecting its output in memory.
#[verifier::external_body]
pub struct BitSink {
    inner: BitWriter<Vec<u8>, BigEndian>,
}

/// A big-endian bit reader over an owned byte buffer.
#[verifier::external_body]
pub struct BitSource {
    inner: BitReader<std::io::Cursor<Vec<u8>>, BigEndian>,
}

/// The bits written so far into a sink, in order.
pub uninterp spec fn sink_bits(w: BitSink) -> Seq<bool>;

/// The bits of a source that are not read yet, in order.
pub uninterp spec fn source_bits(r: BitSource) -> Seq<bool>;

/// The eight bits of a byte, most significant first.
pub open spec fn byte_bits(b: u8) -> Seq<bool> {
    seq![
        (b >> 7u8) & 1u8 == 1u8,
        (b >> 6u8) & 1u8 == 1u8,
        (b >> 5u8) & 1u8 == 1u8,
        (b >> 4u8) & 1u8 == 1u8,
        (b >> 3u8) & 1u8 == 1u8,
        (b >> 2u8) & 1u8 == 1u8,
        (b >> 1u8) & 1u8 == 1u8,
        b & 1u8 == 1u8,
    ]
}

pub open spec fn bit_val(x: bool, v: u8) -> u8 {
    if x { v } else { 0u8 }
}

/// The byte whose bits, most significant first, are the first eight of `s`.
pub open spec fn bits_u8(s: Seq<bool>) -> u8 {
    bit_val(s[0], 128u8) | bit_val(s[1], 64u8) | bit_val(s[2], 32u8) | bit_val(s[3], 16u8)
        | bit_val(s[4], 8u8) | bit_val(s[5], 4u8) | bit_val(s[6], 2u8) | bit_val(s[7], 1u8)
}

pub proof fn lemma_bits_u8(b: u8)
    ensures
        bits_u8(byte_bits(b)) == b,
{
    let s = byte_bits(b);
    assert(b == (bit_val((b >> 7u8) & 1u8 == 1u8, 128u8) | bit_val((b >> 6u8) & 1u8 == 1u8, 64u8)
        | bit_val((b >> 5u8) & 1u8 == 1u8, 32u8) | bit_val((b >> 4u8) & 1u8 == 1u8, 16u8)
        | bit_val((b >> 3u8) & 1u8 == 1u8, 8u8) | bit_val((b >> 2u8) & 1u8 == 1u8, 4u8)
        | bit_val((b >> 1u8) & 1u8 == 1u8, 2u8) | bit_val(b & 1u8 == 1u8, 1u8))) by (bit_vector);
}

/// The bits of a byte sequence, each byte most significant bit first.
pub open spec fn bytes_bits(s: Seq<u8>) -> Seq<bool>
    decreases s.len(),
{
    if s.len() == 0 {
        Seq::empty()
    } else {
        bytes_bits(s.drop_last()) + byte_bits(s.last())
    }
}

pub proof fn lemma_bytes_bits_concat(a: Seq<u8>, b: Seq<u8>)
    ensures
        bytes_bits(a + b) == bytes_bits(a) + bytes_bits(b),
    decreases b.len(),
{
    if b.len() == 0 {
        assert(a + b =~= a);
        assert(bytes_bits(a) + bytes_bits(b) =~= bytes_bits(a));
    } else {
        assert((a + b).drop_last() =~= a + b.drop_last());
        lemma_bytes_bits_concat(a, b.drop_last());
        assert(bytes_bits(a + b) =~= bytes_bits(a) + bytes_bits(b));
    }
}

pub proof fn lemma_bytes_bits_one(x: u8)
    ensures
        bytes_bits(seq![x]) == byte_bits(x),
{
    assert(seq![x].drop_last() =~= Seq::<u8>::empty());
    assert(seq![x].last() == x);
    assert(bytes_bits(Seq::<u8>::empty()) =~= Seq::<bool>::empty());
    assert(Seq::<bool>::empty() + byte_bits(x) =~= byte_bits(x));
}

/// Relies on `BitWriter::endian`: a fresh writer over an empty vector holds no bits.
#[verifier::external_body]
pub(crate) fn new_sink() -> (r: BitSink)
    ensures
        sink_bits(r) == Seq::<bool>::empty(),
{
    BitSink { inner: BitWriter::endian(Vec::new(), BigEndian) }
}

/// Relies on `BitWrite::write_bit`: appends one bit; it fails only where the underlying
/// writer fails, and writing to a `Vec<u8>` never fails.
#[verifier::external_body]
pub(crate) fn write_bit(w: &mut BitSink, b: bool) -> (r: Result<(), std::io::Error>)
    ensures
        r is Ok,
        sink_bits(*final(w)) == sink_bits(*old(w)).push(b),
{
    w.inner.write_bit(b)
}

/// Relies on `BitWrite::write_bytes`: appends the bits of each byte, most significant first;
/// eight bits of a `u8` are always in range, and writing to a `Vec<u8>` never fails.
#[verifier::external_body]
pub(crate) fn write_bytes(w: &mut BitSink, buf: &[u8]) -> (r: Result<(), std::io::Error>)
    ensures
        r is Ok,
        sink_bits(*final(w)) == sink_bits(*old(w)) + bytes_bits(buf@),
{
    w.inner.write_bytes(buf)
}

/// The zero bits that bring a stream of `n` bits to a byte boundary.
pub open spec fn pad_bits(n: nat) -> Seq<bool> {
    Seq::new(((8 - n % 8) % 8) as nat, |i: int| false)
}

/// Relies on `BitWrite::byte_align`: appends zero bits up to the next byte boundary, through
/// `write_bit` only.
#[verifier::external_body]
pub(crate) fn byte_align(w: &mut BitSink) -> (r: Result<(), std::io::Error>)
    ensures
        r is Ok,
        sink_bits(*final(w)) == sink_bits(*old(w)) + pad_bits(sink_bits(*old(w)).len()),
{
    w.inner.byte_align()
}

/// Relies on `BitWriter::into_writer`: on a byte boundary every written bit is in the vector.
#[verifier::external_body]
pub(crate) fn into_bytes(w: BitSink) -> (r: Vec<u8>)
    requires
        sink_bits(w).len() % 8 == 0,
    ensures
        bytes_bits(r@) == sink_bits(w),
{
    w.inner.into_writer()
}

/// Relies on `BitReader::endian`: the reader starts at the first bit of the buffer.
#[verifier::external_body]
pub(crate) fn new_source(bytes: Vec<u8>) -> (r: BitSource)
    ensures
        source_bits(r) == bytes_bits(bytes@),
{
    BitSource { inner: BitReader::endian(std::io::Cursor::new(bytes), BigEndian) }
}

/// Relies on `BitRead::read_bit`: takes the next bit, and fails at the end of the input.
#[verifier::external_body]
pub(crate) fn read_bit(r: &mut BitSource) -> (res: Result<bool, std::io::Error>)
    ensures
        res is Ok <==> source_bits(*old(r)).len() > 0,
        res matches Ok(b) ==> b == source_bits(*old(r))[0]
            && source_bits(*final(r)) == source_bits(*old(r)).drop_first(),
{
    r.inner.read_bit()
}

/// Relies on `BitRead::read_bytes`: takes the next `n` bytes, and fails where fewer bits are left.
#[verifier::external_body]
pub(crate) fn read_bytes(r: &mut BitSource, n: usize) -> (res: Result<Vec<u8>, std::io::Error>)
    ensures
        res is Ok <==> source_bits(*old(r)).len() >= 8 * n,
        res matches Ok(v) ==> v@.len() == n
            && bytes_bits(v@) == source_bits(*old(r)).take(8 * n)
            && source_bits(*final(r)) == source_bits(*old(r)).skip(8 * n),
{
    let mut buf = vec![0u8; n];
    match r.inner.read_bytes(&mut buf) {
        Ok(()) => Ok(buf),
        Err(e) => Err(e),
    }
}

} // verus!
