//! Lazy little-endian integer streams over byte buffers.
//!
//! A byte buffer of arbitrary length is split into a stream region, whose
//! length is the largest multiple of the element width that fits, and a
//! leftover region holding the trailing bytes.  The stream region is consumed
//! front to back, one fixed-width little-endian unsigned integer at a time:
//! within each chunk the first byte is the least significant.

use vstd::prelude::*;
use vstd::slice::slice_index_get;
use vstd::slice::slice_subrange;

verus! {

/// Number of bytes in one `u32` element.
pub const U32_BYTES: usize = 4;

/// Number of bytes in one `u64` element.
pub const U64_BYTES: usize = 8;

/// The `u32` encoded little-endian in the four bytes of `b`: the byte at the
/// lowest index is the least significant.
pub open spec fn u32_of_le_bytes(b: Seq<u8>) -> u32
    recommends
        b.len() == 4,
{
    (b[0] + b[1] * 0x100 + b[2] * 0x10000 + b[3] * 0x1000000) as u32
}

/// The `u64` encoded little-endian in the eight bytes of `b`: the byte at the
/// lowest index is the least significant.
pub open spec fn u64_of_le_bytes(b: Seq<u8>) -> u64
    recommends
        b.len() == 8,
{
    (b[0] + b[1] * 0x100 + b[2] * 0x10000 + b[3] * 0x1000000 + b[4] * 0x100000000 + b[5]
        * 0x10000000000 + b[6] * 0x1000000000000 + b[7] * 0x100000000000000) as u64
}

/// The four-byte little-endian encoding of `x`.
pub open spec fn le_bytes_of_u32(x: u32) -> Seq<u8> {
    seq![
        (x % 0x100) as u8,
        ((x / 0x100) % 0x100) as u8,
        ((x / 0x10000) % 0x100) as u8,
        ((x / 0x1000000) % 0x100) as u8,
    ]
}

/// The eight-byte little-endian encoding of `x`.
pub open spec fn le_bytes_of_u64(x: u64) -> Seq<u8> {
    seq![
        (x % 0x100) as u8,
        ((x / 0x100) % 0x100) as u8,
        ((x / 0x10000) % 0x100) as u8,
        ((x / 0x1000000) % 0x100) as u8,
        ((x / 0x100000000) % 0x100) as u8,
        ((x / 0x10000000000) % 0x100) as u8,
        ((x / 0x1000000000000) % 0x100) as u8,
        ((x / 0x100000000000000) % 0x100) as u8,
    ]
}

/// Decoding undoes encoding for a single 32-bit element.
pub proof fn lemma_u32_element_round_trip(x: u32)
    ensures
        u32_of_le_bytes(le_bytes_of_u32(x)) == x,
{
    assert(x % 0x100 + ((x / 0x100) % 0x100) * 0x100 + ((x / 0x10000) % 0x100) * 0x10000 + ((x
        / 0x1000000) % 0x100) * 0x1000000 == x) by (bit_vector);
}

/// Decoding undoes encoding for a single 64-bit element.
pub proof fn lemma_u64_element_round_trip(x: u64)
    ensures
        u64_of_le_bytes(le_bytes_of_u64(x)) == x,
{
    assert(x % 0x100 + ((x / 0x100) % 0x100) * 0x100 + ((x / 0x10000) % 0x100) * 0x10000 + ((x
        / 0x1000000) % 0x100) * 0x1000000 + ((x / 0x100000000) % 0x100) * 0x100000000 + ((x
        / 0x10000000000) % 0x100) * 0x10000000000 + ((x / 0x1000000000000) % 0x100)
        * 0x1000000000000 + ((x / 0x100000000000000) % 0x100) * 0x100000000000000 == x)
        by (bit_vector);
}

/// The sequence of `u32` values encoded little-endian in `b`, reading
/// consecutive four-byte chunks from the front; trailing bytes that do not
/// fill a chunk are ignored.
pub open spec fn u32_seq_of_le_bytes(b: Seq<u8>) -> Seq<u32> {
    Seq::new(b.len() / 4, |i: int| u32_of_le_bytes(b.subrange(4 * i, 4 * i + 4)))
}

/// The sequence of `u64` values encoded little-endian in `b`, reading
/// consecutive eight-byte chunks from the front; trailing bytes that do not
/// fill a chunk are ignored.
pub open spec fn u64_seq_of_le_bytes(b: Seq<u8>) -> Seq<u64> {
    Seq::new(b.len() / 8, |i: int| u64_of_le_bytes(b.subrange(8 * i, 8 * i + 8)))
}

/// The little-endian encoding of `vals`: four bytes per element, in order.
pub open spec fn le_bytes_of_u32_seq(vals: Seq<u32>) -> Seq<u8>
    decreases vals.len(),
{
    if vals.len() == 0 {
        Seq::empty()
    } else {
        le_bytes_of_u32(vals.first()) + le_bytes_of_u32_seq(vals.drop_first())
    }
}

/// The little-endian encoding of `vals`: eight bytes per element, in order.
pub open spec fn le_bytes_of_u64_seq(vals: Seq<u64>) -> Seq<u8>
    decreases vals.len(),
{
    if vals.len() == 0 {
        Seq::empty()
    } else {
        le_bytes_of_u64(vals.first()) + le_bytes_of_u64_seq(vals.drop_first())
    }
}

proof fn lemma_le_bytes_of_u32_seq_len(vals: Seq<u32>)
    ensures
        le_bytes_of_u32_seq(vals).len() == 4 * vals.len(),
    decreases vals.len(),
{
    if vals.len() > 0 {
        lemma_le_bytes_of_u32_seq_len(vals.drop_first());
    }
}

proof fn lemma_le_bytes_of_u64_seq_len(vals: Seq<u64>)
    ensures
        le_bytes_of_u64_seq(vals).len() == 8 * vals.len(),
    decreases vals.len(),
{
    if vals.len() > 0 {
        lemma_le_bytes_of_u64_seq_len(vals.drop_first());
    }
}

/// Round trip for the 32-bit width: decoding the little-endian encoding of
/// any sequence of `u32` values gives back exactly those values, in order,
/// and the encoding occupies four bytes per value, so nothing is left over.
pub proof fn lemma_u32_round_trip(vals: Seq<u32>)
    ensures
        le_bytes_of_u32_seq(vals).len() == 4 * vals.len(),
        u32_seq_of_le_bytes(le_bytes_of_u32_seq(vals)) == vals,
    decreases vals.len(),
{
    lemma_le_bytes_of_u32_seq_len(vals);
    let b = le_bytes_of_u32_seq(vals);
    if vals.len() == 0 {
        assert(u32_seq_of_le_bytes(b) =~= vals);
    } else {
        let head_bytes = le_bytes_of_u32(vals.first());
        let tail = vals.drop_first();
        let bt = le_bytes_of_u32_seq(tail);
        lemma_u32_round_trip(tail);
        lemma_le_bytes_of_u32_seq_len(tail);
        assert forall|i: int| 0 <= i < vals.len() implies u32_seq_of_le_bytes(b)[i]
            == vals[i] by {
            if i == 0 {
                assert(b.subrange(0, 4) =~= head_bytes);
                lemma_u32_element_round_trip(vals.first());
            } else {
                assert(b.subrange(4 * i, 4 * i + 4) =~= bt.subrange(4 * (i - 1), 4 * (i - 1) + 4));
                assert(u32_seq_of_le_bytes(bt)[i - 1] == tail[i - 1]);
            }
        }
        assert(u32_seq_of_le_bytes(b) =~= vals);
    }
}

/// Round trip for the 64-bit width: decoding the little-endian encoding of
/// any sequence of `u64` values gives back exactly those values, in order,
/// and the encoding occupies eight bytes per value, so nothing is left over.
pub proof fn lemma_u64_round_trip(vals: Seq<u64>)
    ensures
        le_bytes_of_u64_seq(vals).len() == 8 * vals.len(),
        u64_seq_of_le_bytes(le_bytes_of_u64_seq(vals)) == vals,
    decreases vals.len(),
{
    lemma_le_bytes_of_u64_seq_len(vals);
    let b = le_bytes_of_u64_seq(vals);
    if vals.len() == 0 {
        assert(u64_seq_of_le_bytes(b) =~= vals);
    } else {
        let head_bytes = le_bytes_of_u64(vals.first());
        let tail = vals.drop_first();
        let bt = le_bytes_of_u64_seq(tail);
        lemma_u64_round_trip(tail);
        lemma_le_bytes_of_u64_seq_len(tail);
        assert forall|i: int| 0 <= i < vals.len() implies u64_seq_of_le_bytes(b)[i]
            == vals[i] by {
            if i == 0 {
                assert(b.subrange(0, 8) =~= head_bytes);
                lemma_u64_element_round_trip(vals.first());
            } else {
                assert(b.subrange(8 * i, 8 * i + 8) =~= bt.subrange(8 * (i - 1), 8 * (i - 1) + 8));
                assert(u64_seq_of_le_bytes(bt)[i - 1] == tail[i - 1]);
            }
        }
        assert(u64_seq_of_le_bytes(b) =~= vals);
    }
}

proof fn lemma_le_bytes_of_u32_seq_snoc(vals: Seq<u32>, x: u32)
    ensures
        le_bytes_of_u32_seq(vals.push(x)) == le_bytes_of_u32_seq(vals) + le_bytes_of_u32(x),
    decreases vals.len(),
{
    if vals.len() == 0 {
        assert(vals.push(x).len() == 1);
        assert(vals.push(x).first() == x);
        assert(vals.push(x).drop_first() =~= Seq::<u32>::empty());
        assert(le_bytes_of_u32_seq(Seq::<u32>::empty()) == Seq::<u8>::empty());
        assert(le_bytes_of_u32_seq(vals.push(x)) =~= le_bytes_of_u32_seq(vals)
            + le_bytes_of_u32(x));
    } else {
        assert(vals.push(x).first() == vals.first());
        assert(vals.push(x).drop_first() =~= vals.drop_first().push(x));
        lemma_le_bytes_of_u32_seq_snoc(vals.drop_first(), x);
        assert(le_bytes_of_u32_seq(vals.push(x)) == le_bytes_of_u32(vals.first()) + (
        le_bytes_of_u32_seq(vals.drop_first()) + le_bytes_of_u32(x)));
        assert(le_bytes_of_u32(vals.first()) + (le_bytes_of_u32_seq(vals.drop_first())
            + le_bytes_of_u32(x)) =~= (le_bytes_of_u32(vals.first()) + le_bytes_of_u32_seq(
            vals.drop_first(),
        )) + le_bytes_of_u32(x));
    }
}

proof fn lemma_le_bytes_of_u64_seq_snoc(vals: Seq<u64>, x: u64)
    ensures
        le_bytes_of_u64_seq(vals.push(x)) == le_bytes_of_u64_seq(vals) + le_bytes_of_u64(x),
    decreases vals.len(),
{
    if vals.len() == 0 {
        assert(vals.push(x).len() == 1);
        assert(vals.push(x).first() == x);
        assert(vals.push(x).drop_first() =~= Seq::<u64>::empty());
        assert(le_bytes_of_u64_seq(Seq::<u64>::empty()) == Seq::<u8>::empty());
        assert(le_bytes_of_u64_seq(vals.push(x)) =~= le_bytes_of_u64_seq(vals)
            + le_bytes_of_u64(x));
    } else {
        assert(vals.push(x).first() == vals.first());
        assert(vals.push(x).drop_first() =~= vals.drop_first().push(x));
        lemma_le_bytes_of_u64_seq_snoc(vals.drop_first(), x);
        assert(le_bytes_of_u64_seq(vals.push(x)) == le_bytes_of_u64(vals.first()) + (
        le_bytes_of_u64_seq(vals.drop_first()) + le_bytes_of_u64(x)));
        assert(le_bytes_of_u64(vals.first()) + (le_bytes_of_u64_seq(vals.drop_first())
            + le_bytes_of_u64(x)) =~= (le_bytes_of_u64(vals.first()) + le_bytes_of_u64_seq(
            vals.drop_first(),
        )) + le_bytes_of_u64(x));
    }
}

/// Reads the `u32` encoded little-endian in a four-byte slice by combining
/// the bytes with shifts, so no alignment of the underlying buffer is
/// assumed.
fn u32_from_le_chunk(b: &[u8]) -> (x: u32)
    requires
        b@.len() == 4,
    ensures
        x == u32_of_le_bytes(b@),
{
    let b0: u8 = *slice_index_get(b, 0);
    let b1: u8 = *slice_index_get(b, 1);
    let b2: u8 = *slice_index_get(b, 2);
    let b3: u8 = *slice_index_get(b, 3);
    (b0 as u32) + (b1 as u32) * 0x100 + (b2 as u32) * 0x10000 + (b3 as u32) * 0x1000000
}

/// Reads the `u64` encoded little-endian in an eight-byte slice by combining
/// the bytes with shifts, so no alignment of the underlying buffer is
/// assumed.
fn u64_from_le_chunk(b: &[u8]) -> (x: u64)
    requires
        b@.len() == 8,
    ensures
        x == u64_of_le_bytes(b@),
{
    let b0: u8 = *slice_index_get(b, 0);
    let b1: u8 = *slice_index_get(b, 1);
    let b2: u8 = *slice_index_get(b, 2);
    let b3: u8 = *slice_index_get(b, 3);
    let b4: u8 = *slice_index_get(b, 4);
    let b5: u8 = *slice_index_get(b, 5);
    let b6: u8 = *slice_index_get(b, 6);
    let b7: u8 = *slice_index_get(b, 7);
    (b0 as u64) + (b1 as u64) * 0x100 + (b2 as u64) * 0x10000 + (b3 as u64) * 0x1000000 + (
    b4 as u64) * 0x100000000 + (b5 as u64) * 0x10000000000 + (b6 as u64) * 0x1000000000000 + (
    b7 as u64) * 0x100000000000000
}

/// Encodes each value as four little-endian bytes, in order.
pub fn u32s_to_le_bytes(vals: &[u32]) -> (out: Vec<u8>)
    ensures
        out@ == le_bytes_of_u32_seq(vals@),
        out@.len() == 4 * vals@.len(),
{
    let mut out: Vec<u8> = Vec::new();
    let mut i: usize = 0;
    while i < vals.len()
        invariant
            i <= vals@.len(),
            out@ == le_bytes_of_u32_seq(vals@.take(i as int)),
            out@.len() == 4 * i,
        decreases vals@.len() - i,
    {
        let v: u32 = *slice_index_get(vals, i);
        let ghost before = out@;
        out.push((v % 0x100) as u8);
        out.push(((v / 0x100) % 0x100) as u8);
        out.push(((v / 0x10000) % 0x100) as u8);
        out.push(((v / 0x1000000) % 0x100) as u8);
        proof {
            assert(out@ =~= before + le_bytes_of_u32(v));
            lemma_le_bytes_of_u32_seq_snoc(vals@.take(i as int), vals@[i as int]);
            assert(vals@.take(i as int).push(vals@[i as int]) =~= vals@.take(i + 1));
        }
        i = i + 1;
    }
    proof {
        assert(vals@.take(vals@.len() as int) =~= vals@);
        lemma_le_bytes_of_u32_seq_len(vals@);
    }
    out
}

/// Encodes each value as eight little-endian bytes, in order.
pub fn u64s_to_le_bytes(vals: &[u64]) -> (out: Vec<u8>)
    ensures
        out@ == le_bytes_of_u64_seq(vals@),
        out@.len() == 8 * vals@.len(),
{
    let mut out: Vec<u8> = Vec::new();
    let mut i: usize = 0;
    while i < vals.len()
        invariant
            i <= vals@.len(),
            out@ == le_bytes_of_u64_seq(vals@.take(i as int)),
            out@.len() == 8 * i,
        decreases vals@.len() - i,
    {
        let v: u64 = *slice_index_get(vals, i);
        let ghost before = out@;
        out.push((v % 0x100) as u8);
        out.push(((v / 0x100) % 0x100) as u8);
        out.push(((v / 0x10000) % 0x100) as u8);
        out.push(((v / 0x1000000) % 0x100) as u8);
        out.push(((v / 0x100000000) % 0x100) as u8);
        out.push(((v / 0x10000000000) % 0x100) as u8);
        out.push(((v / 0x1000000000000) % 0x100) as u8);
        out.push(((v / 0x100000000000000) % 0x100) as u8);
        proof {
            assert(out@ =~= before + le_bytes_of_u64(v));
            lemma_le_bytes_of_u64_seq_snoc(vals@.take(i as int), vals@[i as int]);
            assert(vals@.take(i as int).push(vals@[i as int]) =~= vals@.take(i + 1));
        }
        i = i + 1;
    }
    proof {
        assert(vals@.take(vals@.len() as int) =~= vals@);
        lemma_le_bytes_of_u64_seq_len(vals@);
    }
    out
}

/// A lazy, forward-only stream of little-endian `u32` values read from a
/// borrowed byte buffer.  The buffer region it watches is always an exact
/// multiple of four bytes long; the read position advances monotonically and
/// never crosses the end.
pub struct U32FromBytes<'a> {
    bytes: &'a [u8],
    pos: usize,
}

impl<'a> View for U32FromBytes<'a> {
    type V = Seq<u32>;

    /// The values not yet produced, in the order they will come out.
    closed spec fn view(&self) -> Seq<u32> {
        u32_seq_of_le_bytes(self.bytes@.skip(self.pos as int))
    }
}

impl<'a> U32FromBytes<'a> {
    /// The stream's region and read position stay four-byte aligned.
    pub closed spec fn wf(self) -> bool {
        &&& self.bytes@.len() % 4 == 0
        &&& self.pos % 4 == 0
        &&& self.pos <= self.bytes@.len()
    }

    /// Splits `bytes` into a stream over the longest prefix whose length is a
    /// multiple of four, and the leftover tail of fewer than four bytes.
    pub fn new(bytes: &'a [u8]) -> (r: (U32FromBytes<'a>, &'a [u8]))
        ensures
            r.0.wf(),
            r.0@ == u32_seq_of_le_bytes(bytes@),
            r.1@ == bytes@.skip(bytes@.len() - (bytes@.len() % 4)),
            r.1@.len() == bytes@.len() % 4,
            r.1@.len() < 4,
            4 * r.0@.len() + r.1@.len() == bytes@.len(),
    {
        let full_len: usize = (bytes.len() / U32_BYTES) * U32_BYTES;
        let mine: &[u8] = slice_subrange(bytes, 0, full_len);
        let theirs: &[u8] = slice_subrange(bytes, full_len, bytes.len());
        let me = U32FromBytes { bytes: mine, pos: 0 };
        proof {
            assert(mine@.skip(0) =~= mine@);
            assert forall|i: int| 0 <= i < mine@.len() / 4 implies u32_seq_of_le_bytes(mine@)[i]
                == u32_seq_of_le_bytes(bytes@)[i] by {
                assert(mine@.subrange(4 * i, 4 * i + 4) =~= bytes@.subrange(4 * i, 4 * i + 4));
            }
            assert(u32_seq_of_le_bytes(mine@) =~= u32_seq_of_le_bytes(bytes@));
        }
        (me, theirs)
    }

    /// Produces the next value, or reports end of sequence.  At the end the
    /// stream is left exactly as it was, so every later call reports end of
    /// sequence as well.
    pub fn next(&mut self) -> (r: Option<u32>)
        requires
            old(self).wf(),
        ensures
            final(self).wf(),
            old(self)@.len() == 0 ==> r is None && *final(self) == *old(self),
            old(self)@.len() > 0 ==> r == Some(old(self)@.first()) && final(self)@ == old(
                self,
            )@.drop_first(),
    {
        if self.pos >= self.bytes.len() {
            return None;
        }
        proof {
            assert(self.pos + 4 <= self.bytes@.len());
        }
        let chunk: &[u8] = slice_subrange(self.bytes, self.pos, self.pos + U32_BYTES);
        let v: u32 = u32_from_le_chunk(chunk);
        let ghost prev = self.bytes@.skip(self.pos as int);
        self.pos = self.pos + U32_BYTES;
        proof {
            let cur = self.bytes@.skip(self.pos as int);
            assert(chunk@ =~= prev.subrange(0, 4));
            assert forall|i: int| 0 <= i < cur.len() / 4 implies u32_seq_of_le_bytes(cur)[i]
                == u32_seq_of_le_bytes(prev)[i + 1] by {
                assert(cur.subrange(4 * i, 4 * i + 4) =~= prev.subrange(
                    4 * (i + 1),
                    4 * (i + 1) + 4,
                ));
            }
            assert(u32_seq_of_le_bytes(cur) =~= u32_seq_of_le_bytes(prev).drop_first());
        }
        Some(v)
    }

    /// Produces all remaining values at once, in order, leaving the stream
    /// exhausted.
    pub fn collect_remaining(&mut self) -> (r: Vec<u32>)
        requires
            old(self).wf(),
        ensures
            final(self).wf(),
            final(self)@.len() == 0,
            r@ == old(self)@,
    {
        let mut out: Vec<u32> = Vec::new();
        loop
            invariant
                self.wf(),
                old(self)@ == out@ + self@,
            decreases self@.len(),
        {
            match self.next() {
                Some(v) => {
                    out.push(v);
                    proof {
                        assert(out@ + self@ =~= old(self)@);
                    }
                },
                None => {
                    proof {
                        assert(out@ + self@ =~= out@);
                    }
                    return out;
                },
            }
        }
    }
}

/// A lazy, forward-only stream of little-endian `u64` values read from a
/// borrowed byte buffer.  The buffer region it watches is always an exact
/// multiple of eight bytes long; the read position advances monotonically and
/// never crosses the end.
pub struct U64FromBytes<'a> {
    bytes: &'a [u8],
    pos: usize,
}

impl<'a> View for U64FromBytes<'a> {
    type V = Seq<u64>;

    /// The values not yet produced, in the order they will come out.
    closed spec fn view(&self) -> Seq<u64> {
        u64_seq_of_le_bytes(self.bytes@.skip(self.pos as int))
    }
}

impl<'a> U64FromBytes<'a> {
    /// The stream's region and read position stay eight-byte aligned.
    pub closed spec fn wf(self) -> bool {
        &&& self.bytes@.len() % 8 == 0
        &&& self.pos % 8 == 0
        &&& self.pos <= self.bytes@.len()
    }

    /// Splits `bytes` into a stream over the longest prefix whose length is a
    /// multiple of eight, and the leftover tail of fewer than eight bytes.
    pub fn new(bytes: &'a [u8]) -> (r: (U64FromBytes<'a>, &'a [u8]))
        ensures
            r.0.wf(),
            r.0@ == u64_seq_of_le_bytes(bytes@),
            r.1@ == bytes@.skip(bytes@.len() - (bytes@.len() % 8)),
            r.1@.len() == bytes@.len() % 8,
            r.1@.len() < 8,
            8 * r.0@.len() + r.1@.len() == bytes@.len(),
    {
        let full_len: usize = (bytes.len() / U64_BYTES) * U64_BYTES;
        let mine: &[u8] = slice_subrange(bytes, 0, full_len);
        let theirs: &[u8] = slice_subrange(bytes, full_len, bytes.len());
        let me = U64FromBytes { bytes: mine, pos: 0 };
        proof {
            assert(mine@.skip(0) =~= mine@);
            assert forall|i: int| 0 <= i < mine@.len() / 8 implies u64_seq_of_le_bytes(mine@)[i]
                == u64_seq_of_le_bytes(bytes@)[i] by {
                assert(mine@.subrange(8 * i, 8 * i + 8) =~= bytes@.subrange(8 * i, 8 * i + 8));
            }
            assert(u64_seq_of_le_bytes(mine@) =~= u64_seq_of_le_bytes(bytes@));
        }
        (me, theirs)
    }

    /// Produces the next value, or reports end of sequence.  At the end the
    /// stream is left exactly as it was, so every later call reports end of
    /// sequence as well.
    pub fn next(&mut self) -> (r: Option<u64>)
        requires
            old(self).wf(),
        ensures
            final(self).wf(),
            old(self)@.len() == 0 ==> r is None && *final(self) == *old(self),
            old(self)@.len() > 0 ==> r == Some(old(self)@.first()) && final(self)@ == old(
                self,
            )@.drop_first(),
    {
        if self.pos >= self.bytes.len() {
            return None;
        }
        proof {
            assert(self.pos + 8 <= self.bytes@.len());
        }
        let chunk: &[u8] = slice_subrange(self.bytes, self.pos, self.pos + U64_BYTES);
        let v: u64 = u64_from_le_chunk(chunk);
        let ghost prev = self.bytes@.skip(self.pos as int);
        self.pos = self.pos + U64_BYTES;
        proof {
            let cur = self.bytes@.skip(self.pos as int);
            assert(chunk@ =~= prev.subrange(0, 8));
            assert forall|i: int| 0 <= i < cur.len() / 8 implies u64_seq_of_le_bytes(cur)[i]
                == u64_seq_of_le_bytes(prev)[i + 1] by {
                assert(cur.subrange(8 * i, 8 * i + 8) =~= prev.subrange(
                    8 * (i + 1),
                    8 * (i + 1) + 8,
                ));
            }
            assert(u64_seq_of_le_bytes(cur) =~= u64_seq_of_le_bytes(prev).drop_first());
        }
        Some(v)
    }

    /// Produces all remaining values at once, in order, leaving the stream
    /// exhausted.
    pub fn collect_remaining(&mut self) -> (r: Vec<u64>)
        requires
            old(self).wf(),
        ensures
            final(self).wf(),
            final(self)@.len() == 0,
            r@ == old(self)@,
    {
        let mut out: Vec<u64> = Vec::new();
        loop
            invariant
                self.wf(),
                old(self)@ == out@ + self@,
            decreases self@.len(),
        {
            match self.next() {
                Some(v) => {
                    out.push(v);
                    proof {
                        assert(out@ + self@ =~= old(self)@);
                    }
                },
                None => {
                    proof {
                        assert(out@ + self@ =~= out@);
                    }
                    return out;
                },
            }
        }
    }
}

/// Attaches the stream constructors to byte buffers: each call splits the
/// buffer into a lazy little-endian integer sequence over the longest prefix
/// that holds whole elements, and the leftover tail.
pub trait NumberStreams {
    /// The bytes the streams are built over.
    spec fn source_bytes(&self) -> Seq<u8>;

    /// The 32-bit stream over this buffer, with the leftover bytes.
    fn u32_stream(&self) -> (r: (U32FromBytes<'_>, &[u8]))
        ensures
            r.0.wf(),
            r.0@ == u32_seq_of_le_bytes(self.source_bytes()),
            r.1@ == self.source_bytes().skip(
                self.source_bytes().len() - (self.source_bytes().len() % 4),
            ),
            r.1@.len() == self.source_bytes().len() % 4,
            r.1@.len() < 4,
            4 * r.0@.len() + r.1@.len() == self.source_bytes().len(),
    ;

    /// The 64-bit stream over this buffer, with the leftover bytes.
    fn u64_stream(&self) -> (r: (U64FromBytes<'_>, &[u8]))
        ensures
            r.0.wf(),
            r.0@ == u64_seq_of_le_bytes(self.source_bytes()),
            r.1@ == self.source_bytes().skip(
                self.source_bytes().len() - (self.source_bytes().len() % 8),
            ),
            r.1@.len() == self.source_bytes().len() % 8,
            r.1@.len() < 8,
            8 * r.0@.len() + r.1@.len() == self.source_bytes().len(),
    ;
}

impl NumberStreams for [u8] {
    open spec fn source_bytes(&self) -> Seq<u8> {
        self@
    }

    fn u32_stream(&self) -> (r: (U32FromBytes<'_>, &[u8])) {
        U32FromBytes::new(self)
    }

    fn u64_stream(&self) -> (r: (U64FromBytes<'_>, &[u8])) {
        U64FromBytes::new(self)
    }
}

} // verus!
