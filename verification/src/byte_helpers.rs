//! Byte/integer conversion helpers and bounds-checked sequential readers.

use vstd::prelude::*;

use crate::error::ArtError;

verus! {

/// The unsigned integer encoded by `bytes` least-significant byte first.
pub open spec fn le_uint_of(bytes: Seq<u8>) -> nat
    decreases bytes.len(),
{
    if bytes.len() == 0 {
        0
    } else {
        bytes[0] as nat + 256 * le_uint_of(bytes.drop_first())
    }
}

/// A little-endian value is below 256 to the power of its byte count.
pub proof fn lemma_le_uint_bound(bytes: Seq<u8>)
    ensures
        le_uint_of(bytes) < pow256(bytes.len()),
    decreases bytes.len(),
{
    if bytes.len() > 0 {
        lemma_le_uint_bound(bytes.drop_first());
    }
}

/// Raising 256 to a larger power never shrinks the result.
pub proof fn lemma_pow256_monotonic(a: nat, b: nat)
    requires
        a <= b,
    ensures
        pow256(a) <= pow256(b),
    decreases b,
{
    if a < b {
        lemma_pow256_monotonic(a, (b - 1) as nat);
    }
}

/// 256 raised to `n`.
pub open spec fn pow256(n: nat) -> nat
    decreases n,
{
    if n == 0 {
        1
    } else {
        256 * pow256((n - 1) as nat)
    }
}

/// Decodes up to eight bytes as an unsigned integer, least-significant
/// byte first.
pub fn bytes_to_le_uint(bytes: &Vec<u8>) -> (r: u64)
    requires
        bytes@.len() <= 8,
    ensures
        r == le_uint_of(bytes@),
{
    let len: usize = bytes.len();
    let mut val: u64 = 0;
    let mut i: usize = len;
    proof {
        assert(bytes@.subrange(len as int, len as int) =~= Seq::<u8>::empty());
    }
    while i > 0
        invariant
            i <= len,
            len == bytes@.len() <= 8,
            val == le_uint_of(bytes@.subrange(i as int, len as int)),
        decreases i,
    {
        i = i - 1;
        proof {
            let tail = bytes@.subrange(i as int, len as int);
            assert(tail.drop_first() =~= bytes@.subrange(i + 1, len as int));
            lemma_le_uint_bound(tail.drop_first());
            lemma_pow256_monotonic(tail.drop_first().len(), 7);
            assert(256 * pow256(7) == 0x1_0000_0000_0000_0000) by {
                reveal_with_fuel(pow256, 9);
            }
        }
        val = bytes[i] as u64 + 256 * val;
    }
    proof {
        assert(bytes@.subrange(0, len as int) =~= bytes@);
    }
    val
}

/// The unsigned integer encoded by `bytes` most-significant byte first.
pub open spec fn be_uint_of(bytes: Seq<u8>) -> nat
    decreases bytes.len(),
{
    if bytes.len() == 0 {
        0
    } else {
        256 * be_uint_of(bytes.drop_last()) + bytes.last() as nat
    }
}

/// A big-endian value is below 256 to the power of its byte count.
pub proof fn lemma_be_uint_bound(bytes: Seq<u8>)
    ensures
        be_uint_of(bytes) < pow256(bytes.len()),
    decreases bytes.len(),
{
    if bytes.len() > 0 {
        lemma_be_uint_bound(bytes.drop_last());
    }
}

/// Decodes up to eight bytes as an unsigned integer, most-significant
/// byte first.
pub fn bytes_to_be_uint(bytes: &Vec<u8>) -> (r: u64)
    requires
        bytes@.len() <= 8,
    ensures
        r == be_uint_of(bytes@),
{
    let len: usize = bytes.len();
    let mut val: u64 = 0;
    let mut i: usize = 0;
    proof {
        assert(bytes@.subrange(0, 0) =~= Seq::<u8>::empty());
    }
    while i < len
        invariant
            i <= len,
            len == bytes@.len() <= 8,
            val == be_uint_of(bytes@.subrange(0, i as int)),
        decreases len - i,
    {
        proof {
            let head = bytes@.subrange(0, i + 1);
            assert(head.drop_last() =~= bytes@.subrange(0, i as int));
            lemma_be_uint_bound(head.drop_last());
            lemma_pow256_monotonic(head.drop_last().len(), 7);
            assert(256 * pow256(7) == 0x1_0000_0000_0000_0000) by {
                reveal_with_fuel(pow256, 9);
            }
        }
        val = 256 * val + bytes[i] as u64;
        i = i + 1;
    }
    proof {
        assert(bytes@.subrange(0, len as int) =~= bytes@);
    }
    val
}

/// The first `size` bytes of `n`'s little-endian encoding; bytes beyond
/// `n`'s magnitude are zero, and high bytes that do not fit are dropped.
pub open spec fn le_bytes_of(n: nat, size: nat) -> Seq<u8>
    decreases size,
{
    if size == 0 {
        Seq::empty()
    } else {
        seq![(n % 256) as u8] + le_bytes_of(n / 256, (size - 1) as nat)
    }
}

/// The little-endian encoding always has exactly the requested width.
pub proof fn lemma_le_bytes_len(n: nat, size: nat)
    ensures
        le_bytes_of(n, size).len() == size,
    decreases size,
{
    if size > 0 {
        lemma_le_bytes_len(n / 256, (size - 1) as nat);
    }
}

/// Law: little-endian encode then decode is the identity on every value
/// that fits in the requested byte width.
pub proof fn lemma_le_bytes_round_trip(n: nat, size: nat)
    requires
        n < pow256(size),
    ensures
        le_uint_of(le_bytes_of(n, size)) == n,
    decreases size,
{
    if size > 0 {
        assert(n / 256 < pow256((size - 1) as nat));
        lemma_le_bytes_round_trip(n / 256, (size - 1) as nat);
        let encoded = le_bytes_of(n, size);
        assert(encoded.drop_first() =~= le_bytes_of(n / 256, (size - 1) as nat));
        assert(le_uint_of(encoded) == encoded[0] as nat + 256 * le_uint_of(encoded.drop_first()));
        assert(encoded[0] == (n % 256) as u8);
    }
}

/// Encodes `n` to exactly `size` bytes, least-significant byte first,
/// dropping any high bytes that do not fit.
pub fn uint_to_le_bytes(n: u64, size: usize) -> (r: Vec<u8>)
    ensures
        r@ == le_bytes_of(n as nat, size as nat),
        r@.len() == size,
{
    let mut bytes: Vec<u8> = Vec::new();
    let mut m: u64 = n;
    let mut i: usize = 0;
    while i < size
        invariant
            i <= size,
            le_bytes_of(n as nat, size as nat) == bytes@ + le_bytes_of(
                m as nat,
                (size - i) as nat,
            ),
        decreases size - i,
    {
        let b: u8 = (m % 256) as u8;
        proof {
            assert(le_bytes_of(m as nat, (size - i) as nat) =~= seq![b] + le_bytes_of(
                (m / 256) as nat,
                (size - i - 1) as nat,
            ));
            assert((bytes@ + le_bytes_of(m as nat, (size - i) as nat)) =~= (bytes@.push(b)
                + le_bytes_of((m / 256) as nat, (size - i - 1) as nat)));
        }
        bytes.push(b);
        m = m / 256;
        i = i + 1;
    }
    proof {
        assert(le_bytes_of(m as nat, 0) =~= Seq::<u8>::empty());
        assert(bytes@ + Seq::<u8>::empty() =~= bytes@);
        lemma_le_bytes_len(n as nat, size as nat);
    }
    bytes
}

/// Pairs of bytes combined into little-endian 16-bit values.
pub open spec fn u16s_of(bytes: Seq<u8>) -> Seq<u16> {
    Seq::new(bytes.len() / 2, |i: int| (bytes[2 * i] + 256 * bytes[2 * i + 1]) as u16)
}

/// Combines consecutive byte pairs into little-endian 16-bit values.
pub fn u8vec_to_u16vec(input: &Vec<u8>) -> (r: Vec<u16>)
    requires
        input@.len() % 2 == 0,
    ensures
        r@ == u16s_of(input@),
{
    let mut output: Vec<u16> = Vec::new();
    let n: usize = input.len();
    let half: usize = n / 2;
    let mut i: usize = 0;
    while i < half
        invariant
            i <= half,
            n == input@.len(),
            half == n / 2,
            input@.len() % 2 == 0,
            output@.len() == i,
            forall|j: int| 0 <= j < i ==> output@[j] == u16s_of(input@)[j],
        decreases half - i,
    {
        let lo: u8 = input[2 * i];
        let hi: u8 = input[2 * i + 1];
        output.push(lo as u16 + 256 * (hi as u16));
        i = i + 1;
    }
    proof {
        assert(output@ =~= u16s_of(input@));
    }
    output
}

/// A sequential, bounds-checked reader over an in-memory sequence of items
/// with an internal read position.
pub struct Buffer<T> {
    items: Vec<T>,
    pos: usize,
}

impl<T: Copy> Buffer<T> {
    /// The wrapped item sequence.
    pub closed spec fn data(&self) -> Seq<T> {
        self.items@
    }

    /// The current read position.
    pub closed spec fn position(&self) -> nat {
        self.pos as nat
    }

    /// The position never lies beyond the end of the sequence.
    pub open spec fn wf(&self) -> bool {
        self.position() <= self.data().len()
    }

    /// True exactly when the read position stands at the end.
    pub fn eof(&self) -> (r: bool)
        ensures
            r == (self.position() == self.data().len()),
    {
        self.pos == self.items.len()
    }

    /// Returns the next `number` items and advances the position by
    /// `number`; fails without reading anything if fewer remain.
    pub fn read(&mut self, number: usize) -> (r: Result<Vec<T>, ArtError>)
        requires
            old(self).wf(),
        ensures
            final(self).wf(),
            final(self).data() == old(self).data(),
            old(self).position() + number <= old(self).data().len() ==> (r matches Ok(v)
                && v@ == old(self).data().subrange(
                old(self).position() as int,
                old(self).position() + number,
            ) && final(self).position() == old(self).position() + number),
            old(self).position() + number > old(self).data().len() ==> (r matches Err(e)
                && e == ArtError::OutOfBounds && final(self).position() == old(self).position()),
    {
        if number > self.items.len() - self.pos {
            return Err(ArtError::OutOfBounds);
        }
        let start: usize = self.pos;
        let mut out: Vec<T> = Vec::new();
        let mut k: usize = 0;
        while k < number
            invariant
                k <= number,
                start + number <= self.items@.len(),
                self.items@.len() <= usize::MAX,
                out@.len() == k,
                forall|j: int| 0 <= j < k ==> out@[j] == self.items@[start + j],
            decreases number - k,
        {
            out.push(self.items[start + k]);
            k = k + 1;
        }
        self.pos = start + number;
        proof {
            assert(out@ =~= self.items@.subrange(start as int, start + number));
        }
        Ok(out)
    }

    /// Moves the read position to `pos`; fails if `pos` lies past the end.
    pub fn seek(&mut self, pos: usize) -> (r: Result<(), ArtError>)
        ensures
            final(self).data() == old(self).data(),
            pos <= old(self).data().len() ==> (r matches Ok(u) && final(self).position() == pos),
            pos > old(self).data().len() ==> (r matches Err(e) && e == ArtError::OutOfBounds
                && final(self).position() == old(self).position()),
    {
        if pos > self.items.len() {
            return Err(ArtError::OutOfBounds);
        }
        self.pos = pos;
        Ok(())
    }
}

/// Wraps an item sequence in a fresh reader positioned at its start.
#[allow(non_snake_case)]
pub fn Buffer<T: Copy>(items: Vec<T>) -> (b: Buffer<T>)
    ensures
        b.data() == items@,
        b.position() == 0,
        b.wf(),
{
    Buffer { items, pos: 0 }
}

/// A sequential, bounds-checked reader over an in-memory byte sequence,
/// with little-endian integer reads on top of the raw ones.
pub struct ByteBuffer {
    bytes: Vec<u8>,
    pos: usize,
}

impl ByteBuffer {
    /// The wrapped byte sequence.
    pub closed spec fn data(&self) -> Seq<u8> {
        self.bytes@
    }

    /// The current read position.
    pub closed spec fn position(&self) -> nat {
        self.pos as nat
    }

    /// The position never lies beyond the end of the sequence.
    pub open spec fn wf(&self) -> bool {
        self.position() <= self.data().len()
    }

    /// True exactly when the read position stands at the end.
    pub fn eof(&self) -> (r: bool)
        ensures
            r == (self.position() == self.data().len()),
    {
        self.pos == self.bytes.len()
    }

    /// Returns the next `number` bytes and advances the position by
    /// `number`; fails without reading anything if fewer remain.
    pub fn read(&mut self, number: usize) -> (r: Result<Vec<u8>, ArtError>)
        requires
            old(self).wf(),
        ensures
            final(self).wf(),
            final(self).data() == old(self).data(),
            old(self).position() + number <= old(self).data().len() ==> (r matches Ok(v)
                && v@ == old(self).data().subrange(
                old(self).position() as int,
                old(self).position() + number,
            ) && final(self).position() == old(self).position() + number),
            old(self).position() + number > old(self).data().len() ==> (r matches Err(e)
                && e == ArtError::OutOfBounds && final(self).position() == old(self).position()),
    {
        if number > self.bytes.len() - self.pos {
            return Err(ArtError::OutOfBounds);
        }
        let start: usize = self.pos;
        let mut out: Vec<u8> = Vec::new();
        let mut k: usize = 0;
        while k < number
            invariant
                k <= number,
                start + number <= self.bytes@.len(),
                self.bytes@.len() <= usize::MAX,
                out@.len() == k,
                forall|j: int| 0 <= j < k ==> out@[j] == self.bytes@[start + j],
            decreases number - k,
        {
            out.push(self.bytes[start + k]);
            k = k + 1;
        }
        self.pos = start + number;
        proof {
            assert(out@ =~= self.bytes@.subrange(start as int, start + number));
        }
        Ok(out)
    }

    /// Reads the next `number` bytes as a little-endian unsigned integer.
    pub fn read_le_uint(&mut self, number: usize) -> (r: Result<u64, ArtError>)
        requires
            old(self).wf(),
            number <= 8,
        ensures
            final(self).wf(),
            final(self).data() == old(self).data(),
            old(self).position() + number <= old(self).data().len() ==> (r matches Ok(v)
                && v == le_uint_of(
                old(self).data().subrange(
                    old(self).position() as int,
                    old(self).position() + number,
                ),
            ) && final(self).position() == old(self).position() + number),
            old(self).position() + number > old(self).data().len() ==> (r matches Err(e)
                && e == ArtError::OutOfBounds && final(self).position() == old(self).position()),
    {
        match self.read(number) {
            Ok(v) => Ok(bytes_to_le_uint(&v)),
            Err(e) => Err(e),
        }
    }

    /// Moves the read position to `pos`; fails if `pos` lies past the end.
    pub fn seek(&mut self, pos: usize) -> (r: Result<(), ArtError>)
        ensures
            final(self).data() == old(self).data(),
            pos <= old(self).data().len() ==> (r matches Ok(u) && final(self).position() == pos),
            pos > old(self).data().len() ==> (r matches Err(e) && e == ArtError::OutOfBounds
                && final(self).position() == old(self).position()),
    {
        if pos > self.bytes.len() {
            return Err(ArtError::OutOfBounds);
        }
        self.pos = pos;
        Ok(())
    }
}

/// Wraps a byte sequence in a fresh reader positioned at its start.
#[allow(non_snake_case)]
pub fn ByteBuffer(bytes: Vec<u8>) -> (b: ByteBuffer)
    ensures
        b.data() == bytes@,
        b.position() == 0,
        b.wf(),
{
    ByteBuffer { bytes, pos: 0 }
}

} // verus!
