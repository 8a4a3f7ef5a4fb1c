//! Bits, and the packing of a bit sequence into bytes.
//!
//! A stream of bits is stored eight to a byte, the first bit of each group in
//! the least significant position. The last byte may be only partly filled;
//! the number of unused positions in it is the stream's padding.

use vstd::prelude::*;

verus! {

/// A single binary digit of a codeword or of a packed stream.
#[derive(Clone, Copy, Debug, PartialEq, Eq, Structural)]
pub enum Bit {
    Zero,
    One,
}

impl Bit {
    /// The numeric value of the bit: 0 or 1.
    pub open spec fn value(self) -> nat {
        match self {
            Bit::Zero => 0,
            Bit::One => 1,
        }
    }

    /// Any non-zero byte reads as `One`.
    pub fn from_u8(x: u8) -> (bit: Bit)
        ensures
            bit == (if x == 0 {
                Bit::Zero
            } else {
                Bit::One
            }),
    {
        if x == 0 {
            Bit::Zero
        } else {
            Bit::One
        }
    }

    /// The bit as the number 0 or 1.
    pub fn to_u8(x: &Bit) -> (v: u8)
        ensures
            v == x.value(),
    {
        match *x {
            Bit::Zero => 0,
            Bit::One => 1,
        }
    }
}

/// The number that a group of bits spells, the first bit counting 1, the
/// second 2, the third 4 and so on.
pub open spec fn chunk_value(chunk: Seq<Bit>) -> nat
    decreases chunk.len(),
{
    if chunk.len() == 0 {
        0
    } else {
        chunk[0].value() + 2 * chunk_value(chunk.drop_first())
    }
}

/// The bit of `b` at position `k`, position 0 being the least significant.
pub open spec fn bit_at(b: u8, k: u8) -> Bit {
    if (b >> k) & 1 == 1 {
        Bit::One
    } else {
        Bit::Zero
    }
}

/// The end of the `j`-th group of eight within `n` bits.
pub open spec fn chunk_end(j: int, n: int) -> int {
    if 8 * j + 8 <= n {
        8 * j + 8
    } else {
        n
    }
}

/// The bytes that hold `bits`: byte `j` spells bits `8j .. 8j+8`, and the
/// positions of the last byte that have no bit are zero.
pub open spec fn pack(bits: Seq<Bit>) -> Seq<u8> {
    Seq::new(
        ((bits.len() + 7) / 8) as nat,
        |j: int| chunk_value(bits.subrange(8 * j, chunk_end(j, bits.len() as int))) as u8,
    )
}

/// The number of unused positions in the last byte of a stream of `n` bits.
pub open spec fn padding(n: nat) -> nat {
    ((8 - n % 8) % 8) as nat
}

/// The number of bits that `len` bytes hold when the last of them has `pad`
/// unused positions. A count above eight drops the whole last byte.
pub open spec fn unpacked_len(len: nat, pad: nat) -> nat {
    if len == 0 {
        0
    } else if pad >= 8 {
        (8 * len - 8) as nat
    } else {
        (8 * len - pad) as nat
    }
}

/// The bits that `bytes` hold, without the `pad` unused positions at the high
/// end of the last byte.
pub open spec fn unpack(bytes: Seq<u8>, pad: nat) -> Seq<Bit> {
    Seq::new(unpacked_len(bytes.len(), pad), |i: int| bit_at(bytes[i / 8], (i % 8) as u8))
}

/// Two to the power `n`.
pub open spec fn two_pow(n: nat) -> nat
    decreases n,
{
    if n == 0 {
        1
    } else {
        2 * two_pow((n - 1) as nat)
    }
}

/// A group of `n` bits spells a number below two to the `n`.
pub proof fn lemma_chunk_value_bound(chunk: Seq<Bit>)
    ensures
        chunk_value(chunk) < two_pow(chunk.len()),
    decreases chunk.len(),
{
    if chunk.len() > 0 {
        lemma_chunk_value_bound(chunk.drop_first());
    }
}

/// A group of at most eight bits fits a byte.
pub proof fn lemma_chunk_value_fits(chunk: Seq<Bit>)
    requires
        chunk.len() <= 8,
    ensures
        chunk_value(chunk) < 256,
{
    lemma_chunk_value_bound(chunk);
    lemma_two_pow_monotone(chunk.len(), 8);
    assert(two_pow(8) == 256) by {
        reveal_with_fuel(two_pow, 9);
    }
}

/// Powers of two grow with the exponent.
pub proof fn lemma_two_pow_monotone(a: nat, b: nat)
    requires
        a <= b,
    ensures
        two_pow(a) <= two_pow(b),
    decreases b,
{
    if a < b {
        lemma_two_pow_monotone(a, (b - 1) as nat);
    }
}

/// The byte that a group of bits spells gives back each bit at its position.
pub proof fn lemma_bit_at_chunk(chunk: Seq<Bit>, k: u8)
    requires
        chunk.len() <= 8,
        k < chunk.len(),
    ensures
        bit_at(chunk_value(chunk) as u8, k) == chunk[k as int],
    decreases k,
{
    lemma_chunk_value_fits(chunk);
    lemma_chunk_value_fits(chunk.drop_first());
    let v = chunk_value(chunk) as u8;
    let rest = chunk_value(chunk.drop_first()) as u8;
    assert(v == chunk[0].value() + 2 * rest);
    if k == 0 {
        assert((v >> 0u8) & 1 == v % 2) by (bit_vector);
    } else {
        let j = (k - 1) as u8;
        assert((v >> k) & 1 == ((v / 2) >> j) & 1) by (bit_vector)
            requires
                0 < k < 8,
                j == k - 1,
        ;
        assert(v / 2 == rest);
        lemma_bit_at_chunk(chunk.drop_first(), j);
        assert(chunk.drop_first()[j as int] == chunk[k as int]);
    }
}

/// Packing and unpacking again, with the padding that the length calls for,
/// gives back the bits.
pub proof fn lemma_unpack_pack(bits: Seq<Bit>)
    ensures
        unpack(pack(bits), padding(bits.len())) == bits,
        pack(bits).len() == (bits.len() + 7) / 8,
        padding(bits.len()) < 8,
{
    let bytes = pack(bits);
    let pad = padding(bits.len());
    let out = unpack(bytes, pad);
    assert(out.len() == bits.len());
    assert forall|i: int| 0 <= i < bits.len() implies out[i] == bits[i] by {
        let j = i / 8;
        let chunk = bits.subrange(8 * j, chunk_end(j, bits.len() as int));
        lemma_bit_at_chunk(chunk, (i % 8) as u8);
        assert(chunk[i % 8] == bits[i]);
    }
    assert(out =~= bits);
}

/// The padding is 0 where the bits fill whole bytes and else what the last
/// byte lacks; taken off the bytes that hold `n` bits, it leaves `n` bits.
pub proof fn lemma_padding(n: nat)
    ensures
        n % 8 == 0 ==> padding(n) == 0,
        n % 8 != 0 ==> padding(n) == 8 - n % 8,
        unpacked_len(((n + 7) / 8) as nat, padding(n)) == n,
{
}

/// Collects bits and packs them into bytes, eight at a time.
pub struct BitWriter {
    buffer: Vec<Bit>,
    result: Vec<u8>,
    written: Ghost<Seq<Bit>>,
}

impl BitWriter {
    /// All the bits written so far, in order.
    pub closed spec fn bits(&self) -> Seq<Bit> {
        self.written@
    }

    /// The pending group is short of a byte and the bytes flushed so far hold
    /// the bits before it.
    pub closed spec fn wf(&self) -> bool {
        &&& self.buffer@.len() < 8
        &&& self.written@.len() == 8 * self.result@.len() + self.buffer@.len()
        &&& self.result@ == pack(self.written@.subrange(0, 8 * self.result@.len() as int))
        &&& self.buffer@ == self.written@.subrange(
            8 * self.result@.len() as int,
            self.written@.len() as int,
        )
    }

    /// A writer that has written nothing.
    pub fn new() -> (w: Self)
        ensures
            w.wf(),
            w.bits() == Seq::<Bit>::empty(),
    {
        let w = Self { buffer: Vec::new(), result: Vec::new(), written: Ghost(Seq::empty()) };
        assert(w.result@ =~= pack(w.written@.subrange(0, 0)));
        assert(w.buffer@ =~= w.written@.subrange(0, 0));
        w
    }

    /// Flushes the pending group as one byte.
    fn dump_byte(&mut self)
        requires
            0 < old(self).buffer@.len() <= 8,
        ensures
            final(self).buffer@.len() == 0,
            final(self).result@ == old(self).result@.push(chunk_value(old(self).buffer@) as u8),
            final(self).written == old(self).written,
    {
        let n: usize = self.buffer.len();
        let mut byte: u8 = 0;
        let mut i: usize = n;
        proof {
            assert(self.buffer@.subrange(n as int, n as int) =~= Seq::<Bit>::empty());
            lemma_chunk_value_fits(self.buffer@);
        }
        while i > 0
            invariant
                i <= n,
                n == self.buffer@.len(),
                n <= 8,
                byte == chunk_value(self.buffer@.subrange(i as int, n as int)),
            decreases i,
        {
            i -= 1;
            let bit = Bit::to_u8(&self.buffer[i]);
            proof {
                let tail = self.buffer@.subrange(i as int, n as int);
                assert(tail.drop_first() =~= self.buffer@.subrange(i + 1, n as int));
                lemma_chunk_value_fits(tail);
            }
            byte = 2 * byte + bit;
        }
        assert(self.buffer@.subrange(0, n as int) =~= self.buffer@);
        self.result.push(byte);
        self.buffer.clear();
    }

    /// Appends one bit to the stream.
    pub fn write_bit(&mut self, bit: Bit)
        requires
            old(self).wf(),
        ensures
            final(self).wf(),
            final(self).bits() == old(self).bits().push(bit),
    {
        self.buffer.push(bit);
        self.written = Ghost(self.written@.push(bit));
        let ghost done: int = 8 * self.result@.len() as int;
        proof {
            assert(self.written@.subrange(0, done as int) =~= old(self).written@.subrange(
                0,
                done as int,
            ));
            assert(self.buffer@ =~= self.written@.subrange(done as int, self.written@.len() as int));
        }
        if self.buffer.len() == 8 {
            self.dump_byte();
            proof {
                let w = self.written@;
                let before = w.subrange(0, done as int);
                let after = w.subrange(0, done + 8);
                assert(w.len() == done + 8);
                assert forall|j: int| 0 <= j < self.result@.len() implies self.result@[j] == pack(
                    after,
                )[j] by {
                    if j < old(self).result@.len() {
                        assert(after.subrange(8 * j, chunk_end(j, after.len() as int))
                            =~= before.subrange(8 * j, chunk_end(j, before.len() as int)));
                        assert(pack(before)[j] == pack(after)[j]);
                    } else {
                        assert(after.subrange(8 * j, chunk_end(j, after.len() as int))
                            =~= w.subrange(done as int, w.len() as int));
                    }
                }
                assert(self.result@ =~= pack(after));
                assert(self.buffer@ =~= w.subrange(done + 8, w.len() as int));
            }
        }
    }

    /// Appends a run of bits to the stream.
    pub fn write_bits(&mut self, bits: &Vec<Bit>)
        requires
            old(self).wf(),
        ensures
            final(self).wf(),
            final(self).bits() == old(self).bits() + bits@,
    {
        let mut i: usize = 0;
        assert(self.bits() =~= old(self).bits() + bits@.subrange(0, 0));
        while i < bits.len()
            invariant
                i <= bits.len(),
                self.wf(),
                self.bits() == old(self).bits() + bits@.subrange(0, i as int),
            decreases bits.len() - i,
        {
            self.write_bit(bits[i]);
            assert(bits@.subrange(0, i + 1) =~= bits@.subrange(0, i as int).push(bits@[i as int]));
            assert(self.bits() =~= old(self).bits() + bits@.subrange(0, i + 1));
            i += 1;
        }
        assert(bits@.subrange(0, i as int) =~= bits@);
    }

    /// Flushes what is pending and hands out the bytes together with the
    /// padding of the last one.
    pub fn finish(self) -> (out: (Vec<u8>, u8))
        requires
            self.wf(),
        ensures
            out.0@ == pack(self.bits()),
            out.1 == padding(self.bits().len()),
    {
        let mut w = self;
        let pending: usize = w.buffer.len();
        let ghost full: int = 8 * w.result@.len() as int;
        let ghost bits = w.written@;
        if pending == 0 {
            assert(bits.subrange(0, full as int) =~= bits);
            (w.result, 0)
        } else {
            let remainder: u8 = (8 - pending) as u8;
            w.dump_byte();
            proof {
                let before = bits.subrange(0, full as int);
                assert forall|j: int| 0 <= j < w.result@.len() implies w.result@[j] == pack(
                    bits,
                )[j] by {
                    if j < self.result@.len() {
                        assert(bits.subrange(8 * j, chunk_end(j, bits.len() as int))
                            =~= before.subrange(8 * j, chunk_end(j, before.len() as int)));
                        assert(pack(before)[j] == pack(bits)[j]);
                    } else {
                        assert(bits.subrange(8 * j, chunk_end(j, bits.len() as int))
                            =~= bits.subrange(full as int, bits.len() as int));
                    }
                }
                assert(w.result@ =~= pack(bits));
            }
            (w.result, remainder)
        }
    }
}

/// Hands out the bits of a packed stream one at a time.
pub struct BitReader<'a> {
    data: &'a Vec<u8>,
    padding: u8,
    buffer: Vec<Bit>,
    ptr: usize,
}

impl<'a> BitReader<'a> {
    /// The whole stream that the reader was made for.
    pub closed spec fn stream(&self) -> Seq<Bit> {
        unpack(self.data@, self.padding as nat)
    }

    /// The position in the stream up to which bytes have been taken apart.
    pub closed spec fn fetched(&self) -> int {
        if 8 * self.ptr <= self.stream().len() {
            8 * self.ptr
        } else {
            self.stream().len() as int
        }
    }

    /// The bits not yet handed out.
    pub closed spec fn remaining(&self) -> Seq<Bit> {
        self.stream().subrange(self.fetched() - self.buffer@.len(), self.stream().len() as int)
    }

    /// The buffer holds, last to first, the bits just before the position
    /// up to which bytes have been taken apart.
    pub closed spec fn wf(&self) -> bool {
        &&& self.ptr <= self.data@.len()
        &&& self.buffer@.len() <= 8
        &&& self.buffer@.len() <= self.fetched()
        &&& forall|k: int|
            0 <= k < self.buffer@.len() ==> self.buffer@[self.buffer@.len() - 1 - k]
                == #[trigger] self.stream()[self.fetched() - self.buffer@.len() + k]
    }

    /// A reader at the start of `data`, of whose last byte the `padding`
    /// highest positions are not part of the stream.
    pub fn new(data: &'a Vec<u8>, padding: u8) -> (r: Self)
        ensures
            r.wf(),
            r.remaining() == unpack(data@, padding as nat),
    {
        let r = Self { data, padding, buffer: Vec::new(), ptr: 0 };
        assert(r.remaining() =~= unpack(data@, padding as nat));
        r
    }

    /// Takes the next byte apart into the buffer, if there is one.
    fn read_byte(&mut self)
        requires
            old(self).wf(),
            old(self).buffer@.len() == 0,
        ensures
            final(self).wf(),
            final(self).remaining() == old(self).remaining(),
            final(self).buffer@.len() == 0 ==> final(self).remaining().len() == 0,
    {
        if self.ptr < self.data.len() {
            let byte = self.data[self.ptr];
            let mut keep: u8 = 8;
            if self.ptr == self.data.len() - 1 {
                keep = if self.padding >= 8 {
                    0
                } else {
                    8 - self.padding
                };
            }
            let ghost start: int = 8 * self.ptr as int;
            let ghost stream = self.stream();
            assert(stream.len() >= start + keep);
            let mut i: u8 = keep;
            while i > 0
                invariant
                    i <= keep <= 8,
                    self.buffer@.len() == keep - i,
                    self.data == old(self).data,
                    self.padding == old(self).padding,
                    self.ptr == old(self).ptr,
                    self.ptr < self.data@.len(),
                    byte == self.data@[self.ptr as int],
                    stream == self.stream(),
                    start == 8 * self.ptr,
                    stream.len() >= start + keep,
                    forall|k: int|
                        0 <= k < self.buffer@.len() ==> self.buffer@[k] == #[trigger] stream[start
                            + keep - 1 - k],
                decreases i,
            {
                i -= 1;
                let bit = Bit::from_u8((byte >> i) & 1);
                proof {
                    let b = (byte >> i) & 1;
                    assert(b == 0 || b == 1) by (bit_vector)
                        requires
                            b == (byte >> i) & 1,
                    ;
                    assert((start + i) / 8 == self.ptr as int);
                    assert((start + i) % 8 == i as int);
                    assert(stream[start + i] == bit_at(byte, i));
                }
                self.buffer.push(bit);
            }
            self.ptr += 1;
            proof {
                assert(self.stream() == stream);
                assert(self.fetched() == start + keep);
                assert(old(self).fetched() == start);
                assert forall|k: int| 0 <= k < self.buffer@.len() implies self.buffer@[
                    self.buffer@.len() - 1 - k
                ] == #[trigger] self.stream()[self.fetched() - self.buffer@.len() + k] by {
                    let m = self.buffer@.len() - 1 - k;
                    assert(self.buffer@[m] == stream[start + keep - 1 - m]);
                }
            }
        } else {
            assert(8 * self.ptr >= self.stream().len());
        }
    }

    /// The next bit of the stream, or `None` at its end.
    pub fn read_bit(&mut self) -> (bit: Option<Bit>)
        requires
            old(self).wf(),
        ensures
            final(self).wf(),
            match bit {
                Some(b) => old(self).remaining().len() > 0 && b == old(self).remaining()[0]
                    && final(self).remaining() == old(self).remaining().drop_first(),
                None => old(self).remaining().len() == 0 && final(self).remaining().len() == 0,
            },
    {
        if self.buffer.len() == 0 {
            self.read_byte();
        }
        let ghost before = *self;
        let bit = self.buffer.pop();
        proof {
            if bit.is_some() {
                let n = before.buffer@.len();
                assert(before.buffer@[n - 1] == before.stream()[before.fetched() - n + 0]);
                assert(self.stream() == before.stream());
                assert(self.fetched() == before.fetched());
                assert(self.remaining() =~= before.remaining().drop_first());
                assert forall|k: int| 0 <= k < self.buffer@.len() implies self.buffer@[
                    self.buffer@.len() - 1 - k
                ] == #[trigger] self.stream()[self.fetched() - self.buffer@.len() + k] by {
                    assert(before.buffer@[n - 1 - (k + 1)] == before.stream()[before.fetched() - n
                        + (k + 1)]);
                }
            }
        }
        bit
    }
}

} // verus!
