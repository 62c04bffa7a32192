use vstd::prelude::*;
use vstd::arithmetic::power2::{pow2, lemma_pow2_unfold, lemma2_to64,
    lemma_pow2_strictly_increases, lemma2_to64_rest};
use crate::bits::{is_bits, bits_of_value, value_of_bits, bits_of_bytes, zero_bits, is_prefix,
    lemma_bits_of_value_props, lemma_bits_of_value_push, lemma_bits_of_bytes_props,
    lemma_bits_of_bytes_push};
use crate::CodecError;

verus! {

/// Accumulates bits most-significant-bit first into a pending byte; each time
/// eight bits have accumulated the byte moves to the output buffer.
pub struct Writer {
    pub out: Vec<u8>,
    pub buffer: u8,
    pub written: u8,
}

impl Writer {
    pub open spec fn wf(&self) -> bool {
        self.written < 8 && (self.buffer as nat) < pow2(self.written as nat)
    }

    /// All bits written so far, in order.
    pub open spec fn bits(&self) -> Seq<u8> {
        bits_of_bytes(self.out@) + bits_of_value(self.buffer as u64, self.written as nat)
    }

    pub fn new() -> (r: Writer)
        ensures
            r.wf(),
            r.bits() == Seq::<u8>::empty(),
    {
        proof {
            lemma2_to64();
        }
        let r = Writer { out: Vec::new(), buffer: 0, written: 0 };
        proof {
            assert(r.bits() =~= Seq::<u8>::empty());
        }
        r
    }

    /// Append one bit to the stream.
    pub fn write_on_buff_bit(&mut self, value: u8)
        requires
            old(self).wf(),
            value <= 1,
        ensures
            final(self).wf(),
            final(self).bits() == old(self).bits().push(value),
            final(self).written == (if old(self).written == 7 { 0int } else {
                old(self).written + 1
            }),
    {
        proof {
            assert(pow2(7) == 128 && pow2(8) == 256) by {
                lemma2_to64();
            }
            assert(pow2(old(self).written as nat) <= pow2(7)) by {
                if old(self).written < 7 {
                    lemma_pow2_strictly_increases(old(self).written as nat, 7);
                }
            }
            lemma_bits_of_value_push(self.buffer as u64, self.written as nat, value);
            lemma_pow2_unfold((self.written + 1) as nat);
        }
        self.buffer = self.buffer * 2 + value;
        self.written = self.written + 1;
        proof {
            assert(self.bits() =~= old(self).bits().push(value));
        }
        if self.written == 8 {
            proof {
                lemma_bits_of_bytes_push(self.out@, self.buffer);
            }
            self.out.push(self.buffer);
            self.buffer = 0;
            self.written = 0;
            proof {
                lemma2_to64();
                assert(self.bits() =~= old(self).bits().push(value));
            }
        }
    }

    /// Append the `len` low-order bits of `word`, most significant first.
    pub fn write_huff_code(&mut self, word: u64, len: u8)
        requires
            old(self).wf(),
        ensures
            final(self).wf(),
            final(self).bits() == old(self).bits() + bits_of_value(word, len as nat),
        decreases len,
    {
        if len == 0 {
            proof {
                assert(self.bits() =~= old(self).bits() + bits_of_value(word, 0));
            }
        } else {
            self.write_huff_code(word / 2, len - 1);
            self.write_on_buff_bit((word % 2) as u8);
            proof {
                assert(self.bits() =~= old(self).bits() + bits_of_value(word, len as nat));
            }
        }
    }

    /// Append the eight bits of a byte.
    pub fn write_on_buff_byte(&mut self, value: u8)
        requires
            old(self).wf(),
        ensures
            final(self).wf(),
            final(self).bits() == old(self).bits() + bits_of_value(value as u64, 8),
    {
        self.write_huff_code(value as u64, 8);
    }

    /// Append the six low-order bits of a value.
    pub fn write_on_buff_6bit(&mut self, value: u8)
        requires
            old(self).wf(),
        ensures
            final(self).wf(),
            final(self).bits() == old(self).bits() + bits_of_value(value as u64, 6),
    {
        self.write_huff_code(value as u64, 6);
    }

    /// Pad the pending byte with zero bits up to the next byte boundary.
    pub fn flush(&mut self)
        requires
            old(self).wf(),
        ensures
            final(self).wf(),
            final(self).written == 0,
            is_prefix(old(self).bits(), final(self).bits()),
            final(self).bits() == bits_of_bytes(final(self).out@),
            final(self).bits() == old(self).bits() + zero_bits(
                (final(self).bits().len() - old(self).bits().len()) as nat),
            final(self).bits().len() - old(self).bits().len() < 8,
    {
        proof {
            lemma2_to64();
        }
        while self.written != 0
            invariant
                self.wf(),
                old(self).written == 0 ==> self.written == 0 && self.bits() == old(self).bits(),
                self.written != 0 ==> old(self).written != 0 && self.written >= old(self).written
                    && self.bits() == old(self).bits() + zero_bits(
                    (self.written - old(self).written) as nat),
                self.written == 0 && old(self).written != 0 ==> self.bits() == old(self).bits()
                    + zero_bits((8 - old(self).written) as nat),
            decreases (if self.written == 0 { 0int } else { 8 - self.written }),
        {
            let ghost k = (self.written - old(self).written) as nat;
            self.write_on_buff_bit(0);
            proof {
                assert(zero_bits(k).push(0u8) =~= zero_bits(k + 1));
                assert(old(self).bits() + zero_bits(k) + zero_bits(k).push(0u8).skip(k as int)
                    =~= old(self).bits() + zero_bits(k + 1));
                assert(self.bits() =~= old(self).bits() + zero_bits(k + 1));
            }
        }
        proof {
            lemma2_to64();
            assert(self.buffer == 0);
            assert(bits_of_value(0u64, 0) =~= Seq::<u8>::empty());
            assert(self.bits() =~= bits_of_bytes(self.out@));
            let pad = (self.bits().len() - old(self).bits().len()) as nat;
            if old(self).written == 0 {
                assert(self.bits() =~= old(self).bits() + zero_bits(pad));
            } else {
                assert(pad == 8 - old(self).written);
            }
            assert(self.bits().take(old(self).bits().len() as int) =~= old(self).bits());
        }
    }

    /// Hand out the completed byte stream; only whole bytes leave the writer.
    pub fn into_bytes(self) -> (r: Vec<u8>)
        requires
            self.wf(),
            self.written == 0,
        ensures
            r@ == self.out@,
    {
        self.out
    }
}

/// Reads bits one at a time from a byte stream, most significant bit first.
pub struct Reader {
    pub bits: Vec<u8>,
    pub pos: usize,
}

impl Reader {
    pub open spec fn wf(&self) -> bool {
        self.pos <= self.bits@.len() && is_bits(self.bits@)
    }

    /// The whole underlying bit stream.
    pub open spec fn stream(&self) -> Seq<u8> {
        self.bits@
    }

    pub open spec fn position(&self) -> int {
        self.pos as int
    }

    /// Take apart a byte stream into its bits.
    pub fn new(bytes: &Vec<u8>) -> (r: Reader)
        ensures
            r.wf(),
            r.stream() == bits_of_bytes(bytes@),
            r.position() == 0,
    {
        let mut bits: Vec<u8> = Vec::new();
        let mut i: usize = 0;
        proof {
            assert(bytes@.take(0) =~= Seq::<u8>::empty());
            assert(bits@ =~= bits_of_bytes(bytes@.take(0)));
        }
        while i < bytes.len()
            invariant
                i <= bytes@.len(),
                is_bits(bits@),
                bits@ == bits_of_bytes(bytes@.take(i as int)),
            decreases bytes@.len() - i,
        {
            push_code_bits(&mut bits, bytes[i] as u64, 8);
            proof {
                assert(bytes@.take(i + 1).drop_last() =~= bytes@.take(i as int));
                assert(bits@ =~= bits_of_bytes(bytes@.take(i + 1)));
            }
            i = i + 1;
        }
        proof {
            assert(bytes@.take(bytes@.len() as int) =~= bytes@);
            lemma_bits_of_bytes_props(bytes@);
        }
        Reader { bits, pos: 0 }
    }

    /// Pull the next bit, or report that the stream is exhausted.
    pub fn read_bit(&mut self) -> (r: Result<u8, CodecError>)
        requires
            old(self).wf(),
        ensures
            final(self).wf(),
            final(self).stream() == old(self).stream(),
            old(self).position() < old(self).stream().len() ==> r == Ok::<u8, CodecError>(
                old(self).stream()[old(self).position()]) && final(self).position() == old(
                self).position() + 1,
            old(self).position() >= old(self).stream().len() ==> r == Err::<u8, CodecError>(
                CodecError::TruncatedStream) && final(self).position() == old(self).position(),
            r matches Ok(b) ==> b <= 1,
    {
        if self.pos < self.bits.len() {
            let b = self.bits[self.pos];
            self.pos = self.pos + 1;
            Ok(b)
        } else {
            Err(CodecError::TruncatedStream)
        }
    }

    /// Read `n` bits, most significant first, as one value.
    pub fn read_word(&mut self, n: u8) -> (r: Result<u64, CodecError>)
        requires
            old(self).wf(),
            n <= 63,
        ensures
            final(self).wf(),
            final(self).stream() == old(self).stream(),
            old(self).position() + n <= old(self).stream().len() ==> {
                &&& r matches Ok(w)
                &&& w == value_of_bits(old(self).stream().subrange(
                    old(self).position(),
                    old(self).position() + n,
                ))
                &&& (w as nat) < pow2(n as nat)
                &&& final(self).position() == old(self).position() + n
            },
            old(self).position() + n > old(self).stream().len() ==> r == Err::<u64, CodecError>(
                CodecError::TruncatedStream) && final(self).position() == old(self).position(),
    {
        if self.bits.len() < n as usize || self.pos > self.bits.len() - n as usize {
            return Err(CodecError::TruncatedStream);
        }
        let ghost p0 = self.pos as int;
        let mut word: u64 = 0;
        let mut k: u8 = 0;
        proof {
            lemma2_to64();
            assert(old(self).stream().subrange(p0, p0) =~= Seq::<u8>::empty());
        }
        while k < n
            invariant
                self.wf(),
                self.stream() == old(self).stream(),
                k <= n <= 63,
                0 <= p0,
                p0 + n <= self.stream().len(),
                self.position() == p0 + k,
                word == value_of_bits(self.stream().subrange(p0, p0 + k as int)),
                (word as nat) < pow2(k as nat),
            decreases n - k,
        {
            let ghost pre = self.stream().subrange(p0, p0 + k as int);
            proof {
                assert(pow2(k as nat) <= pow2(62)) by {
                    if (k as nat) < 62 {
                        lemma_pow2_strictly_increases(k as nat, 62);
                    }
                }
                assert(pow2(62) < pow2(63) && pow2(63) < pow2(64)) by {
                    lemma_pow2_strictly_increases(62, 63);
                    lemma_pow2_strictly_increases(63, 64);
                }
                assert(pow2(64) == 0x1_0000_0000_0000_0000 && pow2(63) == 0x8000_0000_0000_0000)
                    by {
                    lemma2_to64_rest();
                }
                lemma_pow2_unfold((k + 1) as nat);
            }
            let b = match self.read_bit() {
                Ok(b) => b,
                Err(_) => {
                    proof {
                        assert(false);
                    }
                    0
                },
            };
            word = word * 2 + b as u64;
            k = k + 1;
            proof {
                let cur = self.stream().subrange(p0, p0 + k as int);
                assert(cur.drop_last() =~= pre);
                assert(cur.last() == b);
                assert(word == value_of_bits(cur));
            }
        }
        Ok(word)
    }

    /// Read the next eight bits as one byte.
    pub fn read_byte(&mut self) -> (r: Result<u8, CodecError>)
        requires
            old(self).wf(),
        ensures
            final(self).wf(),
            final(self).stream() == old(self).stream(),
            old(self).position() + 8 <= old(self).stream().len() ==> {
                &&& r matches Ok(w)
                &&& w == value_of_bits(old(self).stream().subrange(
                    old(self).position(),
                    old(self).position() + 8,
                ))
                &&& final(self).position() == old(self).position() + 8
            },
            old(self).position() + 8 > old(self).stream().len() ==> r == Err::<u8, CodecError>(
                CodecError::TruncatedStream) && final(self).position() == old(self).position(),
    {
        proof {
            lemma2_to64();
        }
        match self.read_word(8) {
            Ok(w) => Ok(w as u8),
            Err(e) => Err(e),
        }
    }

    /// Read the next six bits as one value below 64.
    pub fn read_6bit(&mut self) -> (r: Result<u8, CodecError>)
        requires
            old(self).wf(),
        ensures
            final(self).wf(),
            final(self).stream() == old(self).stream(),
            old(self).position() + 6 <= old(self).stream().len() ==> {
                &&& r matches Ok(w)
                &&& w == value_of_bits(old(self).stream().subrange(
                    old(self).position(),
                    old(self).position() + 6,
                ))
                &&& w < 64
                &&& final(self).position() == old(self).position() + 6
            },
            old(self).position() + 6 > old(self).stream().len() ==> r == Err::<u8, CodecError>(
                CodecError::TruncatedStream) && final(self).position() == old(self).position(),
    {
        proof {
            lemma2_to64();
        }
        match self.read_word(6) {
            Ok(w) => Ok(w as u8),
            Err(e) => Err(e),
        }
    }
}

/// Append the `len` low-order bits of `word` to a bit vector, most significant
/// bit first.
pub fn push_code_bits(bits: &mut Vec<u8>, word: u64, len: u8)
    requires
        is_bits(old(bits)@),
    ensures
        final(bits)@ == old(bits)@ + bits_of_value(word, len as nat),
        is_bits(final(bits)@),
    decreases len,
{
    if len == 0 {
        proof {
            assert(bits@ =~= old(bits)@ + bits_of_value(word, 0));
        }
    } else {
        push_code_bits(bits, word / 2, len - 1);
        bits.push((word % 2) as u8);
        proof {
            assert(bits@ =~= old(bits)@ + bits_of_value(word, len as nat));
        }
    }
}

} // verus!
