use vstd::prelude::*;
use vstd::arithmetic::power2::{pow2, lemma2_to64, lemma2_to64_rest, lemma_pow2_strictly_increases,
    lemma_pow2_unfold};
use crate::bits::{bits_of_value, value_of_bits, bits_of_bytes};
use crate::stream::Reader;
use crate::table::DecoderTeranslateTable;
use crate::codec::magic_seq;
use crate::CodecError;

verus! {

/// Step `k` of validating the seven magic bytes at the head of the stream.
pub open spec fn check_magic(bits: Seq<u8>, k: nat) -> Option<CodecError>
    decreases 7 - k,
{
    if k >= 7 {
        None
    } else if 8 * k + 8 > bits.len() {
        Some(CodecError::TruncatedStream)
    } else if value_of_bits(bits.subrange(8 * (k as int), 8 * (k as int) + 8)) != magic_seq()[k as int] as nat {
        Some(CodecError::FormatMismatch)
    } else {
        check_magic(bits, k + 1)
    }
}

/// Parse `m` table entries starting at bit `pos`: symbol byte, 6-bit length,
/// then that many code bits.
pub open spec fn parse_entries(bits: Seq<u8>, pos: int, m: nat) -> Result<
    (Seq<DecoderTeranslateTable>, int),
    CodecError,
>
    decreases m,
{
    if m == 0 {
        Ok((Seq::empty(), pos))
    } else if pos + 14 > bits.len() {
        Err(CodecError::TruncatedStream)
    } else {
        let sym = value_of_bits(bits.subrange(pos, pos + 8));
        let len = value_of_bits(bits.subrange(pos + 8, pos + 14));
        if pos + 14 + len > bits.len() {
            Err(CodecError::TruncatedStream)
        } else {
            let word = value_of_bits(bits.subrange(pos + 14, pos + 14 + len));
            let e = DecoderTeranslateTable {
                word: word as u64,
                word_len: len as u8,
                char_value: sym as u8,
            };
            match parse_entries(bits, pos + 14 + len, (m - 1) as nat) {
                Ok(rest) => Ok((seq![e] + rest.0, rest.1)),
                Err(err) => Err(err),
            }
        }
    }
}

/// The entry's stored (code value, code length) pair equals the accumulated one.
pub open spec fn matches_entry(e: DecoderTeranslateTable, w: u64, c: u8) -> bool {
    e.word == w && e.word_len == c
}

/// `k` is the first entry matching the accumulated pair, in table order.
pub open spec fn is_first_match(es: Seq<DecoderTeranslateTable>, w: u64, c: u8, k: int) -> bool {
    &&& 0 <= k < es.len()
    &&& matches_entry(es[k], w, c)
    &&& forall|j: int| 0 <= j < k ==> !matches_entry(#[trigger] es[j], w, c)
}

pub open spec fn found_match(es: Seq<DecoderTeranslateTable>, w: u64, c: u8) -> bool {
    exists|k: int| is_first_match(es, w, c, k)
}

pub open spec fn first_match_index(es: Seq<DecoderTeranslateTable>, w: u64, c: u8) -> int {
    choose|k: int| is_first_match(es, w, c, k)
}

/// Decode one symbol: accumulate bits until the pair read so far matches a
/// table entry; more than 63 accumulated bits mean a corrupt stream.
pub open spec fn decode_one(
    bits: Seq<u8>,
    pos: int,
    es: Seq<DecoderTeranslateTable>,
    acc: u64,
    c: u8,
) -> Result<(u8, int), CodecError>
    decreases 63 - c,
{
    if c >= 63 {
        Err(CodecError::CorruptStream)
    } else if pos < 0 || pos >= bits.len() {
        Err(CodecError::TruncatedStream)
    } else {
        let acc2 = (2 * acc + bits[pos]) as u64;
        let c2 = (c + 1) as u8;
        if found_match(es, acc2, c2) {
            Ok((es[first_match_index(es, acc2, c2)].char_value, pos + 1))
        } else {
            decode_one(bits, pos + 1, es, acc2, c2)
        }
    }
}

/// Decode exactly `n` symbols, starting each at the bit after the last match.
pub open spec fn decode_body(
    bits: Seq<u8>,
    pos: int,
    es: Seq<DecoderTeranslateTable>,
    n: nat,
) -> Result<Seq<u8>, CodecError>
    decreases n,
{
    if n == 0 {
        Ok(Seq::empty())
    } else {
        match decode_one(bits, pos, es, 0, 0) {
            Ok(sp) => match decode_body(bits, sp.1, es, (n - 1) as nat) {
                Ok(rest) => Ok(seq![sp.0] + rest),
                Err(e) => Err(e),
            },
            Err(e) => Err(e),
        }
    }
}

/// What decoding an encoded bit stream yields: magic validation, the symbol
/// count, the transmitted table, the 32-bit size, then that many symbols.
pub open spec fn decode_spec(bits: Seq<u8>) -> Result<Seq<u8>, CodecError> {
    match check_magic(bits, 0) {
        Some(e) => Err(e),
        None => if bits.len() < 64 {
            Err(CodecError::TruncatedStream)
        } else {
            let m = value_of_bits(bits.subrange(56, 64)) + 1;
            match parse_entries(bits, 64, m) {
                Err(e) => Err(e),
                Ok(esp) => if esp.1 + 32 > bits.len() {
                    Err(CodecError::TruncatedStream)
                } else {
                    let n = value_of_bits(bits.subrange(esp.1, esp.1 + 32));
                    decode_body(bits, esp.1 + 32, esp.0, n)
                },
            }
        },
    }
}

/// A stream whose first byte is not the first magic byte is turned away as a
/// format mismatch before anything else is read.
pub proof fn lemma_magic_mismatch(bytes: Seq<u8>)
    requires
        bytes.len() >= 1,
        bytes[0] != 72,
    ensures
        decode_spec(bits_of_bytes(bytes)) == Err::<Seq<u8>, CodecError>(
            CodecError::FormatMismatch,
        ),
{
    let bits = bits_of_bytes(bytes);
    crate::bits::lemma_bits_of_bytes_props(bytes);
    crate::bits::lemma_bits_of_bytes_slice(bytes, 0);
    assert(bits.subrange(0, 8) == bits_of_value(bytes[0] as u64, 8));
    assert(pow2(8) == 256) by {
        lemma2_to64();
    }
    crate::bits::lemma_value_of_bits_of_value(bytes[0] as u64, 8);
    assert(value_of_bits(bits.subrange(0, 8)) == bytes[0] as nat);
    assert(check_magic(bits, 0) == Some(CodecError::FormatMismatch));
}

/// Decode a whole encoded file back to the original bytes. The result is
/// exactly what `decode_spec` says of the input's bits: the same output on
/// success and the same error kind on failure.
#[verifier::rlimit(100)]
pub fn huff_decode(bytes: &Vec<u8>) -> (r: Result<Vec<u8>, CodecError>)
    ensures
        r matches Ok(o) ==> decode_spec(bits_of_bytes(bytes@)) == Ok::<Seq<u8>, CodecError>(o@),
        r matches Err(e) ==> decode_spec(bits_of_bytes(bytes@)) == Err::<Seq<u8>, CodecError>(e),
{
    let mut reader = Reader::new(bytes);
    let ghost bits = reader.stream();
    let magic = crate::codec::magic_bytes();
    let mut k: usize = 0;
    while k < 7
        invariant
            reader.wf(),
            reader.stream() == bits,
            bits == bits_of_bytes(bytes@),
            k <= 7,
            reader.position() == 8 * k,
            magic@ == magic_seq(),
            check_magic(bits, 0) == check_magic(bits, k as nat),
        decreases 7 - k,
    {
        match reader.read_byte() {
            Ok(x) => {
                if x != magic[k] {
                    proof {
                        assert(check_magic(bits, k as nat) == Some(CodecError::FormatMismatch));
                    }
                    return Err(CodecError::FormatMismatch);
                }
            },
            Err(_) => {
                proof {
                    assert(check_magic(bits, k as nat) == Some(CodecError::TruncatedStream));
                }
                return Err(CodecError::TruncatedStream);
            },
        }
        k = k + 1;
    }
    proof {
        assert(check_magic(bits, 0) == None::<CodecError>);
    }
    // Symbol count, stored less one.
    let m = match reader.read_byte() {
        Ok(x) => x,
        Err(_) => {
            return Err(CodecError::TruncatedStream);
        },
    };
    let count: u16 = m as u16 + 1;
    let ghost mspec = value_of_bits(bits.subrange(56, 64)) + 1;
    proof {
        assert(mspec == count as nat);
    }
    // The transmitted table.
    let mut entries: Vec<DecoderTeranslateTable> = Vec::new();
    let mut j: u16 = 0;
    proof {
        assert forall|s: Seq<DecoderTeranslateTable>| #[trigger] (Seq::<
            DecoderTeranslateTable,
        >::empty() + s) == s by {
            assert(Seq::<DecoderTeranslateTable>::empty() + s =~= s);
        }
    }
    while j < count
        invariant
            reader.wf(),
            reader.stream() == bits,
            bits == bits_of_bytes(bytes@),
            j <= count,
            reader.position() >= 0,
            check_magic(bits, 0) == None::<CodecError>,
            bits.len() >= 64,
            value_of_bits(bits.subrange(56, 64)) + 1 == count as nat,
            match parse_entries(bits, reader.position(), (count - j) as nat) {
                Ok(rest) => parse_entries(bits, 64, count as nat) == Ok::<
                    (Seq<DecoderTeranslateTable>, int),
                    CodecError,
                >((entries@ + rest.0, rest.1)),
                Err(e) => parse_entries(bits, 64, count as nat) == Err::<
                    (Seq<DecoderTeranslateTable>, int),
                    CodecError,
                >(e),
            },
        decreases count - j,
    {
        let ghost pos0 = reader.position();
        let ghost rem = (count - j) as nat;
        let sym = match reader.read_byte() {
            Ok(x) => x,
            Err(_) => {
                proof {
                    assert(parse_entries(bits, pos0, rem) == Err::<
                        (Seq<DecoderTeranslateTable>, int),
                        CodecError,
                    >(CodecError::TruncatedStream));
                }
                return Err(CodecError::TruncatedStream);
            },
        };
        let len = match reader.read_6bit() {
            Ok(x) => x,
            Err(_) => {
                proof {
                    assert(parse_entries(bits, pos0, rem) == Err::<
                        (Seq<DecoderTeranslateTable>, int),
                        CodecError,
                    >(CodecError::TruncatedStream));
                }
                return Err(CodecError::TruncatedStream);
            },
        };
        let word = match reader.read_word(len) {
            Ok(x) => x,
            Err(_) => {
                proof {
                    assert(parse_entries(bits, pos0, rem) == Err::<
                        (Seq<DecoderTeranslateTable>, int),
                        CodecError,
                    >(CodecError::TruncatedStream));
                }
                return Err(CodecError::TruncatedStream);
            },
        };
        let e = DecoderTeranslateTable::new(sym, word, len);
        let ghost pre = entries@;
        entries.push(e);
        proof {
            let espec = DecoderTeranslateTable {
                word: value_of_bits(bits.subrange(pos0 + 14, pos0 + 14 + len as int)) as u64,
                word_len: value_of_bits(bits.subrange(pos0 + 8, pos0 + 14)) as u8,
                char_value: value_of_bits(bits.subrange(pos0, pos0 + 8)) as u8,
            };
            assert(e == espec);
            match parse_entries(bits, reader.position(), (rem - 1) as nat) {
                Ok(rest) => {
                    assert(parse_entries(bits, pos0, rem) == Ok::<
                        (Seq<DecoderTeranslateTable>, int),
                        CodecError,
                    >((seq![e] + rest.0, rest.1)));
                    assert(pre + (seq![e] + rest.0) =~= entries@ + rest.0);
                },
                Err(_) => {},
            }
        }
        j = j + 1;
    }
    proof {
        assert(parse_entries(bits, reader.position(), 0) == Ok::<
            (Seq<DecoderTeranslateTable>, int),
            CodecError,
        >((Seq::empty(), reader.position())));
        assert(entries@ + Seq::<DecoderTeranslateTable>::empty() =~= entries@);
        assert(parse_entries(bits, 64, count as nat) == Ok::<
            (Seq<DecoderTeranslateTable>, int),
            CodecError,
        >((entries@, reader.position())));
    }
    // Declared original size.
    let n = match reader.read_word(32) {
        Ok(x) => x,
        Err(_) => {
            return Err(CodecError::TruncatedStream);
        },
    };
    let ghost body_start = reader.position();
    let mut out: Vec<u8> = Vec::new();
    let mut done: u64 = 0;
    proof {
        lemma2_to64();
        assert forall|s: Seq<u8>| #[trigger] (Seq::<u8>::empty() + s) == s by {
            assert(Seq::<u8>::empty() + s =~= s);
        }
    }
    while done < n
        invariant
            reader.wf(),
            reader.stream() == bits,
            bits == bits_of_bytes(bytes@),
            done <= n,
            reader.position() >= 0,
            decode_spec(bits) == (match decode_body(bits, body_start, entries@, n as nat) {
                Ok(s) => Ok::<Seq<u8>, CodecError>(s),
                Err(e) => Err::<Seq<u8>, CodecError>(e),
            }),
            match decode_body(bits, reader.position(), entries@, (n - done) as nat) {
                Ok(rest) => decode_body(bits, body_start, entries@, n as nat) == Ok::<
                    Seq<u8>,
                    CodecError,
                >(out@ + rest),
                Err(e) => decode_body(bits, body_start, entries@, n as nat) == Err::<
                    Seq<u8>,
                    CodecError,
                >(e),
            },
        decreases n - done,
    {
        let ghost pos_sym = reader.position();
        let ghost remn = (n - done) as nat;
        let mut acc: u64 = 0;
        let mut c: u8 = 0;
        let emitted: u8;
        proof {
            lemma2_to64();
        }
        loop
            invariant_except_break
                c <= 63,
                reader.position() == pos_sym + c,
                (acc as nat) < pow2(c as nat),
                decode_one(bits, pos_sym, entries@, 0, 0) == decode_one(
                    bits,
                    reader.position(),
                    entries@,
                    acc,
                    c,
                ),
            invariant
                reader.wf(),
                reader.stream() == bits,
                bits == bits_of_bytes(bytes@),
                pos_sym >= 0,
                reader.position() >= 0,
                0 < remn <= n,
                remn == n - done,
                decode_spec(bits) == (match decode_body(bits, body_start, entries@, n as nat) {
                    Ok(s) => Ok::<Seq<u8>, CodecError>(s),
                    Err(e) => Err::<Seq<u8>, CodecError>(e),
                }),
                match decode_body(bits, pos_sym, entries@, remn) {
                    Ok(rest) => decode_body(bits, body_start, entries@, n as nat) == Ok::<
                        Seq<u8>,
                        CodecError,
                    >(out@ + rest),
                    Err(e) => decode_body(bits, body_start, entries@, n as nat) == Err::<
                        Seq<u8>,
                        CodecError,
                    >(e),
                },
            ensures
                reader.wf(),
                reader.stream() == bits,
                bits == bits_of_bytes(bytes@),
                reader.position() >= 0,
                remn == n - done,
                0 < remn <= n,
                decode_spec(bits) == (match decode_body(bits, body_start, entries@, n as nat) {
                    Ok(s) => Ok::<Seq<u8>, CodecError>(s),
                    Err(e) => Err::<Seq<u8>, CodecError>(e),
                }),
                match decode_body(bits, pos_sym, entries@, remn) {
                    Ok(rest) => decode_body(bits, body_start, entries@, n as nat) == Ok::<
                        Seq<u8>,
                        CodecError,
                    >(out@ + rest),
                    Err(e) => decode_body(bits, body_start, entries@, n as nat) == Err::<
                        Seq<u8>,
                        CodecError,
                    >(e),
                },
                decode_one(bits, pos_sym, entries@, 0, 0) == Ok::<(u8, int), CodecError>(
                    (emitted, reader.position()),
                ),
            decreases 63 - c,
        {
            if c >= 63 {
                proof {
                    assert(decode_one(bits, pos_sym, entries@, 0, 0) == Err::<
                        (u8, int),
                        CodecError,
                    >(CodecError::CorruptStream));
                }
                return Err(CodecError::CorruptStream);
            }
            proof {
                assert(pow2(c as nat) <= pow2(62)) by {
                    if (c as nat) < 62 {
                        lemma_pow2_strictly_increases(c as nat, 62);
                    }
                }
                assert(pow2(62) < pow2(63) && pow2(63) == 0x8000_0000_0000_0000) by {
                    lemma_pow2_strictly_increases(62, 63);
                    lemma2_to64_rest();
                }
                lemma_pow2_unfold((c + 1) as nat);
            }
            let b = match reader.read_bit() {
                Ok(b) => b,
                Err(_) => {
                    proof {
                        assert(decode_one(bits, reader.position(), entries@, acc, c) == Err::<
                            (u8, int),
                            CodecError,
                        >(CodecError::TruncatedStream));
                    }
                    return Err(CodecError::TruncatedStream);
                },
            };
            let ghost accpre = acc;
            let ghost cpre = c;
            acc = acc * 2 + b as u64;
            c = c + 1;
            // Scan the table for the pair read so far.
            let mut t: usize = 0;
            let mut found = false;
            let mut sym: u8 = 0;
            while t < entries.len() && !found
                invariant
                    t <= entries@.len(),
                    forall|x: int| 0 <= x < t ==> !matches_entry(#[trigger] entries@[x], acc, c),
                    found ==> t < entries@.len() && matches_entry(entries@[t as int], acc, c)
                        && sym == entries@[t as int].char_value,
                decreases entries@.len() - t, (if found { 0int } else { 1int }),
            {
                if entries[t].word == acc && entries[t].word_len == c {
                    found = true;
                    sym = entries[t].char_value;
                } else {
                    t = t + 1;
                }
            }
            if found {
                proof {
                    assert(is_first_match(entries@, acc, c, t as int));
                    let fi = first_match_index(entries@, acc, c);
                    assert(is_first_match(entries@, acc, c, fi));
                    if fi < t as int {
                        assert(!matches_entry(entries@[fi], acc, c));
                    }
                    if fi > t as int {
                        assert(!matches_entry(entries@[t as int], acc, c));
                    }
                    assert(fi == t as int);
                    assert(decode_one(bits, pos_sym + cpre, entries@, accpre, cpre) == Ok::<
                        (u8, int),
                        CodecError,
                    >((sym, pos_sym + c)));
                }
                emitted = sym;
                break ;
            }
            proof {
                if found_match(entries@, acc, c) {
                    let fm = first_match_index(entries@, acc, c);
                    assert(is_first_match(entries@, acc, c, fm));
                    assert(!matches_entry(entries@[fm], acc, c));
                }
                assert(decode_one(bits, pos_sym + cpre, entries@, accpre, cpre) == decode_one(
                    bits,
                    pos_sym + c,
                    entries@,
                    acc,
                    c,
                ));
            }
        }
        let ghost prev = out@;
        out.push(emitted);
        done = done + 1;
        proof {
            assert(out@ == prev.push(emitted));
            assert(remn - 1 == n - done);
            assert(decode_body(bits, pos_sym, entries@, remn) == (
            match decode_body(bits, reader.position(), entries@, (remn - 1) as nat) {
                Ok(rest) => Ok::<Seq<u8>, CodecError>(seq![emitted] + rest),
                Err(e) => Err::<Seq<u8>, CodecError>(e),
            }));
            match decode_body(bits, reader.position(), entries@, (remn - 1) as nat) {
                Ok(rest) => {
                    assert(decode_body(bits, pos_sym, entries@, remn) == Ok::<Seq<u8>, CodecError>(
                        seq![emitted] + rest,
                    ));
                    assert(decode_body(bits, body_start, entries@, n as nat) == Ok::<
                        Seq<u8>,
                        CodecError,
                    >(prev + (seq![emitted] + rest)));
                    assert(prev + (seq![emitted] + rest) =~= out@ + rest);
                    assert(decode_body(bits, body_start, entries@, n as nat) == Ok::<
                        Seq<u8>,
                        CodecError,
                    >(out@ + rest));
                },
                Err(e) => {
                    assert(decode_body(bits, pos_sym, entries@, remn) == Err::<Seq<u8>, CodecError>(
                        e,
                    ));
                    assert(decode_body(bits, body_start, entries@, n as nat) == Err::<
                        Seq<u8>,
                        CodecError,
                    >(e));
                },
            }
        }
    }
    proof {
        assert(decode_body(bits, reader.position(), entries@, 0) == Ok::<Seq<u8>, CodecError>(
            Seq::empty(),
        ));
        assert(out@ + Seq::<u8>::empty() =~= out@);
    }
    Ok(out)
}

} // verus!
