use vstd::prelude::*;
use vstd::arithmetic::power2::{pow2, lemma2_to64, lemma2_to64_rest, lemma_pow2_strictly_increases};
use crate::bits::{is_bits, bits_of_value, value_of_bits, bits_of_bytes, zero_bits, is_prefix,
    lemma_bits_of_value_props, lemma_value_of_bits_of_value, lemma_value_of_bits_bound,
    lemma_bits_of_value_of_bits, lemma_bits_of_bytes_props, lemma_bits_of_bytes_slice};
use crate::table::{DecoderTeranslateTable, entry_code};
use crate::codec::{magic_seq, has_sym, sym_index, code_for, valid_table, entry_header_bits,
    table_bits, body_bits, encoding_bits, valid_encoding_with, valid_encoding};
use crate::decode::{check_magic, parse_entries, matches_entry, is_first_match, found_match,
    first_match_index, decode_one, decode_body, decode_spec};
use crate::CodecError;

verus! {

/// A window inside an identified stretch of the stream equals the same window
/// of the stretch.
pub proof fn lemma_subrange_of_subrange(bits: Seq<u8>, pos: int, w: Seq<u8>, a: int, b: int)
    requires
        0 <= pos,
        pos + w.len() <= bits.len(),
        bits.subrange(pos, pos + w.len() as int) == w,
        0 <= a <= b <= w.len(),
    ensures
        bits.subrange(pos + a, pos + b) == w.subrange(a, b),
{
    assert forall|i: int| 0 <= i < b - a implies bits.subrange(pos + a, pos + b)[i] == w.subrange(
        a,
        b,
    )[i] by {
        assert(bits.subrange(pos, pos + w.len() as int)[a + i] == bits[pos + a + i]);
    }
    assert(bits.subrange(pos + a, pos + b) =~= w.subrange(a, b));
}

pub proof fn lemma_table_bits_append(a: Seq<DecoderTeranslateTable>, b: Seq<DecoderTeranslateTable>)
    ensures
        table_bits(a + b) == table_bits(a) + table_bits(b),
    decreases b.len(),
{
    if b.len() == 0 {
        assert(a + b =~= a);
        assert(table_bits(a) + table_bits(b) =~= table_bits(a));
    } else {
        assert((a + b).drop_last() =~= a + b.drop_last());
        lemma_table_bits_append(a, b.drop_last());
        assert(table_bits(a) + table_bits(b.drop_last()) + entry_header_bits(b.last())
            =~= table_bits(a) + table_bits(b));
    }
}

pub proof fn lemma_body_bits_append(f1: Seq<u8>, f2: Seq<u8>, es: Seq<DecoderTeranslateTable>)
    ensures
        body_bits(f1 + f2, es) == body_bits(f1, es) + body_bits(f2, es),
    decreases f2.len(),
{
    if f2.len() == 0 {
        assert(f1 + f2 =~= f1);
        assert(body_bits(f1, es) + body_bits(f2, es) =~= body_bits(f1, es));
    } else {
        assert((f1 + f2).drop_last() =~= f1 + f2.drop_last());
        lemma_body_bits_append(f1, f2.drop_last(), es);
        assert(body_bits(f1, es) + body_bits(f2.drop_last(), es) + code_for(es, f2.last())
            =~= body_bits(f1, es) + body_bits(f2, es));
    }
}

/// Parsing recovers exactly the table whose bits sit at `pos`.
pub proof fn lemma_parse_entries_exact(bits: Seq<u8>, pos: int, es: Seq<DecoderTeranslateTable>)
    requires
        0 <= pos,
        forall|k: int| 0 <= k < es.len() ==> 1 <= (#[trigger] es[k]).word_len <= 63,
        forall|k: int| 0 <= k < es.len() ==> ((#[trigger] es[k]).word as nat) < pow2(
            es[k].word_len as nat,
        ),
        pos + table_bits(es).len() <= bits.len(),
        bits.subrange(pos, pos + table_bits(es).len() as int) == table_bits(es),
    ensures
        parse_entries(bits, pos, es.len()) == Ok::<(Seq<DecoderTeranslateTable>, int), CodecError>(
            (es, pos + table_bits(es).len() as int),
        ),
    decreases es.len(),
{
    if es.len() == 0 {
        assert(es =~= Seq::<DecoderTeranslateTable>::empty());
    } else {
        let e0 = es[0];
        let ll = e0.word_len as nat;
        let tail = es.subrange(1, es.len() as int);
        assert(es =~= seq![e0] + tail);
        lemma_table_bits_append(seq![e0], tail);
        assert(table_bits(seq![e0]) =~= entry_header_bits(e0)) by {
            assert(seq![e0].drop_last() =~= Seq::<DecoderTeranslateTable>::empty());
            assert(table_bits(Seq::<DecoderTeranslateTable>::empty()) == Seq::<u8>::empty());
            assert(seq![e0].last() == e0);
            assert(Seq::<u8>::empty() + entry_header_bits(e0) =~= entry_header_bits(e0));
        }
        lemma_bits_of_value_props(e0.char_value as u64, 8);
        lemma_bits_of_value_props(e0.word_len as u64, 6);
        lemma_bits_of_value_props(e0.word, ll);
        let ehb = entry_header_bits(e0);
        let tb = table_bits(es);
        assert(tb == ehb + table_bits(tail));
        assert(ehb.len() == 14 + ll);
        assert(pow2(8) == 256 && pow2(6) == 64) by {
            lemma2_to64();
        }
        lemma_subrange_of_subrange(bits, pos, tb, 0, 8);
        assert(tb.subrange(0, 8) =~= bits_of_value(e0.char_value as u64, 8));
        lemma_value_of_bits_of_value(e0.char_value as u64, 8);
        let sym = value_of_bits(bits.subrange(pos, pos + 8));
        assert(sym == e0.char_value as nat);
        lemma_subrange_of_subrange(bits, pos, tb, 8, 14);
        assert(tb.subrange(8, 14) =~= bits_of_value(e0.word_len as u64, 6));
        assert(bits.subrange(pos + 8, pos + 14) =~= bits_of_value(e0.word_len as u64, 6));
        lemma_value_of_bits_of_value(e0.word_len as u64, 6);
        let len = value_of_bits(bits.subrange(pos + 8, pos + 14));
        assert(len == e0.word_len as nat);
        lemma_subrange_of_subrange(bits, pos, tb, 14, 14 + ll as int);
        assert(tb.subrange(14, 14 + ll as int) =~= bits_of_value(e0.word, ll));
        assert(bits.subrange(pos + 14, pos + 14 + ll) =~= bits_of_value(e0.word, ll));
        lemma_value_of_bits_of_value(e0.word, ll);
        let word = value_of_bits(bits.subrange(pos + 14, pos + 14 + len));
        assert(word == e0.word as nat);
        let e = DecoderTeranslateTable {
            word: word as u64,
            word_len: len as u8,
            char_value: sym as u8,
        };
        assert(e == e0);
        let pos2 = pos + 14 + ll;
        lemma_subrange_of_subrange(bits, pos, tb, 14 + ll as int, tb.len() as int);
        assert(tb.subrange(14 + ll as int, tb.len() as int) =~= table_bits(tail));
        assert(bits.subrange(pos2, pos2 + table_bits(tail).len() as int) =~= table_bits(tail));
        lemma_parse_entries_exact(bits, pos2, tail);
        match parse_entries(bits, pos2, tail.len()) {
            Ok(rest) => {
                assert(rest.0 == tail);
                assert(seq![e] + tail =~= es);
                assert(parse_entries(bits, pos, es.len()) == Ok::<
                    (Seq<DecoderTeranslateTable>, int),
                    CodecError,
                >((es, pos + tb.len() as int)));
            },
            Err(_) => {
                assert(false);
            },
        }
    }
}

/// Greedy matching, begun `c` bits into the code at entry `k`, consumes
/// exactly that code and emits that entry's symbol: no other entry can match
/// earlier because the table is prefix-free.
pub proof fn lemma_decode_one_mid(
    bits: Seq<u8>,
    pos0: int,
    es: Seq<DecoderTeranslateTable>,
    k: int,
    c: nat,
)
    requires
        valid_table(es),
        0 <= k < es.len(),
        c < es[k].word_len as nat,
        0 <= pos0,
        pos0 + es[k].word_len <= bits.len(),
        bits.subrange(pos0, pos0 + es[k].word_len) == entry_code(es[k]),
    ensures
        value_of_bits(entry_code(es[k]).take(c as int)) < pow2(c),
        decode_one(
            bits,
            pos0 + c,
            es,
            value_of_bits(entry_code(es[k]).take(c as int)) as u64,
            c as u8,
        ) == Ok::<(u8, int), CodecError>((es[k].char_value, pos0 + es[k].word_len)),
    decreases es[k].word_len as nat - c,
{
    let ll = es[k].word_len as nat;
    let code = entry_code(es[k]);
    lemma_bits_of_value_props(es[k].word, ll);
    assert(code.len() == ll && is_bits(code));
    assert(is_bits(code.take(c as int)));
    lemma_value_of_bits_bound(code.take(c as int));
    let acc = value_of_bits(code.take(c as int)) as u64;
    assert(pow2(c) <= pow2(62)) by {
        if c < 62 {
            lemma_pow2_strictly_increases(c, 62);
        }
    }
    assert(pow2(62) < pow2(63) && pow2(63) == 0x8000_0000_0000_0000) by {
        lemma_pow2_strictly_increases(62, 63);
        lemma2_to64_rest();
    }
    let pos = pos0 + c;
    assert(bits[pos] == code[c as int]);
    let c2 = c + 1;
    assert(code.take(c2 as int).drop_last() =~= code.take(c as int));
    assert(code.take(c2 as int).last() == code[c as int]);
    let acc2n = value_of_bits(code.take(c2 as int));
    assert(acc2n == 2 * acc + code[c as int]);
    lemma_value_of_bits_bound(code.take(c2 as int));
    assert(pow2(c2) <= pow2(63)) by {
        if c2 < 63 {
            lemma_pow2_strictly_increases(c2, 63);
        }
    }
    let acc2 = (2 * acc + bits[pos]) as u64;
    assert(acc2 == acc2n);
    if c2 == ll {
        assert(code.take(c2 as int) =~= code);
        lemma_value_of_bits_of_value(es[k].word, ll);
        assert(acc2 == es[k].word);
        assert(matches_entry(es[k], acc2, c2 as u8));
        assert forall|j: int| 0 <= j < es.len() && j != k implies !matches_entry(
            #[trigger] es[j],
            acc2,
            c2 as u8,
        ) by {
            if matches_entry(es[j], acc2, c2 as u8) {
                assert(entry_code(es[j]) == entry_code(es[k]));
                assert(is_prefix(entry_code(es[j]), entry_code(es[k])));
            }
        }
        assert(is_first_match(es, acc2, c2 as u8, k));
        assert(found_match(es, acc2, c2 as u8));
        let fi = first_match_index(es, acc2, c2 as u8);
        assert(is_first_match(es, acc2, c2 as u8, fi));
        assert(fi == k);
        assert(decode_one(bits, pos, es, acc, c as u8) == Ok::<(u8, int), CodecError>(
            (es[k].char_value, pos0 + ll),
        ));
    } else {
        assert forall|j: int| 0 <= j < es.len() implies !matches_entry(
            #[trigger] es[j],
            acc2,
            c2 as u8,
        ) by {
            if matches_entry(es[j], acc2, c2 as u8) {
                lemma_bits_of_value_of_bits(code.take(c2 as int));
                assert(entry_code(es[j]) == bits_of_value(acc2, c2));
                assert(entry_code(es[j]) == code.take(c2 as int));
                assert(j != k);
                assert(code.take(c2 as int).len() <= code.len());
                assert(code.take(code.take(c2 as int).len() as int) =~= code.take(c2 as int));
                assert(is_prefix(entry_code(es[j]), entry_code(es[k])));
            }
        }
        if found_match(es, acc2, c2 as u8) {
            let fm = first_match_index(es, acc2, c2 as u8);
            assert(is_first_match(es, acc2, c2 as u8, fm));
            assert(!matches_entry(es[fm], acc2, c2 as u8));
        }
        lemma_decode_one_mid(bits, pos0, es, k, c2);
        assert(decode_one(bits, pos, es, acc, c as u8) == decode_one(
            bits,
            pos + 1,
            es,
            acc2,
            c2 as u8,
        ));
    }
}

/// Greedy decoding of a body recovers exactly the bytes it encodes.
pub proof fn lemma_decode_body_exact(
    bits: Seq<u8>,
    pos: int,
    es: Seq<DecoderTeranslateTable>,
    f: Seq<u8>,
)
    requires
        valid_table(es),
        forall|i: int| 0 <= i < f.len() ==> has_sym(es, #[trigger] f[i]),
        0 <= pos,
        pos + body_bits(f, es).len() <= bits.len(),
        bits.subrange(pos, pos + body_bits(f, es).len() as int) == body_bits(f, es),
    ensures
        decode_body(bits, pos, es, f.len()) == Ok::<Seq<u8>, CodecError>(f),
    decreases f.len(),
{
    if f.len() == 0 {
        assert(f =~= Seq::<u8>::empty());
    } else {
        let b0 = f[0];
        let tail = f.subrange(1, f.len() as int);
        assert(f =~= seq![b0] + tail);
        lemma_body_bits_append(seq![b0], tail, es);
        assert(body_bits(seq![b0], es) =~= code_for(es, b0)) by {
            assert(seq![b0].drop_last() =~= Seq::<u8>::empty());
            assert(body_bits(Seq::<u8>::empty(), es) == Seq::<u8>::empty());
            assert(seq![b0].last() == b0);
            assert(Seq::<u8>::empty() + code_for(es, b0) =~= code_for(es, b0));
        }
        assert(has_sym(es, b0));
        let k = sym_index(es, b0);
        assert(0 <= k < es.len() && es[k].char_value == b0);
        let ll = es[k].word_len as int;
        lemma_bits_of_value_props(es[k].word, es[k].word_len as nat);
        assert(code_for(es, b0) == entry_code(es[k]));
        assert(body_bits(f, es) == entry_code(es[k]) + body_bits(tail, es));
        let bb = body_bits(f, es);
        lemma_subrange_of_subrange(bits, pos, bb, 0, ll);
        assert(bb.subrange(0, ll) =~= entry_code(es[k]));
        assert(bits.subrange(pos, pos + ll) =~= entry_code(es[k]));
        lemma_decode_one_mid(bits, pos, es, k, 0);
        assert(entry_code(es[k]).take(0) =~= Seq::<u8>::empty());
        assert(decode_one(bits, pos, es, 0, 0) == Ok::<(u8, int), CodecError>((b0, pos + ll)));
        lemma_subrange_of_subrange(bits, pos, bb, ll, bb.len() as int);
        assert(bb.subrange(ll, bb.len() as int) =~= body_bits(tail, es));
        assert(bits.subrange(pos + ll, pos + ll + body_bits(tail, es).len() as int) =~= body_bits(
            tail,
            es,
        ));
        assert forall|i: int| 0 <= i < tail.len() implies has_sym(es, #[trigger] tail[i]) by {
            assert(tail[i] == f[i + 1]);
        }
        lemma_decode_body_exact(bits, pos + ll, es, tail);
        assert(seq![b0] + tail =~= f);
    }
}

pub proof fn lemma_check_magic_ok(bits: Seq<u8>, k: nat)
    requires
        k <= 7,
        bits.len() >= 56,
        forall|j: int| 0 <= j < 7 ==> bits.subrange(8 * j, 8 * j + 8) == bits_of_value(
            magic_seq()[j] as u64,
            8,
        ),
    ensures
        check_magic(bits, k) == None::<CodecError>,
    decreases 7 - k,
{
    if k < 7 {
        assert(pow2(8) == 256) by {
            lemma2_to64();
        }
        lemma_value_of_bits_of_value(magic_seq()[k as int] as u64, 8);
        assert(value_of_bits(bits.subrange(8 * (k as int), 8 * (k as int) + 8)) == magic_seq()[
            k as int] as nat);
        lemma_check_magic_ok(bits, k + 1);
    }
}

/// Round trip: decoding any encoding of `f` through a valid covering table
/// yields exactly `f` — the padding bits carry no meaning.
pub proof fn lemma_round_trip_with(out: Seq<u8>, f: Seq<u8>, es: Seq<DecoderTeranslateTable>)
    requires
        valid_encoding_with(out, f, es),
    ensures
        decode_spec(bits_of_bytes(out)) == Ok::<Seq<u8>, CodecError>(f),
{
    let bits = bits_of_bytes(out);
    let enc = encoding_bits(f, es);
    let pad = ((8 - enc.len() % 8) % 8) as nat;
    assert(bits == enc + zero_bits(pad));
    let a = bits_of_bytes(magic_seq());
    let b = bits_of_value((es.len() - 1) as u64, 8);
    let c = table_bits(es);
    let d = bits_of_value(f.len() as u64, 32);
    let e = body_bits(f, es);
    assert(enc == a + b + c + d + e);
    lemma_bits_of_bytes_props(magic_seq());
    lemma_bits_of_value_props((es.len() - 1) as u64, 8);
    lemma_bits_of_value_props(f.len() as u64, 32);
    assert(a.len() == 56 && b.len() == 8 && d.len() == 32);
    assert(bits.subrange(0, enc.len() as int) =~= enc);
    // The magic literal is in place.
    assert forall|j: int| 0 <= j < 7 implies bits.subrange(8 * j, 8 * j + 8) == bits_of_value(
        magic_seq()[j] as u64,
        8,
    ) by {
        lemma_bits_of_bytes_slice(magic_seq(), j);
        lemma_subrange_of_subrange(bits, 0, enc, 8 * j, 8 * j + 8);
        assert(enc.subrange(8 * j, 8 * j + 8) =~= a.subrange(8 * j, 8 * j + 8));
    }
    lemma_check_magic_ok(bits, 0);
    // The symbol count.
    assert(bits.len() >= 64);
    lemma_subrange_of_subrange(bits, 0, enc, 56, 64);
    assert(enc.subrange(56, 64) =~= b);
    assert(bits.subrange(56, 64) =~= b);
    assert(pow2(8) == 256) by {
        lemma2_to64();
    }
    lemma_value_of_bits_of_value((es.len() - 1) as u64, 8);
    assert(value_of_bits(bits.subrange(56, 64)) + 1 == es.len());
    // The table.
    lemma_subrange_of_subrange(bits, 0, enc, 64, 64 + c.len() as int);
    assert(enc.subrange(64, 64 + c.len() as int) =~= c);
    assert(bits.subrange(64, 64 + c.len() as int) =~= c);
    lemma_parse_entries_exact(bits, 64, es);
    let p = 64 + c.len() as int;
    assert(parse_entries(bits, 64, es.len()) == Ok::<(Seq<DecoderTeranslateTable>, int), CodecError>(
        (es, p),
    ));
    // The declared size.
    assert(p + 32 <= bits.len());
    lemma_subrange_of_subrange(bits, 0, enc, p, p + 32);
    let head3 = a + b + c;
    assert(head3.len() == p);
    assert(enc =~= head3 + d + e);
    assert forall|i: int| 0 <= i < 32 implies enc.subrange(p, p + 32)[i] == d[i] by {
        assert(enc[p + i] == (head3 + d)[p + i]);
        assert((head3 + d)[p + i] == d[i]);
    }
    assert(enc.subrange(p, p + 32) =~= d);
    assert(bits.subrange(p, p + 32) =~= d);
    assert(pow2(32) == 0x1_0000_0000) by {
        lemma2_to64();
    }
    lemma_value_of_bits_of_value(f.len() as u64, 32);
    assert(value_of_bits(bits.subrange(p, p + 32)) == f.len());
    // The body.
    lemma_subrange_of_subrange(bits, 0, enc, p + 32, p + 32 + e.len() as int);
    assert forall|i: int| 0 <= i < e.len() implies enc.subrange(
        p + 32,
        p + 32 + e.len() as int,
    )[i] == e[i] by {
        assert(enc[p + 32 + i] == e[i]);
    }
    assert(enc.subrange(p + 32, p + 32 + e.len() as int) =~= e);
    assert(bits.subrange(p + 32, p + 32 + e.len() as int) =~= e);
    assert forall|i: int| 0 <= i < f.len() implies has_sym(es, #[trigger] f[i]) by {
        assert(f.contains(f[i]));
    }
    lemma_decode_body_exact(bits, p + 32, es, f);
}

/// Byte streams with the same bits are the same bytes.
pub proof fn lemma_bytes_of_bits_injective(x: Seq<u8>, y: Seq<u8>)
    requires
        x.len() == y.len(),
        bits_of_bytes(x) == bits_of_bytes(y),
    ensures
        x == y,
{
    assert forall|i: int| 0 <= i < x.len() implies x[i] == y[i] by {
        lemma_bits_of_bytes_slice(x, i);
        lemma_bits_of_bytes_slice(y, i);
        assert(bits_of_value(x[i] as u64, 8) == bits_of_value(y[i] as u64, 8));
        assert(pow2(8) == 256) by {
            lemma2_to64();
        }
        lemma_value_of_bits_of_value(x[i] as u64, 8);
        lemma_value_of_bits_of_value(y[i] as u64, 8);
    }
    assert(x =~= y);
}

/// Determinism of the wire format: one file and one code table admit exactly
/// one encoded byte stream, padding included.
pub proof fn lemma_encoding_deterministic(
    out1: Seq<u8>,
    out2: Seq<u8>,
    f: Seq<u8>,
    es: Seq<DecoderTeranslateTable>,
)
    requires
        valid_encoding_with(out1, f, es),
        valid_encoding_with(out2, f, es),
    ensures
        out1 == out2,
{
    assert(out1.len() == out2.len());
    lemma_bytes_of_bits_injective(out1, out2);
}

/// No byte stream is a valid encoding of two different files.
pub proof fn lemma_encoding_unambiguous(out: Seq<u8>, f1: Seq<u8>, f2: Seq<u8>)
    requires
        valid_encoding(out, f1),
        valid_encoding(out, f2),
    ensures
        f1 == f2,
{
    lemma_round_trip(out, f1);
    lemma_round_trip(out, f2);
}

/// Round trip for the public contracts: whatever table the encoder chose,
/// decoding its output gives back the original bytes exactly.
pub proof fn lemma_round_trip(out: Seq<u8>, f: Seq<u8>)
    requires
        valid_encoding(out, f),
    ensures
        decode_spec(bits_of_bytes(out)) == Ok::<Seq<u8>, CodecError>(f),
{
    let es = choose|es: Seq<DecoderTeranslateTable>| valid_encoding_with(out, f, es);
    lemma_round_trip_with(out, f, es);
}

} // verus!
