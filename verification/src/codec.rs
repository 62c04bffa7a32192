use vstd::prelude::*;
use vstd::arithmetic::power2::{pow2, lemma2_to64};
use vstd::set_lib::{set_int_range, lemma_int_range, lemma_len_subset};
use crate::bits::{bits_of_value, bits_of_bytes, zero_bits, is_prefix,
    lemma_bits_of_value_props, lemma_bits_of_bytes_props};
use crate::stream::Writer;
use crate::tree::{Node, wf_node, leaf_syms, sum_i64, get_huff_tree};
use crate::table::{EncoderTeranslateTable, DecoderTeranslateTable, entry_code, tree_pairs,
    entries_match_pairs, lemma_tree_pairs_prefix_free, navigate_tree, fits_depth,
    lemma_fits_depth_from_leaves};
use crate::CodecError;

verus! {

broadcast use vstd::seq_lib::seq_to_set_is_finite;

/// The seven-byte magic literal that opens every encoded file.
pub open spec fn magic_seq() -> Seq<u8> {
    seq![72u8, 85u8, 70u8, 70u8, 77u8, 65u8, 78u8]
}

/// How often byte `b` occurs in `s`.
pub open spec fn count_occ(s: Seq<u8>, b: u8) -> nat
    decreases s.len(),
{
    if s.len() == 0 {
        0
    } else {
        count_occ(s.drop_last(), b) + (if s.last() == b {
            1nat
        } else {
            0nat
        })
    }
}

/// The table has an entry for symbol `b`.
pub open spec fn has_sym(es: Seq<DecoderTeranslateTable>, b: u8) -> bool {
    exists|k: int| 0 <= k < es.len() && (#[trigger] es[k]).char_value == b
}

/// The index of the entry for symbol `b` (unique in a valid table).
pub open spec fn sym_index(es: Seq<DecoderTeranslateTable>, b: u8) -> int {
    choose|k: int| 0 <= k < es.len() && (#[trigger] es[k]).char_value == b
}

/// The code bits the table assigns to symbol `b`.
pub open spec fn code_for(es: Seq<DecoderTeranslateTable>, b: u8) -> Seq<u8> {
    entry_code(es[sym_index(es, b)])
}

/// A code table as the encoder must emit it and the decoder may trust it:
/// between 1 and 256 entries, one per symbol, code lengths in the 6-bit
/// field's range, and pairwise prefix-free codes.
pub open spec fn valid_table(es: Seq<DecoderTeranslateTable>) -> bool {
    &&& 1 <= es.len() <= 256
    &&& forall|k: int| 0 <= k < es.len() ==> 1 <= (#[trigger] es[k]).word_len <= 63
    &&& forall|k: int| 0 <= k < es.len() ==> ((#[trigger] es[k]).word as nat) < pow2(
        es[k].word_len as nat,
    )
    &&& forall|k1: int, k2: int|
        0 <= k1 < es.len() && 0 <= k2 < es.len() && k1 != k2 ==> (#[trigger] es[k1]).char_value
            != (#[trigger] es[k2]).char_value
    &&& forall|k1: int, k2: int|
        0 <= k1 < es.len() && 0 <= k2 < es.len() && k1 != k2 ==> !is_prefix(
            entry_code(#[trigger] es[k1]),
            entry_code(#[trigger] es[k2]),
        )
}

/// The bits of one transmitted table entry: symbol, 6-bit length, code.
pub open spec fn entry_header_bits(e: DecoderTeranslateTable) -> Seq<u8> {
    bits_of_value(e.char_value as u64, 8) + bits_of_value(e.word_len as u64, 6) + bits_of_value(
        e.word,
        e.word_len as nat,
    )
}

/// The bits of the whole transmitted table, in entry order.
pub open spec fn table_bits(es: Seq<DecoderTeranslateTable>) -> Seq<u8>
    decreases es.len(),
{
    if es.len() == 0 {
        Seq::empty()
    } else {
        table_bits(es.drop_last()) + entry_header_bits(es.last())
    }
}

/// The body: each input byte's code, in input order, with no separators.
pub open spec fn body_bits(f: Seq<u8>, es: Seq<DecoderTeranslateTable>) -> Seq<u8>
    decreases f.len(),
{
    if f.len() == 0 {
        Seq::empty()
    } else {
        body_bits(f.drop_last(), es) + code_for(es, f.last())
    }
}

/// Every bit of an encoded file before padding: magic, symbol count less one,
/// table, 32-bit original size, body.
pub open spec fn encoding_bits(f: Seq<u8>, es: Seq<DecoderTeranslateTable>) -> Seq<u8> {
    bits_of_bytes(magic_seq()) + bits_of_value((es.len() - 1) as u64, 8) + table_bits(es)
        + bits_of_value(f.len() as u64, 32) + body_bits(f, es)
}

/// `out` is an encoding of `f` through the table `es`: the table is valid and
/// covers exactly the bytes of `f`, the declared size is `f`'s length, and the
/// bits of `out` are the encoding bits padded with zeros to a byte boundary.
pub open spec fn valid_encoding_with(
    out: Seq<u8>,
    f: Seq<u8>,
    es: Seq<DecoderTeranslateTable>,
) -> bool {
    &&& valid_table(es)
    &&& 1 <= f.len() <= 0xffff_ffff
    &&& forall|b: u8| has_sym(es, b) <==> f.contains(b)
    &&& out.len() * 8 == encoding_bits(f, es).len() + (
    (8 - encoding_bits(f, es).len() % 8) % 8)
    &&& bits_of_bytes(out) == encoding_bits(f, es) + zero_bits(
        ((8 - encoding_bits(f, es).len() % 8) % 8) as nat,
    )
}

/// `out` is an encoding of `f` through some table.
pub open spec fn valid_encoding(out: Seq<u8>, f: Seq<u8>) -> bool {
    exists|es: Seq<DecoderTeranslateTable>| valid_encoding_with(out, f, es)
}

/// A representable input all of whose bytes are one value.
pub open spec fn uniform_input(f: Seq<u8>) -> bool {
    &&& 1 <= f.len() <= 0xffff_ffff
    &&& forall|i: int, j: int| 0 <= i < f.len() && 0 <= j < f.len() ==> f[i] == f[j]
}

/// The table such an input gets: one entry whose code is the one bit 0.
pub open spec fn single_symbol_table(b: u8) -> Seq<DecoderTeranslateTable> {
    seq![DecoderTeranslateTable { word: 0, word_len: 1, char_value: b }]
}

/// The input draws its bytes from at most 64 values.
pub open spec fn few_distinct(f: Seq<u8>) -> bool {
    exists|s: Seq<u8>|
        s.len() <= 64 && (forall|i: int| 0 <= i < f.len() ==> s.contains(#[trigger] f[i]))
}

/// A tree built from the histogram of an input with at most 64 distinct byte
/// values has at most 64 leaves, so every code fits the 6-bit length field.
pub proof fn lemma_small_alphabet_fits(tree: Node, f: Seq<u8>, kv: Seq<i64>)
    requires
        wf_node(tree),
        leaf_syms(tree).no_duplicates(),
        forall|v: int| leaf_syms(tree).contains(v) ==> 0 <= v < 256,
        forall|v: int| 0 <= v < 256 ==> (leaf_syms(tree).contains(v) <==> kv[v] != 0),
        kv.len() == 256,
        forall|b: int| 0 <= b < 256 ==> kv[b] == count_occ(f, b as u8) as int,
        few_distinct(f),
    ensures
        fits_depth(tree, 0),
{
    let s = choose|s: Seq<u8>|
        s.len() <= 64 && (forall|i: int| 0 <= i < f.len() ==> s.contains(#[trigger] f[i]));
    let t = s.map_values(|b: u8| b as int);
    assert(t.len() == s.len());
    let syms = leaf_syms(tree);
    assert forall|v: int| syms.contains(v) implies t.to_set().contains(v) by {
        assert(0 <= v < 256);
        assert(kv[v] != 0);
        assert(kv[v] == count_occ(f, v as u8) as int);
        lemma_count_occ_pos(f, v as u8);
        assert(f.contains(v as u8));
        let i = choose|i: int| 0 <= i < f.len() && f[i] == v as u8;
        assert(s.contains(v as u8));
        let j = choose|j: int| 0 <= j < s.len() && s[j] == v as u8;
        assert(t[j] == v);
        assert(t.contains(v));
    }
    syms.unique_seq_to_set();
    t.lemma_cardinality_of_set();
    assert(syms.to_set().subset_of(t.to_set())) by {
        assert forall|v: int| syms.to_set().contains(v) implies t.to_set().contains(v) by {
            assert(syms.contains(v));
        }
    }
    lemma_len_subset(syms.to_set(), t.to_set());
    assert(syms.len() <= 64);
    lemma_fits_depth_from_leaves(tree, 0);
}

pub proof fn lemma_sum_i64_update(s: Seq<i64>, i: int, v: i64)
    requires
        0 <= i < s.len(),
    ensures
        sum_i64(s.update(i, v)) == sum_i64(s) - s[i] + v,
    decreases s.len(),
{
    if i == s.len() - 1 {
        assert(s.update(i, v).drop_last() =~= s.drop_last());
        assert(s.update(i, v).last() == v);
    } else {
        assert(s.update(i, v).drop_last() =~= s.drop_last().update(i, v));
        lemma_sum_i64_update(s.drop_last(), i, v);
        assert(s.update(i, v).last() == s.last());
    }
}

pub proof fn lemma_sum_i64_zero(s: Seq<i64>)
    requires
        forall|i: int| 0 <= i < s.len() ==> s[i] == 0,
    ensures
        sum_i64(s) == 0,
    decreases s.len(),
{
    if s.len() > 0 {
        lemma_sum_i64_zero(s.drop_last());
    }
}

pub proof fn lemma_count_occ_le(s: Seq<u8>, b: u8)
    ensures
        count_occ(s, b) <= s.len(),
    decreases s.len(),
{
    if s.len() > 0 {
        lemma_count_occ_le(s.drop_last(), b);
    }
}

/// A byte occurs in a sequence exactly when its count is positive.
pub proof fn lemma_count_occ_pos(s: Seq<u8>, b: u8)
    ensures
        count_occ(s, b) > 0 <==> s.contains(b),
    decreases s.len(),
{
    if s.len() > 0 {
        lemma_count_occ_pos(s.drop_last(), b);
        if s.last() == b {
            assert(s.contains(b));
        } else {
            if s.drop_last().contains(b) {
                let k = choose|k: int| 0 <= k < s.len() - 1 && s.drop_last()[k] == b;
                assert(s[k] == b);
            }
            if s.contains(b) {
                let k = choose|k: int| 0 <= k < s.len() && s[k] == b;
                assert(k < s.len() - 1);
                assert(s.drop_last()[k] == b);
            }
        }
    }
}

/// No more than `hi - lo` distinct integers fit in the range `[lo, hi)`.
pub proof fn lemma_distinct_bounded(s: Seq<int>, lo: int, hi: int)
    requires
        lo <= hi,
        s.no_duplicates(),
        forall|v: int| s.contains(v) ==> lo <= v < hi,
    ensures
        s.len() <= hi - lo,
{
    s.unique_seq_to_set();
    lemma_int_range(lo, hi);
    assert(s.to_set().subset_of(set_int_range(lo, hi))) by {
        assert(forall|v: int| s.to_set().contains(v) ==> s.contains(v));
    }
    lemma_len_subset(s.to_set(), set_int_range(lo, hi));
}

/// Scan the table for the entry of one symbol.
fn lookup_code(es: &Vec<DecoderTeranslateTable>, b: u8) -> (r: Option<EncoderTeranslateTable>)
    requires
        forall|k1: int, k2: int|
            0 <= k1 < es@.len() && 0 <= k2 < es@.len() && k1 != k2 ==> (
            #[trigger] es@[k1]).char_value != (#[trigger] es@[k2]).char_value,
    ensures
        match r {
            Some(e) => has_sym(es@, b) && e.word == es@[sym_index(es@, b)].word && e.word_len
                == es@[sym_index(es@, b)].word_len,
            None => !has_sym(es@, b),
        },
{
    let mut k: usize = 0;
    while k < es.len()
        invariant
            k <= es@.len(),
            forall|j: int| 0 <= j < k ==> (#[trigger] es@[j]).char_value != b,
            forall|k1: int, k2: int|
                0 <= k1 < es@.len() && 0 <= k2 < es@.len() && k1 != k2 ==> (
                #[trigger] es@[k1]).char_value != (#[trigger] es@[k2]).char_value,
        decreases es@.len() - k,
    {
        if es[k].char_value == b {
            proof {
                assert(has_sym(es@, b));
                let j = sym_index(es@, b);
                assert(0 <= j < es@.len() && es@[j].char_value == b);
                assert(j == k as int);
            }
            return Some(EncoderTeranslateTable::new(es[k].word_len, es[k].word));
        }
        k = k + 1;
    }
    proof {
        if has_sym(es@, b) {
            let j = choose|j: int| 0 <= j < es@.len() && (#[trigger] es@[j]).char_value == b;
            assert(es@[j].char_value != b);
        }
    }
    None
}

/// The seven magic bytes as a vector.
pub fn magic_bytes() -> (r: Vec<u8>)
    ensures
        r@ == magic_seq(),
{
    let mut v: Vec<u8> = Vec::new();
    v.push(72);
    v.push(85);
    v.push(70);
    v.push(70);
    v.push(77);
    v.push(65);
    v.push(78);
    proof {
        assert(v@ =~= magic_seq());
    }
    v
}

/// Encode a whole input: histogram, tree, code table, header, body, padding.
/// The empty input, an input beyond the 32-bit size field, and an input whose
/// tree needs a code longer than 63 bits are unrepresentable.
#[verifier::rlimit(100)]
pub fn huff_encode(f: &Vec<u8>) -> (r: Result<Vec<u8>, CodecError>)
    ensures
        f@.len() == 0 ==> r == Err::<Vec<u8>, CodecError>(CodecError::UnrepresentableInput),
        f@.len() > 0xffff_ffff ==> r == Err::<Vec<u8>, CodecError>(
            CodecError::UnrepresentableInput,
        ),
        r matches Err(e) ==> e == CodecError::UnrepresentableInput,
        r matches Ok(out) ==> valid_encoding(out@, f@),
        uniform_input(f@) ==> r is Ok,
        (1 <= f@.len() <= 0xffff_ffff && few_distinct(f@)) ==> r is Ok,
        r matches Ok(out) ==> (uniform_input(f@) ==> valid_encoding_with(
            out@,
            f@,
            single_symbol_table(f@[0]),
        )),
{
    if f.len() == 0 {
        return Err(CodecError::UnrepresentableInput);
    }
    if f.len() as u64 > 0xffff_ffff {
        return Err(CodecError::UnrepresentableInput);
    }
    // Frequency analysis over the whole input.
    let mut key_value: [i64; 256] = [0; 256];
    let mut i: usize = 0;
    proof {
        lemma_sum_i64_zero(key_value@);
        assert(f@.take(0) =~= Seq::<u8>::empty());
    }
    while i < f.len()
        invariant
            i <= f@.len(),
            f@.len() <= 0xffff_ffff,
            key_value@.len() == 256,
            forall|b: int| 0 <= b < 256 ==> key_value@[b] == count_occ(
                f@.take(i as int),
                b as u8,
            ) as int,
            sum_i64(key_value@) == i as int,
        decreases f@.len() - i,
    {
        let ghost pre = key_value@;
        let b = f[i];
        proof {
            lemma_count_occ_le(f@.take(i as int), b);
            lemma_sum_i64_update(pre, b as int, (pre[b as int] + 1) as i64);
        }
        key_value[b as usize] = key_value[b as usize] + 1;
        proof {
            assert(f@.take(i + 1).drop_last() =~= f@.take(i as int));
            assert(f@.take(i + 1).last() == b);
            assert forall|v: int| 0 <= v < 256 implies key_value@[v] == count_occ(
                f@.take(i + 1),
                v as u8,
            ) as int by {
                assert(count_occ(f@.take(i + 1), v as u8) == count_occ(f@.take(i as int), v as u8)
                    + (if b == v as u8 {
                    1nat
                } else {
                    0nat
                }));
            }
        }
        i = i + 1;
    }
    proof {
        assert(f@.take(f@.len() as int) =~= f@);
        assert(f@.contains(f@[0]));
        lemma_count_occ_pos(f@, f@[0]);
        assert(key_value@[f@[0] as int] != 0);
        assert(forall|b: int| 0 <= b < 256 ==> key_value@[b] >= 0);
    }
    // Tree and code table.
    let tree = get_huff_tree(key_value);
    proof {
        // An input with a single distinct byte always gets the lone-leaf tree.
        if uniform_input(f@) && tree.children@.len() == 2 {
            assert forall|v: int| leaf_syms(tree).contains(v) implies v == f@[0] as int by {
                lemma_count_occ_pos(f@, v as u8);
                assert(f@.contains(v as u8));
                let i = choose|i: int| 0 <= i < f@.len() && f@[i] == v as u8;
                assert(f@[i] == f@[0]);
            }
            lemma_tree_pairs_prefix_free(tree.children@[0], seq![0u8]);
            lemma_tree_pairs_prefix_free(tree.children@[1], seq![1u8]);
            assert(leaf_syms(tree).len() >= 2);
            assert(leaf_syms(tree).contains(leaf_syms(tree)[0]));
            assert(leaf_syms(tree).contains(leaf_syms(tree)[1]));
            assert(leaf_syms(tree)[0] == leaf_syms(tree)[1]);
            assert(false);
        }
    }
    proof {
        lemma2_to64();
        assert(bits_of_value(0u64, 0) =~= Seq::<u8>::empty());
    }
    let entries: Vec<DecoderTeranslateTable> = match navigate_tree(&tree, 0, 0) {
        Ok(es) => es,
        Err(_) => {
            proof {
                if uniform_input(f@) {
                    assert(tree.children@.len() == 0);
                    assert(fits_depth(tree, 0));
                    assert(false);
                }
                if few_distinct(f@) {
                    lemma_small_alphabet_fits(tree, f@, key_value@);
                    assert(false);
                }
            }
            return Err(CodecError::UnrepresentableInput);
        },
    };
    // The table is valid: one entry per distinct input byte, prefix-free codes.
    proof {
        lemma2_to64();
        if tree.children@.len() == 0 {
            assert(entries@ == single_symbol_table(tree.char_value as u8));
            assert(leaf_syms(tree) == seq![tree.char_value as int]);
            assert(leaf_syms(tree)[0] == tree.char_value as int);
            assert(leaf_syms(tree).contains(tree.char_value as int));
            assert(valid_table(entries@)) by {
                assert(entries@.len() == 1);
                assert(entries@[0].word_len == 1 && entries@[0].word == 0);
            }
            assert forall|b: u8| has_sym(entries@, b) <==> f@.contains(b) by {
                lemma_count_occ_pos(f@, b);
                if has_sym(entries@, b) {
                    let k = choose|k: int|
                        0 <= k < entries@.len() && (#[trigger] entries@[k]).char_value == b;
                    assert(k == 0);
                    assert(leaf_syms(tree).contains(b as int));
                }
                if f@.contains(b) {
                    assert(key_value@[b as int] != 0);
                    assert(leaf_syms(tree).contains(b as int));
                    assert(tree.char_value as int == b as int);
                    assert(entries@[0].char_value == b);
                    assert(has_sym(entries@, b));
                }
            }
            if uniform_input(f@) {
                assert(f@.contains(f@[0]));
                assert(has_sym(entries@, f@[0]));
                assert(entries@[0].char_value == f@[0]);
                assert(entries@ =~= single_symbol_table(f@[0]));
            }
        } else {
            let ps = tree_pairs(tree, bits_of_value(0u64, 0));
            lemma_tree_pairs_prefix_free(tree, bits_of_value(0u64, 0));
            assert(bits_of_value(0u64, 0).len() == 0);
            assert(entries_match_pairs(entries@, ps));
            lemma_distinct_bounded(leaf_syms(tree), 0, 256);
            assert(entries@.len() == leaf_syms(tree).len());
            assert(1 <= entries@.len() <= 256);
            assert forall|k: int| 0 <= k < entries@.len() implies 1 <= (
            #[trigger] entries@[k]).word_len <= 63 by {
                assert(ps[k].1.len() > 0);
            }
            assert forall|k1: int, k2: int|
                0 <= k1 < entries@.len() && 0 <= k2 < entries@.len() && k1
                    != k2 implies (#[trigger] entries@[k1]).char_value != (
            #[trigger] entries@[k2]).char_value by {
                assert(entries@[k1].char_value as int == leaf_syms(tree)[k1]);
                assert(entries@[k2].char_value as int == leaf_syms(tree)[k2]);
            }
            assert forall|k1: int, k2: int|
                0 <= k1 < entries@.len() && 0 <= k2 < entries@.len() && k1 != k2 implies !is_prefix(
                entry_code(#[trigger] entries@[k1]),
                entry_code(#[trigger] entries@[k2]),
            ) by {
                assert(entry_code(entries@[k1]) == ps[k1].1);
                assert(entry_code(entries@[k2]) == ps[k2].1);
            }
            assert(valid_table(entries@));
            assert forall|b: u8| has_sym(entries@, b) <==> f@.contains(b) by {
                lemma_count_occ_pos(f@, b);
                if has_sym(entries@, b) {
                    let k = choose|k: int|
                        0 <= k < entries@.len() && (#[trigger] entries@[k]).char_value == b;
                    assert(leaf_syms(tree)[k] == b as int);
                    assert(leaf_syms(tree).contains(b as int));
                }
                if f@.contains(b) {
                    assert(key_value@[b as int] != 0);
                    assert(leaf_syms(tree).contains(b as int));
                    let k = choose|k: int|
                        0 <= k < leaf_syms(tree).len() && leaf_syms(tree)[k] == b as int;
                    assert(entries@[k].char_value as int == b as int);
                    assert(has_sym(entries@, b));
                }
            }
        }
    }
    // Serialise: magic, symbol count less one, table, size, body, padding.
    let mut writer = Writer::new();
    let magic = magic_bytes();
    let mut k: usize = 0;
    proof {
        assert(magic_seq().take(0) =~= Seq::<u8>::empty());
        assert(bits_of_bytes(magic_seq().take(0)) =~= Seq::<u8>::empty());
        assert(writer.bits() =~= bits_of_bytes(magic_seq().take(0)));
    }
    while k < magic.len()
        invariant
            writer.wf(),
            k <= magic@.len(),
            magic@ == magic_seq(),
            writer.bits() == bits_of_bytes(magic_seq().take(k as int)),
            uniform_input(f@) ==> entries@ == single_symbol_table(f@[0]),
        decreases magic@.len() - k,
    {
        writer.write_on_buff_byte(magic[k]);
        proof {
            assert(magic_seq().take(k + 1).drop_last() =~= magic_seq().take(k as int));
            assert(writer.bits() =~= bits_of_bytes(magic_seq().take(k + 1)));
        }
        k = k + 1;
    }
    proof {
        assert(magic_seq().take(7) =~= magic_seq());
    }
    writer.write_on_buff_byte((entries.len() - 1) as u8);
    let ghost head = bits_of_bytes(magic_seq()) + bits_of_value((entries@.len() - 1) as u64, 8);
    proof {
        assert(writer.bits() =~= head);
        assert(table_bits(entries@.take(0)) =~= Seq::<u8>::empty());
        assert(writer.bits() =~= head + table_bits(entries@.take(0)));
    }
    let mut k: usize = 0;
    while k < entries.len()
        invariant
            writer.wf(),
            k <= entries@.len(),
            writer.bits() == head + table_bits(entries@.take(k as int)),
            uniform_input(f@) ==> entries@ == single_symbol_table(f@[0]),
        decreases entries@.len() - k,
    {
        let e = entries[k];
        writer.write_on_buff_byte(e.char_value);
        writer.write_on_buff_6bit(e.word_len);
        writer.write_huff_code(e.word, e.word_len);
        proof {
            assert(entries@.take(k + 1).drop_last() =~= entries@.take(k as int));
            assert(entries@.take(k + 1).last() == entries@[k as int]);
            assert(writer.bits() =~= head + table_bits(entries@.take(k + 1)));
        }
        k = k + 1;
    }
    proof {
        assert(entries@.take(entries@.len() as int) =~= entries@);
    }
    writer.write_huff_code(f.len() as u64, 32);
    let ghost mid = head + table_bits(entries@) + bits_of_value(f@.len() as u64, 32);
    proof {
        assert(writer.bits() =~= mid);
        assert(body_bits(f@.take(0), entries@) =~= Seq::<u8>::empty());
        assert(writer.bits() =~= mid + body_bits(f@.take(0), entries@));
    }
    let mut i: usize = 0;
    while i < f.len()
        invariant
            writer.wf(),
            i <= f@.len(),
            forall|b: u8| has_sym(entries@, b) <==> f@.contains(b),
            forall|k1: int, k2: int|
                0 <= k1 < entries@.len() && 0 <= k2 < entries@.len() && k1 != k2 ==> (
                #[trigger] entries@[k1]).char_value != (#[trigger] entries@[k2]).char_value,
            writer.bits() == mid + body_bits(f@.take(i as int), entries@),
            uniform_input(f@) ==> entries@ == single_symbol_table(f@[0]),
        decreases f@.len() - i,
    {
        let b = f[i];
        proof {
            assert(f@.contains(b));
        }
        let e = match lookup_code(&entries, b) {
            Some(e) => e,
            None => {
                proof {
                    assert(false);
                }
                EncoderTeranslateTable::new(0, 0)
            },
        };
        writer.write_huff_code(e.word, e.word_len);
        proof {
            assert(bits_of_value(e.word, e.word_len as nat) == code_for(entries@, b));
            assert(f@.take(i + 1).drop_last() =~= f@.take(i as int));
            assert(f@.take(i + 1).last() == b);
            assert(writer.bits() =~= mid + body_bits(f@.take(i + 1), entries@));
        }
        i = i + 1;
    }
    proof {
        assert(f@.take(f@.len() as int) =~= f@);
        assert(writer.bits() =~= encoding_bits(f@, entries@));
    }
    let ghost enc = encoding_bits(f@, entries@);
    writer.flush();
    let out = writer.into_bytes();
    proof {
        lemma_bits_of_bytes_props(out@);
        let pad = (bits_of_bytes(out@).len() - enc.len()) as nat;
        assert(bits_of_bytes(out@) == enc + zero_bits(pad));
        assert(out@.len() * 8 == enc.len() + pad);
        assert(pad == ((8 - enc.len() % 8) % 8)) by {
            assert(out@.len() * 8 % 8 == 0) by (nonlinear_arith);
        }
        assert(valid_encoding_with(out@, f@, entries@));
        if uniform_input(f@) {
            assert(valid_encoding_with(out@, f@, single_symbol_table(f@[0])));
        }
    }
    Ok(out)
}

} // verus!
