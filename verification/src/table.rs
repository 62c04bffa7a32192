use vstd::prelude::*;
use vstd::arithmetic::power2::{pow2, lemma_pow2_unfold, lemma2_to64, lemma_pow2_strictly_increases,
    lemma2_to64_rest};
use crate::bits::{bits_of_value, is_prefix, lemma_bits_of_value_props, lemma_bits_of_value_push};
use crate::tree::{Node, wf_node, leaf_syms};
use crate::CodecError;

verus! {

/// The encode-side table entry for one symbol: its code value and code length.
pub struct EncoderTeranslateTable {
    pub word_len: u8,
    pub word: u64,
}

impl EncoderTeranslateTable {
    pub fn new(word_len: u8, word: u64) -> (r: EncoderTeranslateTable)
        ensures
            r.word_len == word_len,
            r.word == word,
    {
        EncoderTeranslateTable { word_len: word_len, word: word }
    }
}

/// A transmitted table entry: the symbol, its code value and its code length.
#[derive(Clone, Copy)]
pub struct DecoderTeranslateTable {
    pub word: u64,
    pub word_len: u8,
    pub char_value: u8,
}

impl DecoderTeranslateTable {
    pub fn new(char_value: u8, word: u64, word_len: u8) -> (r: DecoderTeranslateTable)
        ensures
            r.char_value == char_value,
            r.word == word,
            r.word_len == word_len,
    {
        DecoderTeranslateTable { char_value: char_value, word: word, word_len: word_len }
    }
}

/// The code of a table entry as a bit sequence.
pub open spec fn entry_code(e: DecoderTeranslateTable) -> Seq<u8> {
    bits_of_value(e.word, e.word_len as nat)
}

/// The (symbol, code) pairs a depth-first walk of the tree assigns, in leaf
/// order: the left branch appends bit 0, the right branch bit 1.
pub open spec fn tree_pairs(n: Node, prefix: Seq<u8>) -> Seq<(int, Seq<u8>)>
    decreases n,
{
    if n.children.len() == 2 {
        tree_pairs(n.children[0], prefix.push(0)) + tree_pairs(n.children[1], prefix.push(1))
    } else {
        seq![(n.char_value as int, prefix)]
    }
}

/// Whether every leaf of the tree sits at a code length of at most 63 when the
/// walk starts from a code of length `len`.
pub open spec fn fits_depth(n: Node, len: int) -> bool
    decreases n,
{
    if n.children.len() == 2 {
        len < 63 && fits_depth(n.children[0], len + 1) && fits_depth(n.children[1], len + 1)
    } else {
        true
    }
}

/// No code a tree walk assigns is a bit-prefix of another, every code extends
/// the starting prefix, and the symbols come out in leaf order.
pub proof fn lemma_tree_pairs_prefix_free(n: Node, prefix: Seq<u8>)
    requires
        wf_node(n),
    ensures
        tree_pairs(n, prefix).len() == leaf_syms(n).len(),
        leaf_syms(n).len() >= 1,
        forall|k: int| 0 <= k < tree_pairs(n, prefix).len() ==> (#[trigger] tree_pairs(n, prefix)[k]).0
            == leaf_syms(n)[k],
        forall|k: int| 0 <= k < tree_pairs(n, prefix).len() ==> is_prefix(
            prefix,
            (#[trigger] tree_pairs(n, prefix)[k]).1,
        ),
        n.children.len() == 2 ==> forall|k: int| 0 <= k < tree_pairs(n, prefix).len() ==> (
        #[trigger] tree_pairs(n, prefix)[k]).1.len() > prefix.len(),
        n.children.len() == 0 ==> tree_pairs(n, prefix) == seq![(n.char_value as int, prefix)],
        forall|k1: int, k2: int|
            0 <= k1 < tree_pairs(n, prefix).len() && 0 <= k2 < tree_pairs(n, prefix).len() && k1
                != k2 ==> !is_prefix(
                (#[trigger] tree_pairs(n, prefix)[k1]).1,
                (#[trigger] tree_pairs(n, prefix)[k2]).1,
            ),
    decreases n,
{
    let ps = tree_pairs(n, prefix);
    if n.children.len() == 2 {
        let l = tree_pairs(n.children[0], prefix.push(0));
        let r = tree_pairs(n.children[1], prefix.push(1));
        lemma_tree_pairs_prefix_free(n.children[0], prefix.push(0));
        lemma_tree_pairs_prefix_free(n.children[1], prefix.push(1));
        assert(forall|k: int| 0 <= k < l.len() ==> ps[k] == l[k]);
        assert(forall|k: int| l.len() <= k < ps.len() ==> ps[k] == r[k - l.len()]);
        assert(forall|k: int| 0 <= k < leaf_syms(n).len() ==> leaf_syms(n)[k] == (if k < leaf_syms(
            n.children[0],
        ).len() {
            leaf_syms(n.children[0])[k]
        } else {
            leaf_syms(n.children[1])[k - leaf_syms(n.children[0]).len()]
        }));
        assert forall|k: int| 0 <= k < ps.len() implies is_prefix(prefix, (#[trigger] ps[k]).1)
            && ps[k].1.len() > prefix.len() by {
            if k < l.len() {
                assert(is_prefix(prefix.push(0), l[k].1));
                assert(l[k].1.take(prefix.len() as int) =~= prefix);
            } else {
                assert(is_prefix(prefix.push(1), r[k - l.len()].1));
                assert(r[k - l.len()].1.take(prefix.len() as int) =~= prefix);
            }
        }
        assert forall|k1: int, k2: int|
            0 <= k1 < ps.len() && 0 <= k2 < ps.len() && k1 != k2 implies !is_prefix(
            (#[trigger] ps[k1]).1,
            (#[trigger] ps[k2]).1,
        ) by {
            let c1 = ps[k1].1;
            let c2 = ps[k2].1;
            if k1 < l.len() && k2 < l.len() {
                assert(!is_prefix(l[k1].1, l[k2].1));
            } else if k1 >= l.len() && k2 >= l.len() {
                assert(!is_prefix(r[k1 - l.len()].1, r[k2 - l.len()].1));
            } else {
                let p = prefix.len() as int;
                if k1 < l.len() {
                    assert(c1.take(p + 1) == prefix.push(0));
                    assert(c2.take(p + 1) == prefix.push(1));
                    assert(c1[p] == 0 && c2[p] == 1) by {
                        assert(c1.take(p + 1)[p] == c1[p]);
                        assert(c2.take(p + 1)[p] == c2[p]);
                    }
                    if is_prefix(c1, c2) {
                        assert(c2.take(c1.len() as int)[p] == c2[p]);
                        assert(c1[p] == c2[p]);
                    }
                } else {
                    assert(c1.take(p + 1) == prefix.push(1));
                    assert(c2.take(p + 1) == prefix.push(0));
                    assert(c1[p] == 1 && c2[p] == 0) by {
                        assert(c1.take(p + 1)[p] == c1[p]);
                        assert(c2.take(p + 1)[p] == c2[p]);
                    }
                    if is_prefix(c1, c2) {
                        assert(c2.take(c1.len() as int)[p] == c2[p]);
                        assert(c1[p] == c2[p]);
                    }
                }
            }
        }
    } else {
        assert(ps.len() == 1 && leaf_syms(n).len() == 1);
        assert(prefix.take(prefix.len() as int) =~= prefix);
    }
}

/// A tree whose leaf count, plus the starting code length, stays within 64
/// never needs a code longer than 63 bits: each branch both deepens the walk
/// by one and splits off at least one leaf.
pub proof fn lemma_fits_depth_from_leaves(n: Node, len: int)
    requires
        wf_node(n),
        0 <= len,
        leaf_syms(n).len() + len <= 64,
    ensures
        fits_depth(n, len),
    decreases n,
{
    if n.children.len() == 2 {
        lemma_tree_pairs_prefix_free(n.children[0], Seq::empty());
        lemma_tree_pairs_prefix_free(n.children[1], Seq::empty());
        assert(leaf_syms(n).len() >= 2);
        lemma_fits_depth_from_leaves(n.children[0], len + 1);
        lemma_fits_depth_from_leaves(n.children[1], len + 1);
    }
}

/// How a built entry list realises the walk's (symbol, code) pairs.
pub open spec fn entries_match_pairs(
    es: Seq<DecoderTeranslateTable>,
    ps: Seq<(int, Seq<u8>)>,
) -> bool {
    &&& es.len() == ps.len()
    &&& forall|k: int| 0 <= k < es.len() ==> (#[trigger] es[k]).char_value as int == ps[k].0
    &&& forall|k: int| 0 <= k < es.len() ==> entry_code(#[trigger] es[k]) == ps[k].1
    &&& forall|k: int| 0 <= k < es.len() ==> (#[trigger] es[k]).word_len as int == ps[k].1.len()
    &&& forall|k: int| 0 <= k < es.len() ==> ((#[trigger] es[k]).word as nat) < pow2(
        es[k].word_len as nat,
    )
}

/// Depth-first walk of the tree producing one table entry per leaf: codes grow
/// a 0 for the left branch and a 1 for the right one. A lone leaf at the root
/// is the single-symbol special case and gets the one-bit code 0, since the
/// wire format cannot carry a zero-length code. A leaf deeper than the 6-bit
/// length field can say is unrepresentable.
pub fn navigate_tree(node: &Node, word: u64, word_len: u8) -> (r: Result<
    Vec<DecoderTeranslateTable>,
    CodecError,
>)
    requires
        wf_node(*node),
        word_len <= 63,
        (word as nat) < pow2(word_len as nat),
    ensures
        match r {
            Ok(es) => {
                &&& fits_depth(*node, word_len as int)
                &&& (forall|k: int| 0 <= k < es@.len() ==> (#[trigger] es@[k]).word_len <= 63)
                &&& (node.children@.len() == 2 || word_len >= 1 ==> entries_match_pairs(
                    es@,
                    tree_pairs(*node, bits_of_value(word, word_len as nat)),
                ))
                &&& (node.children@.len() == 0 && word_len == 0 ==> es@ == seq![
                    (DecoderTeranslateTable {
                        word: 0,
                        word_len: 1,
                        char_value: (node.char_value as u8),
                    }),
                ])
            },
            Err(e) => e == CodecError::UnrepresentableInput && !fits_depth(
                *node,
                word_len as int,
            ),
        },
    decreases *node,
{
    proof {
        lemma_bits_of_value_props(word, word_len as nat);
    }
    let ghost prefix = bits_of_value(word, word_len as nat);
    if node.children.len() == 2 {
        if word_len >= 63 {
            return Err(CodecError::UnrepresentableInput);
        }
        proof {
            assert(pow2(word_len as nat) <= pow2(62)) by {
                if (word_len as nat) < 62 {
                    lemma_pow2_strictly_increases(word_len as nat, 62);
                }
            }
            assert(pow2(62) < pow2(63)) by {
                lemma_pow2_strictly_increases(62, 63);
            }
            assert(pow2(63) == 0x8000_0000_0000_0000) by {
                lemma2_to64_rest();
            }
            lemma_pow2_unfold((word_len + 1) as nat);
            lemma_bits_of_value_push(word, word_len as nat, 0);
            lemma_bits_of_value_push(word, word_len as nat, 1);
        }
        let mut es = match navigate_tree(&node.children[0], word * 2, word_len + 1) {
            Ok(es) => es,
            Err(e) => {
                return Err(e);
            },
        };
        let right = match navigate_tree(&node.children[1], word * 2 + 1, word_len + 1) {
            Ok(es) => es,
            Err(e) => {
                return Err(e);
            },
        };
        let ghost l = tree_pairs(node.children[0], prefix.push(0));
        let ghost rp = tree_pairs(node.children[1], prefix.push(1));
        let ghost esl = es@;
        let mut k: usize = 0;
        while k < right.len()
            invariant
                k <= right@.len(),
                es@ == esl + right@.take(k as int),
            decreases right@.len() - k,
        {
            es.push(right[k]);
            proof {
                assert(es@ =~= esl + right@.take(k + 1));
            }
            k = k + 1;
        }
        proof {
            assert(right@.take(right@.len() as int) =~= right@);
            assert(es@ == esl + right@);
            assert(tree_pairs(*node, prefix) == l + rp);
            assert(forall|j: int| 0 <= j < esl.len() ==> es@[j] == esl[j]);
            assert(forall|j: int| esl.len() <= j < es@.len() ==> es@[j] == right@[j - esl.len()]);
            assert(forall|j: int| 0 <= j < l.len() ==> (l + rp)[j] == l[j]);
            assert(forall|j: int| l.len() <= j < (l + rp).len() ==> (l + rp)[j] == rp[j - l.len()]);
        }
        Ok(es)
    } else {
        let mut es: Vec<DecoderTeranslateTable> = Vec::new();
        let sym = node.char_value as u8;
        if word_len == 0 {
            es.push(DecoderTeranslateTable::new(sym, 0, 1));
            proof {
                assert(es@ =~= seq![
                    (DecoderTeranslateTable { word: 0, word_len: 1, char_value: (
                    node.char_value as u8) }),
                ]);
            }
        } else {
            es.push(DecoderTeranslateTable::new(sym, word, word_len));
            proof {
                assert(tree_pairs(*node, prefix) == seq![(node.char_value as int, prefix)]);
                assert(es@.len() == 1);
                assert(es@[0].char_value as int == node.char_value as int);
            }
        }
        Ok(es)
    }
}

} // verus!
