use vstd::prelude::*;
use vstd::seq_lib::lemma_multiset_commutative;

verus! {

broadcast use vstd::seq_lib::group_to_multiset_ensures;

/// A node of the frequency-weighted prefix tree. A leaf carries the symbol it
/// stands for; an internal node carries exactly two exclusively owned children
/// and the sum of their counts.
pub struct Node {
    pub count: i64,
    pub char_value: char,
    pub children: Vec<Node>,
}

/// Structural well-formedness: counts are never negative, every node has zero
/// or two children, and every leaf's symbol is a byte value.
pub open spec fn wf_node(n: Node) -> bool
    decreases n,
{
    &&& n.count >= 0
    &&& (n.children.len() == 0 || n.children.len() == 2)
    &&& (n.children.len() == 0 ==> (n.char_value as u32) < 256)
    &&& (n.children.len() == 2 ==> wf_node(n.children[0]) && wf_node(n.children[1]))
}

/// The symbols at the leaves of a tree, in left-to-right order, as integers.
pub open spec fn leaf_syms(n: Node) -> Seq<int>
    decreases n,
{
    if n.children.len() == 2 {
        leaf_syms(n.children[0]) + leaf_syms(n.children[1])
    } else {
        seq![n.char_value as int]
    }
}

/// Every internal node's count is the sum of its two children's counts
/// (the data model's count invariant).
pub open spec fn counts_sum(n: Node) -> bool
    decreases n,
{
    n.children.len() == 2 ==> {
        &&& n.count == n.children[0].count + n.children[1].count
        &&& counts_sum(n.children[0])
        &&& counts_sum(n.children[1])
    }
}

/// Every leaf of the tree carries exactly its histogram count.
pub open spec fn leaves_match_hist(n: Node, kv: Seq<i64>) -> bool
    decreases n,
{
    if n.children.len() == 2 {
        leaves_match_hist(n.children[0], kv) && leaves_match_hist(n.children[1], kv)
    } else {
        n.count == kv[n.char_value as int]
    }
}

/// The leaf symbols of a whole working set of trees, in order.
pub open spec fn all_syms(ns: Seq<Node>) -> Seq<int>
    decreases ns.len(),
{
    if ns.len() == 0 {
        Seq::empty()
    } else {
        all_syms(ns.drop_last()) + leaf_syms(ns.last())
    }
}

pub open spec fn wf_nodes(ns: Seq<Node>) -> bool {
    forall|i: int| 0 <= i < ns.len() ==> wf_node(#[trigger] ns[i])
}

/// The total count over a working set of trees.
pub open spec fn sum_counts(ns: Seq<Node>) -> int
    decreases ns.len(),
{
    if ns.len() == 0 {
        0
    } else {
        sum_counts(ns.drop_last()) + ns.last().count
    }
}

/// The total of a histogram's entries.
pub open spec fn sum_i64(s: Seq<i64>) -> int
    decreases s.len(),
{
    if s.len() == 0 {
        0
    } else {
        sum_i64(s.drop_last()) + s.last()
    }
}

pub proof fn lemma_all_syms_append(a: Seq<Node>, b: Seq<Node>)
    ensures
        all_syms(a + b) == all_syms(a) + all_syms(b),
    decreases b.len(),
{
    if b.len() == 0 {
        assert(a + b =~= a);
        assert(all_syms(a) + all_syms(b) =~= all_syms(a));
    } else {
        assert((a + b).drop_last() =~= a + b.drop_last());
        lemma_all_syms_append(a, b.drop_last());
        assert(all_syms(a) + all_syms(b.drop_last()) + leaf_syms(b.last()) =~= all_syms(a)
            + all_syms(b));
    }
}

pub proof fn lemma_sum_counts_append(a: Seq<Node>, b: Seq<Node>)
    ensures
        sum_counts(a + b) == sum_counts(a) + sum_counts(b),
    decreases b.len(),
{
    if b.len() == 0 {
        assert(a + b =~= a);
    } else {
        assert((a + b).drop_last() =~= a + b.drop_last());
        lemma_sum_counts_append(a, b.drop_last());
    }
}

pub proof fn lemma_sum_counts_nonneg(ns: Seq<Node>)
    requires
        forall|i: int| 0 <= i < ns.len() ==> #[trigger] ns[i].count >= 0,
    ensures
        sum_counts(ns) >= 0,
    decreases ns.len(),
{
    if ns.len() > 0 {
        lemma_sum_counts_nonneg(ns.drop_last());
    }
}

/// Taking one tree out of the working set splits its symbols and its count off
/// the totals.
pub proof fn lemma_take_one_out(ns: Seq<Node>, i: int)
    requires
        0 <= i < ns.len(),
    ensures
        all_syms(ns.remove(i)).to_multiset().add(leaf_syms(ns[i]).to_multiset())
            =~= all_syms(ns).to_multiset(),
        sum_counts(ns.remove(i)) == sum_counts(ns) - ns[i].count,
{
    let a = ns.take(i);
    let b = ns.skip(i + 1);
    let m = seq![ns[i]];
    assert(ns.remove(i) =~= a + b);
    assert(ns =~= (a + m) + b);
    lemma_all_syms_append(a, b);
    lemma_all_syms_append(a + m, b);
    lemma_all_syms_append(a, m);
    assert(m.drop_last() =~= Seq::<Node>::empty());
    assert(all_syms(Seq::<Node>::empty()) == Seq::<int>::empty());
    assert(m.last() == ns[i]);
    assert(all_syms(m) == all_syms(m.drop_last()) + leaf_syms(m.last()));
    assert(all_syms(m) =~= leaf_syms(ns[i]));
    assert(sum_counts(m.drop_last()) == 0);
    assert(sum_counts(m) == ns[i].count);
    lemma_multiset_commutative(all_syms(a), all_syms(b));
    lemma_multiset_commutative(all_syms(a + m), all_syms(b));
    lemma_multiset_commutative(all_syms(a), all_syms(m));
    assert(all_syms(ns.remove(i)).to_multiset().add(leaf_syms(ns[i]).to_multiset())
        =~= all_syms(ns).to_multiset());
    lemma_sum_counts_append(a, b);
    lemma_sum_counts_append(a + m, b);
    lemma_sum_counts_append(a, m);
}

/// Appending one tree to the working set adds its symbols and its count.
pub proof fn lemma_put_one_in(ns: Seq<Node>, n: Node)
    ensures
        all_syms(ns.push(n)) == all_syms(ns) + leaf_syms(n),
        sum_counts(ns.push(n)) == sum_counts(ns) + n.count,
{
    assert(ns.push(n).drop_last() =~= ns);
}

impl Node {
    /// A fresh childless node.
    pub fn new(value: char, count: i64) -> (r: Node)
        ensures
            r.count == count,
            r.char_value == value,
            r.children@.len() == 0,
    {
        Node { count: count, char_value: value, children: Vec::<Node>::new() }
    }

    /// Attach the next child in order.
    pub fn add_child(&mut self, child: Node)
        ensures
            final(self).count == old(self).count,
            final(self).char_value == old(self).char_value,
            final(self).children@ == old(self).children@.push(child),
    {
        self.children.push(child);
    }
}

/// The index of the first tree with the smallest count: the deterministic
/// tie-break that makes encoding reproducible.
fn min_count_index(nodes: &Vec<Node>) -> (r: usize)
    requires
        nodes@.len() >= 1,
    ensures
        r < nodes@.len(),
        forall|k: int| 0 <= k < nodes@.len() ==> #[trigger] nodes@[k].count >= nodes@[
            r as int].count,
        forall|k: int| 0 <= k < r ==> #[trigger] nodes@[k].count > nodes@[r as int].count,
{
    let mut best: usize = 0;
    let mut k: usize = 1;
    while k < nodes.len()
        invariant
            1 <= k <= nodes@.len(),
            best < k,
            forall|j: int| 0 <= j < k ==> #[trigger] nodes@[j].count >= nodes@[best as int].count,
            forall|j: int| 0 <= j < best ==> #[trigger] nodes@[j].count > nodes@[best as int].count,
        decreases nodes@.len() - k,
    {
        if nodes[k].count < nodes[best].count {
            best = k;
        }
        k = k + 1;
    }
    best
}

/// Greedy bottom-up construction of the prefix tree: one leaf per symbol with
/// a nonzero count, then repeated merging of the two smallest trees (first
/// occurrence wins a tie) until one root remains.
pub fn get_huff_tree(key_value: [i64; 256]) -> (r: Node)
    requires
        forall|i: int| 0 <= i < 256 ==> key_value@[i] >= 0,
        exists|i: int| 0 <= i < 256 && key_value@[i] != 0,
        sum_i64(key_value@) <= i64::MAX,
    ensures
        wf_node(r),
        leaf_syms(r).no_duplicates(),
        forall|v: int| leaf_syms(r).contains(v) ==> 0 <= v < 256,
        forall|v: int| 0 <= v < 256 ==> (leaf_syms(r).contains(v) <==> key_value@[v] != 0),
        r.count == sum_i64(key_value@),
        counts_sum(r),
        leaves_match_hist(r, key_value@),
{
    let mut nodes: Vec<Node> = Vec::new();
    let mut i: usize = 0;
    proof {
        assert(all_syms(nodes@) =~= Seq::<int>::empty());
        assert(key_value@.take(0) =~= Seq::<i64>::empty());
    }
    while i < 256
        invariant
            i <= 256,
            forall|j: int| 0 <= j < 256 ==> key_value@[j] >= 0,
            wf_nodes(nodes@),
            forall|j: int| 0 <= j < nodes@.len() ==> (#[trigger] nodes@[j]).children@.len() == 0,
            all_syms(nodes@).no_duplicates(),
            forall|v: int| all_syms(nodes@).contains(v) ==> 0 <= v < i,
            forall|v: int| 0 <= v < i ==> (all_syms(nodes@).contains(v) <==> key_value@[v] != 0),
            sum_counts(nodes@) == sum_i64(key_value@.take(i as int)),
            forall|j: int| 0 <= j < nodes@.len() ==> (#[trigger] nodes@[j]).count >= 0,
            forall|j: int| 0 <= j < nodes@.len() ==> counts_sum(#[trigger] nodes@[j]),
            forall|j: int| 0 <= j < nodes@.len() ==> leaves_match_hist(
                #[trigger] nodes@[j],
                key_value@,
            ),
        decreases 256 - i,
    {
        let ghost pre = nodes@;
        if key_value[i] != 0 {
            let leaf = Node::new((i as u8) as char, key_value[i]);
            nodes.push(leaf);
            proof {
                lemma_put_one_in(pre, leaf);
                assert(leaf.char_value as int == i as int);
                assert(leaf_syms(leaf) =~= seq![i as int]);
                assert(all_syms(nodes@) =~= all_syms(pre).push(i as int));
                assert(!all_syms(pre).contains(i as int));
                let s = all_syms(pre);
                let t = all_syms(nodes@);
                assert forall|v: int| t.contains(v) <==> (s.contains(v) || v == i as int) by {
                    if t.contains(v) {
                        let k = choose|k: int| 0 <= k < t.len() && t[k] == v;
                        if k < t.len() - 1 {
                            assert(s[k] == v);
                            assert(s.contains(v));
                        }
                    }
                    if s.contains(v) {
                        let k = choose|k: int| 0 <= k < s.len() && s[k] == v;
                        assert(t[k] == v);
                        assert(t.contains(v));
                    }
                    if v == i as int {
                        assert(t[s.len() as int] == v);
                        assert(t.contains(v));
                    }
                }
                assert forall|j1: int, j2: int|
                    0 <= j1 < t.len() && 0 <= j2 < t.len() && j1 != j2 implies t[j1] != t[
                    j2] by {
                    if j1 == t.len() - 1 {
                        if s[j2] == i as int {
                            assert(s.contains(i as int));
                        }
                    } else if j2 == t.len() - 1 {
                        if s[j1] == i as int {
                            assert(s.contains(i as int));
                        }
                    } else {
                        assert(t[j1] == s[j1] && t[j2] == s[j2]);
                    }
                }
                assert(all_syms(nodes@).no_duplicates());
            }
        }
        proof {
            assert(key_value@.take(i + 1).drop_last() =~= key_value@.take(i as int));
            assert(sum_i64(key_value@.take(i + 1)) == sum_i64(key_value@.take(i as int))
                + key_value@[i as int]);
        }
        i = i + 1;
    }
    proof {
        assert(key_value@.take(256) =~= key_value@);
        let ghost w = choose|j: int| 0 <= j < 256 && key_value@[j] != 0;
        assert(all_syms(nodes@).contains(w));
        assert(nodes@.len() > 0) by {
            if nodes@.len() == 0 {
                assert(all_syms(nodes@) =~= Seq::<int>::empty());
            }
        }
    }
    let ghost syms0 = all_syms(nodes@);
    let ghost total0 = sum_counts(nodes@);
    proof {
        assert(total0 == sum_i64(key_value@));
        assert(forall|v: int| syms0.contains(v) ==> 0 <= v < 256);
        assert(forall|v: int| 0 <= v < 256 ==> (syms0.contains(v) <==> key_value@[v] != 0));
        assert(syms0.no_duplicates());
    }
    while nodes.len() > 1
        invariant
            nodes@.len() >= 1,
            syms0.no_duplicates(),
            forall|v: int| syms0.contains(v) ==> 0 <= v < 256,
            forall|v: int| 0 <= v < 256 ==> (syms0.contains(v) <==> key_value@[v] != 0),
            wf_nodes(nodes@),
            all_syms(nodes@).to_multiset() == syms0.to_multiset(),
            sum_counts(nodes@) == total0 <= i64::MAX,
            total0 == sum_i64(key_value@),
            forall|j: int| 0 <= j < nodes@.len() ==> (#[trigger] nodes@[j]).count >= 0,
            forall|j: int| 0 <= j < nodes@.len() ==> counts_sum(#[trigger] nodes@[j]),
            forall|j: int| 0 <= j < nodes@.len() ==> leaves_match_hist(
                #[trigger] nodes@[j],
                key_value@,
            ),
        decreases nodes@.len(),
    {
        let ghost ns0 = nodes@;
        let m1 = min_count_index(&nodes);
        let first = nodes.remove(m1);
        proof {
            lemma_take_one_out(ns0, m1 as int);
            lemma_sum_counts_nonneg(nodes@);
        }
        let ghost ns1 = nodes@;
        let m2 = min_count_index(&nodes);
        let second = nodes.remove(m2);
        proof {
            lemma_take_one_out(ns1, m2 as int);
            lemma_sum_counts_nonneg(nodes@);
        }
        let mut dad = Node::new(0u8 as char, first.count + second.count);
        dad.add_child(first);
        dad.add_child(second);
        proof {
            assert(dad.children@[0] == first && dad.children@[1] == second);
            assert(counts_sum(dad));
            assert(leaves_match_hist(dad, key_value@));
            assert(leaf_syms(dad) == leaf_syms(first) + leaf_syms(second));
            lemma_multiset_commutative(leaf_syms(first), leaf_syms(second));
            lemma_put_one_in(nodes@, dad);
            lemma_multiset_commutative(all_syms(nodes@), leaf_syms(dad));
            assert(all_syms(nodes@.push(dad)).to_multiset() =~= syms0.to_multiset());
        }
        nodes.push(dad);
    }
    let ghost fin = nodes@;
    let root = match nodes.pop() {
        Some(n) => n,
        None => {
            proof {
                assert(false);
            }
            Node::new(0u8 as char, 0)
        },
    };
    proof {
        assert(fin.drop_last() =~= Seq::<Node>::empty());
        assert(sum_counts(Seq::<Node>::empty()) == 0);
        assert(fin.last() == root);
        assert(sum_counts(fin) == root.count);
        assert(root.count == sum_i64(key_value@));
        assert(all_syms(fin) =~= leaf_syms(root));
        assert(leaf_syms(root).to_multiset() == syms0.to_multiset());
        syms0.lemma_multiset_has_no_duplicates();
        leaf_syms(root).lemma_multiset_has_no_duplicates_conv();
        assert forall|v: int| leaf_syms(root).contains(v) <==> syms0.contains(v) by {
            assert(leaf_syms(root).contains(v) <==> leaf_syms(root).to_multiset().count(v) > 0);
            assert(syms0.contains(v) <==> syms0.to_multiset().count(v) > 0);
        }
        assert forall|v: int| leaf_syms(root).contains(v) implies 0 <= v < 256 by {
            assert(leaf_syms(root).to_multiset().count(v) > 0);
            assert(syms0.contains(v));
        }
        assert forall|v: int| 0 <= v < 256 implies (leaf_syms(root).contains(v)
            <==> key_value@[v] != 0) by {
            assert(leaf_syms(root).contains(v) <==> leaf_syms(root).to_multiset().count(v) > 0);
            assert(syms0.contains(v) <==> syms0.to_multiset().count(v) > 0);
        }
    }
    root
}

} // verus!
