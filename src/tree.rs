use vstd::prelude::*;
use vstd::multiset::Multiset;

verus! {

/// A node of a Huffman tree: a leaf for one byte value, or an internal node
/// that owns its two subtrees.
pub enum HuffmanNode {
    Leaf { weight: u32, character: u8 },
    Parent { weight: u32, left: Box<HuffmanNode>, right: Box<HuffmanNode> },
}

impl HuffmanNode {
    pub open spec fn spec_weight(&self) -> u32 {
        match self {
            HuffmanNode::Leaf { weight, .. } => *weight,
            HuffmanNode::Parent { weight, .. } => *weight,
        }
    }

    /// Every internal node weighs what its two children weigh together.
    pub open spec fn weights_ok(&self) -> bool
        decreases self,
    {
        match self {
            HuffmanNode::Leaf { .. } => true,
            HuffmanNode::Parent { weight, left, right } => {
                *weight == left.spec_weight() + right.spec_weight() && left.weights_ok()
                    && right.weights_ok()
            },
        }
    }

    /// The sum of the leaf weights of the subtree.
    pub open spec fn leaf_total(&self) -> nat
        decreases self,
    {
        match self {
            HuffmanNode::Leaf { weight, .. } => *weight as nat,
            HuffmanNode::Parent { left, right, .. } => left.leaf_total() + right.leaf_total(),
        }
    }

    /// The byte values at the leaves, with multiplicity.
    pub open spec fn symbols(&self) -> Multiset<u8>
        decreases self,
    {
        match self {
            HuffmanNode::Leaf { character, .. } => Multiset::singleton(*character),
            HuffmanNode::Parent { left, right, .. } => left.symbols().add(right.symbols()),
        }
    }

    /// Each leaf weighs the count that the table `t` gives its byte.
    pub open spec fn leaves_weighted(&self, t: Seq<(u8, u32)>) -> bool
        decreases self,
    {
        match self {
            HuffmanNode::Leaf { weight, character } => *weight == count_in(t, *character),
            HuffmanNode::Parent { left, right, .. } => left.leaves_weighted(t) && right.leaves_weighted(t),
        }
    }

    /// The number of internal nodes.
    pub open spec fn internal_count(&self) -> nat
        decreases self,
    {
        match self {
            HuffmanNode::Leaf { .. } => 0,
            HuffmanNode::Parent { left, right, .. } => 1 + left.internal_count() + right.internal_count(),
        }
    }

    /// The number of edges on the longest path from this node to a leaf.
    pub open spec fn depth(&self) -> nat
        decreases self,
    {
        match self {
            HuffmanNode::Leaf { .. } => 0,
            HuffmanNode::Parent { left, right, .. } => {
                let l = left.depth();
                let r = right.depth();
                1 + if l >= r { l } else { r }
            },
        }
    }

    pub fn new_leaf(character: u8, weight: u32) -> (r: Self)
        ensures
            r == (HuffmanNode::Leaf { weight, character }),
    {
        HuffmanNode::Leaf { weight, character }
    }

    pub fn new_parent(left: Box<HuffmanNode>, right: Box<HuffmanNode>) -> (r: Self)
        requires
            left.spec_weight() + right.spec_weight() <= u32::MAX,
        ensures
            r == (HuffmanNode::Parent {
                weight: (left.spec_weight() + right.spec_weight()) as u32,
                left,
                right,
            }),
    {
        let weight = left.weight() + right.weight();
        HuffmanNode::Parent { weight, left, right }
    }

    pub fn weight(&self) -> (r: u32)
        ensures
            r == self.spec_weight(),
    {
        match self {
            HuffmanNode::Leaf { weight, .. } => *weight,
            HuffmanNode::Parent { weight, .. } => *weight,
        }
    }

    /// Tells whether the tree is at most `n` levels deep.
    pub fn depth_at_most(&self, n: u32) -> (r: bool)
        ensures
            r == (self.depth() <= n),
        decreases self,
    {
        match self {
            HuffmanNode::Leaf { .. } => true,
            HuffmanNode::Parent { left, right, .. } => {
                if n == 0 {
                    false
                } else {
                    left.depth_at_most(n - 1) && right.depth_at_most(n - 1)
                }
            },
        }
    }
}

/// The leaves that a frequency table seeds, in table order.
pub open spec fn leaves_of(t: Seq<(u8, u32)>) -> Seq<HuffmanNode> {
    Seq::new(t.len(), |i: int| HuffmanNode::Leaf { weight: t[i].1, character: t[i].0 })
}

/// The sum of the counts of a frequency table.
pub open spec fn count_total(t: Seq<(u8, u32)>) -> nat
    decreases t.len(),
{
    if t.len() == 0 {
        0
    } else {
        count_total(t.drop_last()) + t.last().1 as nat
    }
}

/// The sum of the weights of a list of nodes.
pub open spec fn weight_sum(s: Seq<HuffmanNode>) -> nat
    decreases s.len(),
{
    if s.len() == 0 {
        0
    } else {
        weight_sum(s.drop_last()) + s.last().spec_weight() as nat
    }
}

/// The leaf symbols of a list of nodes, with multiplicity.
pub open spec fn symbols_of(s: Seq<HuffmanNode>) -> Multiset<u8>
    decreases s.len(),
{
    if s.len() == 0 {
        Multiset::empty()
    } else {
        symbols_of(s.drop_last()).add(s.last().symbols())
    }
}

/// The first index of a node of least weight.
pub open spec fn min_index(s: Seq<HuffmanNode>) -> int
    decreases s.len(),
{
    if s.len() <= 1 {
        0
    } else {
        let k = min_index(s.drop_last());
        if s.last().spec_weight() < s[k].spec_weight() {
            s.len() - 1
        } else {
            k
        }
    }
}

/// One merge: the two lightest nodes (earliest first among equal weights)
/// leave the list, and a parent holding them, the first as its left child,
/// is appended.
pub open spec fn merge_step(s: Seq<HuffmanNode>) -> Seq<HuffmanNode> {
    let i = min_index(s);
    let a = s[i];
    let rest = s.remove(i);
    let j = min_index(rest);
    let b = rest[j];
    rest.remove(j).push(
        HuffmanNode::Parent {
            weight: (a.spec_weight() + b.spec_weight()) as u32,
            left: Box::new(a),
            right: Box::new(b),
        },
    )
}

/// The tree that repeated merging leaves of a non-empty list of nodes.
pub open spec fn huffman(s: Seq<HuffmanNode>) -> HuffmanNode
    decreases s.len(),
{
    if s.len() <= 1 {
        s[0]
    } else {
        proof {
            lemma_merge_step_len(s);
        }
        huffman(merge_step(s))
    }
}

/// The byte values of a table stand in strictly increasing order, so each
/// occurs at most once.
pub open spec fn bytes_increasing(t: Seq<(u8, u32)>) -> bool {
    forall|i: int, j: int| 0 <= i < j < t.len() ==> (#[trigger] t[i]).0 < (#[trigger] t[j]).0
}

/// The entries of a table with a count above zero, in table order.
pub open spec fn nonzero_entries(t: Seq<(u8, u32)>) -> Seq<(u8, u32)>
    decreases t.len(),
{
    if t.len() == 0 {
        seq![]
    } else {
        let rest = nonzero_entries(t.drop_last());
        if t.last().1 > 0 {
            rest.push(t.last())
        } else {
            rest
        }
    }
}

/// `b` has an entry with a count above zero.
pub open spec fn in_table(t: Seq<(u8, u32)>, b: u8) -> bool {
    exists|i: int| 0 <= i < t.len() && (#[trigger] t[i]).0 == b && t[i].1 > 0
}

/// The count of `b` in a table (that of its last entry), zero without one.
pub open spec fn count_in(t: Seq<(u8, u32)>, b: u8) -> u32
    decreases t.len(),
{
    if t.len() == 0 {
        0
    } else if t.last().0 == b {
        t.last().1
    } else {
        count_in(t.drop_last(), b)
    }
}

/// The Huffman tree of a frequency table: its entries with a count above
/// zero become the leaves, in table order, which must not be empty.
pub open spec fn huffman_tree_of(t: Seq<(u8, u32)>) -> HuffmanNode {
    huffman(leaves_of(nonzero_entries(t)))
}

/// `min_index` picks a node that no other node undercuts.
pub proof fn lemma_min_index(s: Seq<HuffmanNode>)
    requires
        s.len() > 0,
    ensures
        0 <= min_index(s) < s.len(),
        forall|k: int| 0 <= k < s.len() ==> s[min_index(s)].spec_weight() <= #[trigger] s[k].spec_weight(),
    decreases s.len(),
{
    if s.len() > 1 {
        let d = s.drop_last();
        lemma_min_index(d);
        assert forall|k: int| 0 <= k < s.len() implies s[min_index(s)].spec_weight() <= #[trigger] s[k].spec_weight() by {
            if k < s.len() - 1 {
                assert(d[k] == s[k]);
            }
            assert(d[min_index(d)] == s[min_index(d)]);
        }
    }
}

/// A merge shortens the list by one.
pub proof fn lemma_merge_step_len(s: Seq<HuffmanNode>)
    requires
        s.len() > 1,
    ensures
        merge_step(s).len() == s.len() - 1,
{
    lemma_min_index(s);
    lemma_min_index(s.remove(min_index(s)));
}

/// Removing a node takes its weight and its symbols out of the totals.
pub proof fn lemma_remove(s: Seq<HuffmanNode>, i: int)
    requires
        0 <= i < s.len(),
    ensures
        weight_sum(s) == weight_sum(s.remove(i)) + s[i].spec_weight(),
        symbols_of(s) == symbols_of(s.remove(i)).add(s[i].symbols()),
    decreases s.len(),
{
    if i == s.len() - 1 {
        assert(s.remove(i) =~= s.drop_last());
    } else {
        lemma_remove(s.drop_last(), i);
        assert(s.remove(i).drop_last() =~= s.drop_last().remove(i));
        assert(s.remove(i).last() == s.last());
        assert(symbols_of(s) =~= symbols_of(s.remove(i)).add(s[i].symbols()));
    }
}

/// What every node of a list satisfies: its weights add up, and its weight
/// is its leaf total.
pub open spec fn all_weights_ok(s: Seq<HuffmanNode>) -> bool {
    forall|k: int| 0 <= k < s.len() ==> (#[trigger] s[k]).weights_ok() && s[k].spec_weight() == s[k].leaf_total()
}

/// A merge keeps the total weight and the symbols, and builds a parent
/// whose weight is that of its children.
pub proof fn lemma_merge_step(s: Seq<HuffmanNode>)
    requires
        s.len() > 1,
        weight_sum(s) <= u32::MAX,
        all_weights_ok(s),
    ensures
        merge_step(s).len() == s.len() - 1,
        weight_sum(merge_step(s)) == weight_sum(s),
        symbols_of(merge_step(s)) == symbols_of(s),
        all_weights_ok(merge_step(s)),
{
    let i = min_index(s);
    lemma_min_index(s);
    let a = s[i];
    let rest = s.remove(i);
    lemma_remove(s, i);
    lemma_min_index(rest);
    let j = min_index(rest);
    let b = rest[j];
    lemma_remove(rest, j);
    let rest2 = rest.remove(j);
    let p = HuffmanNode::Parent {
        weight: (a.spec_weight() + b.spec_weight()) as u32,
        left: Box::new(a),
        right: Box::new(b),
    };
    let m = rest2.push(p);
    assert(m.drop_last() =~= rest2);
    assert(rest[j] == b);
    assert(all_weights_ok(m)) by {
        assert forall|k: int| 0 <= k < m.len() implies (#[trigger] m[k]).weights_ok() && m[k].spec_weight() == m[k].leaf_total() by {
            if k < m.len() - 1 {
                let kr = if k < j { k } else { k + 1 };
                assert(m[k] == rest[kr]);
                assert(rest[kr] == s[if kr < i { kr } else { kr + 1 }]);
            }
        }
    }
    assert(symbols_of(m) =~= symbols_of(s));
}

/// Merging preserves the total weight and the leaf symbols, and every node
/// of the result has consistent weights.
pub proof fn lemma_huffman(s: Seq<HuffmanNode>)
    requires
        s.len() > 0,
        weight_sum(s) <= u32::MAX,
        all_weights_ok(s),
    ensures
        huffman(s).weights_ok(),
        huffman(s).spec_weight() as nat == weight_sum(s),
        huffman(s).leaf_total() == weight_sum(s),
        huffman(s).symbols() == symbols_of(s),
    decreases s.len(),
{
    if s.len() <= 1 {
        assert(s.drop_last() =~= Seq::<HuffmanNode>::empty());
        assert(s.last() == s[0]);
        assert(symbols_of(s.drop_last()) == Multiset::<u8>::empty());
        assert(weight_sum(s.drop_last()) == 0);
        assert forall|x: u8| #[trigger] symbols_of(s).count(x) == s[0].symbols().count(x) by {}
        assert(symbols_of(s) =~= s[0].symbols());
        assert(weight_sum(s) == weight_sum(s.drop_last()) + s[0].spec_weight());
    } else {
        lemma_merge_step(s);
        lemma_huffman(merge_step(s));
    }
}

/// The leaves of a frequency table weigh what its counts add up to.
pub proof fn lemma_leaves_of(t: Seq<(u8, u32)>)
    ensures
        all_weights_ok(leaves_of(t)),
        weight_sum(leaves_of(t)) == count_total(t),
        leaves_of(t).len() == t.len(),
    decreases t.len(),
{
    if t.len() > 0 {
        lemma_leaves_of(t.drop_last());
        assert(leaves_of(t).drop_last() =~= leaves_of(t.drop_last()));
    }
}

fn min_weight_index(nodes: &Vec<HuffmanNode>) -> (r: usize)
    requires
        nodes@.len() > 0,
    ensures
        r == min_index(nodes@),
        r < nodes@.len(),
{
    let mut best: usize = 0;
    let mut i: usize = 1;
    assert(nodes@.take(1).len() == 1);
    while i < nodes.len()
        invariant
            1 <= i <= nodes@.len(),
            best == min_index(nodes@.take(i as int)),
            best < i,
        decreases nodes@.len() - i,
    {
        proof {
            lemma_min_index(nodes@.take(i as int));
            assert(nodes@.take(i + 1).drop_last() =~= nodes@.take(i as int));
        }
        if nodes[i].weight() < nodes[best].weight() {
            best = i;
        }
        i = i + 1;
    }
    assert(nodes@.take(i as int) =~= nodes@);
    best
}

/// Builds the Huffman tree of a frequency table by repeatedly merging the
/// two lightest nodes. Entries with a count of zero take no part. The byte
/// values must increase along the table, so the leaves start out in byte
/// order; among equal weights the node that comes first in the list is
/// taken first, which puts the lowest byte first and makes the result
/// independent of the run. Returns `None` when no count is above zero.
pub fn build_huffman_tree(frequencies: &Vec<(u8, u32)>) -> (r: Option<Box<HuffmanNode>>)
    requires
        bytes_increasing(frequencies@),
        count_total(frequencies@) <= u32::MAX,
    ensures
        r is None <==> nonzero_entries(frequencies@).len() == 0,
        r matches Some(t) ==> *t == huffman_tree_of(frequencies@),
        r matches Some(t) ==> {
            &&& t.weights_ok()
            &&& t.leaf_total() == count_total(frequencies@)
            &&& t.leaves_weighted(frequencies@)
            &&& t.internal_count() + 1 == nonzero_entries(frequencies@).len()
            &&& forall|b: u8| #[trigger] t.symbols().count(b) == if in_table(frequencies@, b) {
                1nat
            } else {
                0nat
            }
        },
{
    let ghost f = frequencies@;
    let mut nodes: Vec<HuffmanNode> = Vec::new();
    let mut k: usize = 0;
    while k < frequencies.len()
        invariant
            k <= frequencies@.len(),
            f == frequencies@,
            nodes@ =~= leaves_of(nonzero_entries(frequencies@.take(k as int))),
        decreases frequencies@.len() - k,
    {
        let (byte, count) = frequencies[k];
        proof {
            let t1 = frequencies@.take(k + 1);
            assert(t1.drop_last() =~= frequencies@.take(k as int));
            let r = nonzero_entries(frequencies@.take(k as int));
            assert(leaves_of(r.push((byte, count))) =~= leaves_of(r).push(
                HuffmanNode::Leaf { weight: count, character: byte },
            ));
        }
        if count > 0 {
            nodes.push(HuffmanNode::new_leaf(byte, count));
        }
        k = k + 1;
    }
    assert(frequencies@.take(k as int) =~= frequencies@);
    proof {
        lemma_nonzero(f);
        lemma_leaves_of(nonzero_entries(f));
        lemma_leaves_internal(nonzero_entries(f));
    }
    if nodes.len() == 0 {
        return None;
    }
    let ghost init = nodes@;
    while nodes.len() > 1
        invariant
            nodes@.len() >= 1,
            huffman(nodes@) == huffman(init),
            weight_sum(nodes@) == weight_sum(init),
            weight_sum(init) <= u32::MAX,
            all_weights_ok(nodes@),
            forall|m: int| 0 <= m < nodes@.len() ==> (#[trigger] nodes@[m]).leaves_weighted(f),
            internal_sum(nodes@) + nodes@.len() == init.len(),
        decreases nodes@.len(),
    {
        proof {
            lemma_merge_step(nodes@);
            lemma_merge_step_shape(nodes@, f);
        }
        let ghost before = nodes@;
        let i = min_weight_index(&nodes);
        let a = nodes.remove(i);
        let j = min_weight_index(&nodes);
        let b = nodes.remove(j);
        proof {
            lemma_remove(before, i as int);
            lemma_remove(before.remove(i as int), j as int);
        }
        let parent = HuffmanNode::new_parent(Box::new(a), Box::new(b));
        nodes.push(parent);
        assert(nodes@ =~= merge_step(before));
    }
    proof {
        lemma_huffman(init);
        assert(huffman(nodes@) == nodes@[0]);
        assert(nodes@.drop_last() =~= Seq::<HuffmanNode>::empty());
        assert(internal_sum(nodes@.drop_last()) == 0);
        assert(nodes@.last() == nodes@[0]);
        assert(internal_sum(nodes@) == nodes@[0].internal_count());
    }
    let root = nodes.pop();
    match root {
        Some(t) => Some(Box::new(t)),
        None => None,
    }
}

/// The number of internal nodes of a list of nodes.
pub open spec fn internal_sum(s: Seq<HuffmanNode>) -> nat
    decreases s.len(),
{
    if s.len() == 0 {
        0
    } else {
        internal_sum(s.drop_last()) + s.last().internal_count()
    }
}

proof fn lemma_remove_internal(s: Seq<HuffmanNode>, i: int)
    requires
        0 <= i < s.len(),
    ensures
        internal_sum(s) == internal_sum(s.remove(i)) + s[i].internal_count(),
    decreases s.len(),
{
    if i == s.len() - 1 {
        assert(s.remove(i) =~= s.drop_last());
    } else {
        lemma_remove_internal(s.drop_last(), i);
        assert(s.remove(i).drop_last() =~= s.drop_last().remove(i));
        assert(s.remove(i).last() == s.last());
    }
}

/// A merge adds one internal node, and keeps leaves that weigh what the
/// table gives their byte.
proof fn lemma_merge_step_shape(s: Seq<HuffmanNode>, t: Seq<(u8, u32)>)
    requires
        s.len() > 1,
    ensures
        internal_sum(merge_step(s)) == internal_sum(s) + 1,
        (forall|m: int| 0 <= m < s.len() ==> (#[trigger] s[m]).leaves_weighted(t)) ==> forall|m: int|
            0 <= m < merge_step(s).len() ==> (#[trigger] merge_step(s)[m]).leaves_weighted(t),
{
    let i = min_index(s);
    lemma_min_index(s);
    let rest = s.remove(i);
    lemma_remove_internal(s, i);
    lemma_min_index(rest);
    let j = min_index(rest);
    lemma_remove_internal(rest, j);
    let m = merge_step(s);
    let rest2 = rest.remove(j);
    assert(m.drop_last() =~= rest2);
    if forall|k: int| 0 <= k < s.len() ==> (#[trigger] s[k]).leaves_weighted(t) {
        assert forall|k: int| 0 <= k < m.len() implies (#[trigger] m[k]).leaves_weighted(t) by {
            if k < m.len() - 1 {
                let kr = if k < j { k } else { k + 1 };
                assert(m[k] == rest[kr]);
                assert(rest[kr] == s[if kr < i { kr } else { kr + 1 }]);
            } else {
                assert(rest[j] == s[if j < i { j } else { j + 1 }]);
            }
        }
    }
}

/// Dropping zero counts keeps the total; the remaining entries all count
/// above zero; in a table whose bytes increase, their leaves hold each byte
/// with a count above zero once, and each weighs the table's count.
pub proof fn lemma_nonzero(t: Seq<(u8, u32)>)
    requires
        bytes_increasing(t),
    ensures
        count_total(nonzero_entries(t)) == count_total(t),
        nonzero_entries(t).len() <= t.len(),
        bytes_increasing(nonzero_entries(t)),
        forall|k: int| 0 <= k < nonzero_entries(t).len() ==> {
            &&& (#[trigger] nonzero_entries(t)[k]).1 > 0
            &&& count_in(t, nonzero_entries(t)[k].0) == nonzero_entries(t)[k].1
            &&& exists|i: int| 0 <= i < t.len() && t[i] == nonzero_entries(t)[k]
        },
        forall|b: u8| #[trigger] symbols_of(leaves_of(nonzero_entries(t))).count(b) == if in_table(t, b) {
            1nat
        } else {
            0nat
        },
        forall|m: int| 0 <= m < nonzero_entries(t).len() ==> (#[trigger] leaves_of(nonzero_entries(t))[m]).leaves_weighted(t),
    decreases t.len(),
{
    if t.len() == 0 {
        assert forall|b: u8| #[trigger] symbols_of(leaves_of(nonzero_entries(t))).count(b) == if in_table(t, b) {
            1nat
        } else {
            0nat
        } by {
            assert(leaves_of(nonzero_entries(t)) =~= Seq::<HuffmanNode>::empty());
        }
    } else {
        let d = t.drop_last();
        let e = t.last();
        assert(bytes_increasing(d)) by {
            assert forall|i: int, j: int| 0 <= i < j < d.len() implies (#[trigger] d[i]).0 < (#[trigger] d[j]).0 by {
                assert(d[i] == t[i] && d[j] == t[j]);
            }
        }
        lemma_nonzero(d);
        let r = nonzero_entries(d);
        // every entry before the last has a smaller byte
        assert forall|k: int| 0 <= k < r.len() implies (#[trigger] r[k]).0 < e.0 by {
            let i = choose|i: int| 0 <= i < d.len() && d[i] == r[k];
            assert(t[i] == d[i]);
            assert(t[t.len() - 1] == e);
        }
        assert forall|k: int| 0 <= k < nonzero_entries(t).len() implies count_in(t, (#[trigger] nonzero_entries(t)[k]).0)
            == nonzero_entries(t)[k].1 && nonzero_entries(t)[k].1 > 0 && exists|i: int| 0 <= i < t.len() && t[i] == nonzero_entries(t)[k] by {
            if k < r.len() {
                assert(nonzero_entries(t)[k] == r[k]);
                let i = choose|i: int| 0 <= i < d.len() && d[i] == r[k];
                assert(t[i] == r[k]);
            } else {
                assert(nonzero_entries(t)[k] == e);
                assert(t[t.len() - 1] == e);
            }
        }
        assert forall|b: u8| in_table(t, b) == (in_table(d, b) || (e.0 == b && e.1 > 0)) by {
            if in_table(t, b) {
                let i = choose|i: int| 0 <= i < t.len() && (#[trigger] t[i]).0 == b && t[i].1 > 0;
                if i < d.len() {
                    assert(d[i] == t[i]);
                }
            }
            if in_table(d, b) {
                let i = choose|i: int| 0 <= i < d.len() && (#[trigger] d[i]).0 == b && d[i].1 > 0;
                assert(t[i] == d[i]);
            }
        }
        assert forall|b: u8| in_table(d, b) ==> b < e.0 by {
            if in_table(d, b) {
                let i = choose|i: int| 0 <= i < d.len() && (#[trigger] d[i]).0 == b && d[i].1 > 0;
                assert(t[i] == d[i]);
                assert(t[t.len() - 1] == e);
            }
        }
        assert forall|m: int| 0 <= m < nonzero_entries(t).len() implies (#[trigger] leaves_of(nonzero_entries(t))[m]).leaves_weighted(t) by {
            let n = nonzero_entries(t)[m];
            assert(count_in(t, n.0) == n.1);
        }
        if e.1 > 0 {
            let nt = r.push(e);
            assert(nt.drop_last() =~= r);
            assert(leaves_of(nt).drop_last() =~= leaves_of(r));
            let leaf = HuffmanNode::Leaf { weight: e.1, character: e.0 };
            assert(leaves_of(nt).last() == leaf);
            assert(leaf.symbols() == Multiset::singleton(e.0));
            assert forall|b: u8| #[trigger] symbols_of(leaves_of(nonzero_entries(t))).count(b) == if in_table(t, b) {
                1nat
            } else {
                0nat
            } by {
                assert(symbols_of(leaves_of(nt)) == symbols_of(leaves_of(r)).add(leaf.symbols()));
                assert(symbols_of(leaves_of(r)).count(b) == if in_table(d, b) { 1nat } else { 0nat });
            }
            assert(bytes_increasing(nt)) by {
                assert forall|i: int, j: int| 0 <= i < j < nt.len() implies (#[trigger] nt[i]).0 < (#[trigger] nt[j]).0 by {
                    if j < r.len() {
                        assert(nt[i] == r[i] && nt[j] == r[j]);
                    } else {
                        assert(nt[i] == r[i]);
                    }
                }
            }
        } else {
            assert forall|b: u8| #[trigger] symbols_of(leaves_of(nonzero_entries(t))).count(b) == if in_table(t, b) {
                1nat
            } else {
                0nat
            } by {
                assert(symbols_of(leaves_of(r)).count(b) == if in_table(d, b) { 1nat } else { 0nat });
            }
        }
    }
}

proof fn lemma_leaves_internal(t: Seq<(u8, u32)>)
    ensures
        internal_sum(leaves_of(t)) == 0,
    decreases t.len(),
{
    if t.len() > 0 {
        lemma_leaves_internal(t.drop_last());
        assert(leaves_of(t).drop_last() =~= leaves_of(t.drop_last()));
    }
}

/// A table whose counts are all above zero loses no entry.
pub proof fn lemma_nonzero_all(t: Seq<(u8, u32)>)
    requires
        forall|k: int| 0 <= k < t.len() ==> (#[trigger] t[k]).1 > 0,
    ensures
        nonzero_entries(t) == t,
    decreases t.len(),
{
    if t.len() > 0 {
        lemma_nonzero_all(t.drop_last());
        assert(t.drop_last().push(t.last()) =~= t);
    }
}

} // verus!
