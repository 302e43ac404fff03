use vstd::prelude::*;
use crate::bits::{bit_of, prefix_bits, lemma_set_bit};
use crate::tree::HuffmanNode;

verus! {

/// A code word: its first `length` bits of `bits`, most significant first,
/// with the remaining low-order bits zero.
#[derive(Clone, Copy, PartialEq, Eq, Debug)]
pub struct Code {
    pub bits: u8,
    pub length: u8,
}

/// The bit sequence that a code stands for.
pub open spec fn code_bits(c: Code) -> Seq<bool> {
    prefix_bits(c.bits, c.length as int)
}

/// Packs up to eight bits into the high-order end of a byte.
pub open spec fn pack(s: Seq<bool>) -> u8
    decreases s.len(),
{
    if s.len() == 0 {
        0
    } else {
        let p = pack(s.drop_last());
        if s.last() {
            p | (1u8 << ((7 - (s.len() - 1)) as u8))
        } else {
            p
        }
    }
}

/// The code of a bit sequence of at most eight bits.
pub open spec fn code_for(s: Seq<bool>) -> Code {
    Code { bits: pack(s), length: s.len() as u8 }
}

pub open spec fn opt_code(o: Option<Seq<bool>>) -> Option<Code> {
    match o {
        Some(s) => Some(code_for(s)),
        None => None,
    }
}

/// `p` is a prefix of `q`.
pub open spec fn is_prefix(p: Seq<bool>, q: Seq<bool>) -> bool {
    p.len() <= q.len() && q.take(p.len() as int) == p
}

/// The path from the root of `t` to the leaf of `b`: `false` for each left
/// edge, `true` for each right edge.
pub open spec fn path_of(t: HuffmanNode, b: u8) -> Option<Seq<bool>>
    decreases t,
{
    match t {
        HuffmanNode::Leaf { character, .. } => if character == b {
            Some(seq![])
        } else {
            None
        },
        HuffmanNode::Parent { left, right, .. } => match path_of(*left, b) {
            Some(p) => Some(seq![false] + p),
            None => match path_of(*right, b) {
                Some(p) => Some(seq![true] + p),
                None => None,
            },
        },
    }
}

/// The code word of `b` in the table derived from `t`. A tree of one leaf
/// gives its symbol the one-bit code `0`.
pub open spec fn code_of(t: HuffmanNode, b: u8) -> Option<Seq<bool>> {
    match t {
        HuffmanNode::Leaf { character, .. } => if character == b {
            Some(seq![false])
        } else {
            None
        },
        _ => path_of(t, b),
    }
}

/// No leaf symbol of `t` occurs twice.
pub open spec fn distinct_symbols(t: HuffmanNode) -> bool {
    forall|b: u8| #[trigger] t.symbols().count(b) <= 1
}

/// The code table: one slot per byte value.
pub struct EncodingTable {
    pub codes: Vec<Option<Code>>,
}

/// In a table of 256 slots, no code word is a prefix of the code word of
/// another byte value.
pub open spec fn prefix_free(codes: Seq<Option<Code>>) -> bool {
    forall|a: u8, b: u8|
        a != b && (#[trigger] codes[a as int]) is Some && (#[trigger] codes[b as int]) is Some
            ==> !is_prefix(code_bits(codes[a as int].unwrap()), code_bits(codes[b as int].unwrap()))
}

/// Packing keeps each bit in place and leaves the low-order rest zero.
pub proof fn lemma_pack(s: Seq<bool>)
    requires
        s.len() <= 8,
    ensures
        forall|i: int| 0 <= i < 8 ==> #[trigger] bit_of(pack(s), i) == (i < s.len() && s[i]),
        code_bits(code_for(s)) == s,
    decreases s.len(),
{
    if s.len() == 0 {
        assert forall|i: int| 0 <= i < 8 implies #[trigger] bit_of(pack(s), i) == (i < s.len() && s[i]) by {
            lemma_set_bit(0u8, 0, i);
        }
    } else {
        let d = s.drop_last();
        lemma_pack(d);
        assert forall|i: int| 0 <= i < 8 implies #[trigger] bit_of(pack(s), i) == (i < s.len() && s[i]) by {
            lemma_set_bit(pack(d), s.len() - 1, i);
            if i < d.len() {
                assert(d[i] == s[i]);
            }
        }
    }
    assert(code_bits(code_for(s)) =~= s);
}

/// A symbol has a path exactly when it is a leaf of the tree, and no path
/// is longer than the tree is deep.
pub proof fn lemma_path_of(t: HuffmanNode, b: u8)
    ensures
        path_of(t, b) is Some <==> t.symbols().count(b) > 0,
        path_of(t, b) matches Some(p) ==> p.len() <= t.depth(),
    decreases t,
{
    match t {
        HuffmanNode::Leaf { .. } => {},
        HuffmanNode::Parent { left, right, .. } => {
            lemma_path_of(*left, b);
            lemma_path_of(*right, b);
        },
    }
}

/// In a tree whose leaf symbols are distinct, the path of one symbol is
/// never a prefix of the path of another.
pub proof fn lemma_paths_prefix_free(t: HuffmanNode, a: u8, b: u8)
    requires
        distinct_symbols(t),
        a != b,
        path_of(t, a) is Some,
        path_of(t, b) is Some,
    ensures
        !is_prefix(path_of(t, a).unwrap(), path_of(t, b).unwrap()),
    decreases t,
{
    match t {
        HuffmanNode::Leaf { .. } => {},
        HuffmanNode::Parent { left, right, .. } => {
            assert(distinct_symbols(*left) && distinct_symbols(*right)) by {
                assert forall|x: u8| #[trigger] left.symbols().count(x) <= 1 by {
                    assert(t.symbols() == left.symbols().add(right.symbols()));
                    assert(t.symbols().count(x) == left.symbols().count(x) + right.symbols().count(x));
                }
                assert forall|x: u8| #[trigger] right.symbols().count(x) <= 1 by {
                    assert(t.symbols() == left.symbols().add(right.symbols()));
                    assert(t.symbols().count(x) == left.symbols().count(x) + right.symbols().count(x));
                }
            }
            lemma_path_of(*left, a);
            lemma_path_of(*left, b);
            lemma_path_of(*right, a);
            lemma_path_of(*right, b);
            assert(t.symbols().count(a) <= 1 && t.symbols().count(b) <= 1);
            let p = path_of(t, a).unwrap();
            let q = path_of(t, b).unwrap();
            if path_of(*left, a) is Some && path_of(*left, b) is Some {
                lemma_paths_prefix_free(*left, a, b);
                let pl = path_of(*left, a).unwrap();
                let ql = path_of(*left, b).unwrap();
                if is_prefix(p, q) {
                    assert(ql.take(pl.len() as int) =~= q.take(p.len() as int).drop_first());
                    assert(pl =~= p.drop_first());
                }
            } else if path_of(*right, a) is Some && path_of(*right, b) is Some {
                lemma_paths_prefix_free(*right, a, b);
                let pr = path_of(*right, a).unwrap();
                let qr = path_of(*right, b).unwrap();
                if is_prefix(p, q) {
                    assert(qr.take(pr.len() as int) =~= q.take(p.len() as int).drop_first());
                    assert(pr =~= p.drop_first());
                }
            } else {
                if is_prefix(p, q) {
                    assert(q.take(p.len() as int)[0] == q[0]);
                }
            }
        },
    }
}

/// The codes derived from a tree with distinct leaf symbols are prefix-free:
/// no symbol's code word is a prefix of another symbol's.
pub proof fn lemma_codes_prefix_free(t: HuffmanNode, a: u8, b: u8)
    requires
        distinct_symbols(t),
        a != b,
        code_of(t, a) is Some,
        code_of(t, b) is Some,
    ensures
        !is_prefix(code_of(t, a).unwrap(), code_of(t, b).unwrap()),
{
    match t {
        HuffmanNode::Leaf { .. } => {},
        HuffmanNode::Parent { .. } => {
            lemma_paths_prefix_free(t, a, b);
        },
    }
}

fn traverse(
    node: &HuffmanNode,
    code: Code,
    encoding_table: &mut Vec<Option<Code>>,
    Ghost(prefix): Ghost<Seq<bool>>,
)
    requires
        old(encoding_table)@.len() == 256,
        code == code_for(prefix),
        prefix.len() + node.depth() <= 8,
        distinct_symbols(*node),
    ensures
        final(encoding_table)@.len() == 256,
        forall|b: u8|
            #[trigger] final(encoding_table)@[b as int] == match path_of(*node, b) {
                Some(p) => Some(code_for(prefix + p)),
                None => old(encoding_table)@[b as int],
            },
    decreases node,
{
    match node {
        HuffmanNode::Leaf { character, .. } => {
            encoding_table.set(*character as usize, Some(Code { bits: code.bits, length: code.length }));
            assert forall|b: u8|
                #[trigger] encoding_table@[b as int] == match path_of(*node, b) {
                    Some(p) => Some(code_for(prefix + p)),
                    None => old(encoding_table)@[b as int],
                } by {
                assert(prefix + seq![] =~= prefix);
            }
        },
        HuffmanNode::Parent { left, right, .. } => {
            assert(distinct_symbols(**left) && distinct_symbols(**right)) by {
                assert forall|x: u8| #[trigger] left.symbols().count(x) <= 1 by {
                    assert(node.symbols() == left.symbols().add(right.symbols()));
                    assert(node.symbols().count(x) == left.symbols().count(x) + right.symbols().count(x));
                }
                assert forall|x: u8| #[trigger] right.symbols().count(x) <= 1 by {
                    assert(node.symbols() == left.symbols().add(right.symbols()));
                    assert(node.symbols().count(x) == left.symbols().count(x) + right.symbols().count(x));
                }
            }
            let ghost lp = prefix.push(false);
            let ghost rp = prefix.push(true);
            assert(lp.drop_last() =~= prefix);
            assert(rp.drop_last() =~= prefix);
            traverse(left, Code { bits: code.bits, length: code.length + 1 }, encoding_table, Ghost(lp));
            let right_bits = code.bits | 1u8 << (7 - code.length);
            traverse(right, Code { bits: right_bits, length: code.length + 1 }, encoding_table, Ghost(rp));
            assert forall|b: u8|
                #[trigger] encoding_table@[b as int] == match path_of(*node, b) {
                    Some(p) => Some(code_for(prefix + p)),
                    None => old(encoding_table)@[b as int],
                } by {
                lemma_path_of(**left, b);
                lemma_path_of(**right, b);
                assert(node.symbols().count(b) <= 1);
                match path_of(**left, b) {
                    Some(p) => {
                        assert(lp + p =~= prefix + (seq![false] + p));
                    },
                    None => match path_of(**right, b) {
                        Some(p) => {
                            assert(rp + p =~= prefix + (seq![true] + p));
                        },
                        None => {},
                    },
                }
            }
        },
    }
}

/// Derives the code table of a tree: each leaf symbol gets the path to its
/// leaf, `0` for a left edge and `1` for a right edge; a tree of one leaf
/// gives its symbol the code `0`. The tree must be at most eight levels deep,
/// so that each code fits in a byte.
pub fn build_encoding_table(tree: &HuffmanNode) -> (r: EncodingTable)
    requires
        tree.depth() <= 8,
        distinct_symbols(*tree),
    ensures
        r.codes@.len() == 256,
        forall|b: u8| #[trigger] r.codes@[b as int] == opt_code(code_of(*tree, b)),
        prefix_free(r.codes@),
{
    let mut codes: Vec<Option<Code>> = Vec::new();
    let mut k: usize = 0;
    while k < 256
        invariant
            k <= 256,
            codes@.len() == k,
            forall|j: int| 0 <= j < k ==> codes@[j] is None,
        decreases 256 - k,
    {
        codes.push(None);
        k = k + 1;
    }
    match tree {
        HuffmanNode::Leaf { character, .. } => {
            let ghost s = seq![false];
            proof {
                assert(s.drop_last() =~= Seq::<bool>::empty());
                assert(pack(s) == pack(Seq::<bool>::empty()));
                assert(code_for(s) == Code { bits: 0, length: 1 });
            }
            codes.set(*character as usize, Some(Code { bits: 0, length: 1 }));
            assert forall|b: u8| #[trigger] codes@[b as int] == opt_code(code_of(*tree, b)) by {
                if b == *character {
                    assert(code_of(*tree, b) == Some(s));
                }
            }
        },
        HuffmanNode::Parent { .. } => {
            proof {
                assert(code_for(Seq::<bool>::empty()) == Code { bits: 0, length: 0 });
            }
            traverse(tree, Code { bits: 0, length: 0 }, &mut codes, Ghost(Seq::<bool>::empty()));
            assert forall|b: u8| #[trigger] codes@[b as int] == opt_code(code_of(*tree, b)) by {
                match path_of(*tree, b) {
                    Some(p) => {
                        assert(Seq::<bool>::empty() + p =~= p);
                    },
                    None => {},
                }
            }
        },
    }
    proof {
        assert forall|a: u8, b: u8|
            a != b && (#[trigger] codes@[a as int]) is Some && (#[trigger] codes@[b as int]) is Some
                implies !is_prefix(code_bits(codes@[a as int].unwrap()), code_bits(codes@[b as int].unwrap())) by {
            lemma_codes_prefix_free(*tree, a, b);
            lemma_code_len(*tree, a);
            lemma_code_len(*tree, b);
            lemma_pack(code_of(*tree, a).unwrap());
            lemma_pack(code_of(*tree, b).unwrap());
        }
    }
    EncodingTable { codes }
}

/// Each code word of the table of `t` has between one and `max(depth, 1)` bits.
pub proof fn lemma_code_len(t: HuffmanNode, b: u8)
    ensures
        code_of(t, b) is Some <==> t.symbols().count(b) > 0,
        code_of(t, b) matches Some(p) ==> 1 <= p.len() && (p.len() <= t.depth() || p.len() == 1),
{
    lemma_path_of(t, b);
    match t {
        HuffmanNode::Leaf { .. } => {},
        HuffmanNode::Parent { .. } => {},
    }
}

} // verus!
