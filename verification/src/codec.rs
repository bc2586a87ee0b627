//! A self-describing binary encoding of the trie: little-endian lengths
//! and elements, a presence tag per value and per child slot, nodes laid
//! out recursively.  Reading and writing files around it belongs to the
//! caller; this module only turns tries into bytes and back.

use vstd::prelude::*;

verus! {

use crate::trie::NodeV;
use crate::trie::Node;
use crate::trie::Key;
use crate::trie::Trie;
use crate::trie::node_wf;
use crate::trie::kid_count;
use crate::trie::num_vals;

/// The eight little-endian bytes of a `u64`.
pub open spec fn enc_u64(x: u64) -> Seq<u8> {
    seq![
        (x & 0xff) as u8,
        ((x >> 8) & 0xff) as u8,
        ((x >> 16) & 0xff) as u8,
        ((x >> 24) & 0xff) as u8,
        ((x >> 32) & 0xff) as u8,
        ((x >> 40) & 0xff) as u8,
        ((x >> 48) & 0xff) as u8,
        ((x >> 56) & 0xff) as u8,
    ]
}

/// The eight little-endian bytes of an `i64`.
pub open spec fn enc_i64(x: i64) -> Seq<u8> {
    let u = x as u64;
    seq![
        (u & 0xff) as u8,
        ((u >> 8) & 0xff) as u8,
        ((u >> 16) & 0xff) as u8,
        ((u >> 24) & 0xff) as u8,
        ((u >> 32) & 0xff) as u8,
        ((u >> 40) & 0xff) as u8,
        ((u >> 48) & 0xff) as u8,
        ((u >> 56) & 0xff) as u8,
    ]
}

/// The first `i` elements of `s`, each as eight little-endian bytes.
pub open spec fn enc_elems(s: Seq<i64>, i: int) -> Seq<u8>
    decreases i,
{
    if i <= 0 {
        Seq::empty()
    } else {
        enc_elems(s, i - 1) + enc_i64(s[i - 1])
    }
}

/// A length-prefixed element sequence.
pub open spec fn enc_vals(s: Seq<i64>) -> Seq<u8> {
    enc_u64(s.len() as u64) + enc_elems(s, s.len() as int)
}

/// A node: its label, a tagged optional value, and 16 tagged slots.
pub open spec fn enc_node(n: NodeV) -> Seq<u8>
    decreases n, 17int,
{
    enc_vals(n.key) + (match n.val {
        Some(v) => seq![1u8] + enc_vals(v),
        None => seq![0u8],
    }) + enc_kids(n.children, 0)
}

pub open spec fn enc_kids(cs: Seq<Option<NodeV>>, i: int) -> Seq<u8>
    decreases cs, cs.len() - i,
{
    if i < 0 || i >= cs.len() {
        Seq::empty()
    } else {
        (match cs[i] {
            Some(c) => seq![1u8] + enc_node(c),
            None => seq![0u8],
        }) + enc_kids(cs, i + 1)
    }
}

/// The whole trie: its root node.
pub open spec fn enc_trie(root: NodeV) -> Seq<u8> {
    enc_node(root)
}

/// The slots of `[0, i)`, encoded in order.
pub open spec fn enc_kids_upto(cs: Seq<Option<NodeV>>, i: int) -> Seq<u8>
    decreases i,
{
    if i <= 0 {
        Seq::empty()
    } else {
        enc_kids_upto(cs, i - 1) + (match cs[i - 1] {
            Some(c) => seq![1u8] + enc_node(c),
            None => seq![0u8],
        })
    }
}

proof fn lemma_enc_kids_upto(cs: Seq<Option<NodeV>>, i: int)
    requires
        0 <= i <= cs.len(),
    ensures
        enc_kids_upto(cs, i) + enc_kids(cs, i) == enc_kids(cs, 0),
    decreases i,
{
    if i == 0 {
        assert(enc_kids_upto(cs, 0) + enc_kids(cs, 0) =~= enc_kids(cs, 0));
    } else {
        lemma_enc_kids_upto(cs, i - 1);
        assert(enc_kids_upto(cs, i) + enc_kids(cs, i) =~= enc_kids_upto(cs, i - 1) + enc_kids(
            cs,
            i - 1,
        ));
    }
}

pub(crate) fn push_u64(out: &mut Vec<u8>, x: u64)
    ensures
        final(out)@ == old(out)@ + enc_u64(x),
{
    out.push((x & 0xff) as u8);
    out.push(((x >> 8) & 0xff) as u8);
    out.push(((x >> 16) & 0xff) as u8);
    out.push(((x >> 24) & 0xff) as u8);
    out.push(((x >> 32) & 0xff) as u8);
    out.push(((x >> 40) & 0xff) as u8);
    out.push(((x >> 48) & 0xff) as u8);
    out.push(((x >> 56) & 0xff) as u8);
    proof {
        assert(final(out)@ =~= old(out)@ + enc_u64(x));
    }
}

pub(crate) fn push_i64(out: &mut Vec<u8>, x: i64)
    ensures
        final(out)@ == old(out)@ + enc_i64(x),
{
    let u = x as u64;
    out.push((u & 0xff) as u8);
    out.push(((u >> 8) & 0xff) as u8);
    out.push(((u >> 16) & 0xff) as u8);
    out.push(((u >> 24) & 0xff) as u8);
    out.push(((u >> 32) & 0xff) as u8);
    out.push(((u >> 40) & 0xff) as u8);
    out.push(((u >> 48) & 0xff) as u8);
    out.push(((u >> 56) & 0xff) as u8);
    proof {
        assert(final(out)@ =~= old(out)@ + enc_i64(x));
    }
}

fn push_vals(out: &mut Vec<u8>, vals: &Vec<i64>)
    ensures
        final(out)@ == old(out)@ + enc_vals(vals@),
{
    push_u64(out, vals.len() as u64);
    let mut i: usize = 0;
    while i < vals.len()
        invariant
            i <= vals@.len(),
            out@ == old(out)@ + enc_u64(vals@.len() as u64) + enc_elems(vals@, i as int),
        decreases vals@.len() - i,
    {
        let x = vals[i];
        push_i64(out, x);
        proof {
            assert(out@ =~= old(out)@ + enc_u64(vals@.len() as u64) + enc_elems(vals@, i + 1));
        }
        i += 1;
    }
    proof {
        assert(final(out)@ =~= old(out)@ + enc_vals(vals@));
    }
}

/// Append the encoding of the subtree at `node` to `out`.
pub(crate) fn encode_node(node: &Node, out: &mut Vec<u8>)
    requires
        node_wf(node@),
    ensures
        final(out)@ == old(out)@ + enc_node(node@),
        sized_ok(node@),
    decreases node@,
{
    let ghost _own_len = node.key.data.len();
    let _key_len = node.key.data.len();
    let _val_len_ok = match &node.val {
        Some(v) => v.len(),
        None => 0,
    };
    proof {
        crate::trie::lemma_kids_view(node.children@);
    }
    push_vals(out, &node.key.data);
    match &node.val {
        Some(v) => {
            out.push(1u8);
            push_vals(out, v);
            proof {
                assert(out@ =~= old(out)@ + enc_vals(node@.key) + (seq![1u8] + enc_vals(v@)));
            }
        },
        None => {
            out.push(0u8);
            proof {
                assert(out@ =~= old(out)@ + enc_vals(node@.key) + seq![0u8]);
            }
        },
    }
    let ghost head = out@;
    let mut i: usize = 0;
    while i < 16
        invariant
            i <= 16,
            node_wf(node@),
            node@.children.len() == 16,
            node.children@.len() == 16,
            out@ == head + enc_kids_upto(node@.children, i as int),
            forall|j: int|
                0 <= j < i ==> (match #[trigger] node@.children[j] {
                    Some(c) => sized_ok(c),
                    None => true,
                }),
        decreases 16 - i,
    {
        proof {
            crate::trie::lemma_kids_view(node.children@);
        }
        match &node.children[i] {
            Some(child) => {
                proof {
                    crate::trie::lemma_kids_wf_index(node@.children, 0, i as int);
                }
                out.push(1u8);
                encode_node(child, out);
                proof {
                    assert(out@ =~= head + enc_kids_upto(node@.children, i + 1));
                }
            },
            None => {
                out.push(0u8);
                proof {
                    assert(out@ =~= head + enc_kids_upto(node@.children, i + 1));
                }
            },
        }
        i += 1;
    }
    proof {
        lemma_enc_kids_upto(node@.children, 16);
        assert(final(out)@ =~= old(out)@ + enc_node(node@));
        lemma_kids_sized_build(node@.children, 0);
    }
}

} // verus!

verus! {

/// The bytes do not hold a validly-encoded trie: truncated input, an
/// impossible length, an out-of-place child, or trailing garbage.
#[derive(Debug, PartialEq, Eq)]
pub struct DecodeError;

pub(crate) fn read_u64(b: &Vec<u8>, pos: usize) -> (r: Result<(u64, usize), DecodeError>)
    ensures
        match r {
            Ok((x, p2)) => p2 == pos + 8 && p2 <= b@.len() && enc_u64(x) == b@.subrange(
                pos as int,
                p2 as int,
            ),
            Err(_) => pos + 8 > b@.len(),
        },
{
    if b.len() < 8 || pos > b.len() - 8 {
        return Err(DecodeError);
    }
    let b0 = b[pos] as u64;
    let b1 = b[pos + 1] as u64;
    let b2 = b[pos + 2] as u64;
    let b3 = b[pos + 3] as u64;
    let b4 = b[pos + 4] as u64;
    let b5 = b[pos + 5] as u64;
    let b6 = b[pos + 6] as u64;
    let b7 = b[pos + 7] as u64;
    let x = b0 | (b1 << 8) | (b2 << 16) | (b3 << 24) | (b4 << 32) | (b5 << 40) | (b6 << 48) | (b7
        << 56);
    proof {
        assert((x & 0xff) == b0 && ((x >> 8) & 0xff) == b1 && ((x >> 16) & 0xff) == b2 && ((x >> 24)
            & 0xff) == b3 && ((x >> 32) & 0xff) == b4 && ((x >> 40) & 0xff) == b5 && ((x >> 48)
            & 0xff) == b6 && ((x >> 56) & 0xff) == b7) by (bit_vector)
            requires
                x == b0 | (b1 << 8) | (b2 << 16) | (b3 << 24) | (b4 << 32) | (b5 << 40) | (b6 << 48)
                    | (b7 << 56),
                b0 <= 0xff,
                b1 <= 0xff,
                b2 <= 0xff,
                b3 <= 0xff,
                b4 <= 0xff,
                b5 <= 0xff,
                b6 <= 0xff,
                b7 <= 0xff,
        ;
        assert(enc_u64(x) =~= b@.subrange(pos as int, pos + 8));
    }
    Ok((x, pos + 8))
}

pub(crate) fn read_i64(b: &Vec<u8>, pos: usize) -> (r: Result<(i64, usize), DecodeError>)
    ensures
        match r {
            Ok((x, p2)) => p2 == pos + 8 && p2 <= b@.len() && enc_i64(x) == b@.subrange(
                pos as int,
                p2 as int,
            ),
            Err(_) => pos + 8 > b@.len(),
        },
{
    match read_u64(b, pos) {
        Ok((u, p2)) => {
            let x = u as i64;
            proof {
                assert((u as i64) as u64 == u) by (bit_vector);
                assert(enc_i64(x) =~= enc_u64(u));
            }
            Ok((x, p2))
        },
        Err(e) => Err(e),
    }
}

proof fn lemma_enc_elems_agree(s1: Seq<i64>, s2: Seq<i64>, i: int)
    requires
        i <= s1.len(),
        i <= s2.len(),
        forall|j: int| 0 <= j < i ==> s1[j] == s2[j],
    ensures
        enc_elems(s1, i) == enc_elems(s2, i),
    decreases i,
{
    if i > 0 {
        lemma_enc_elems_agree(s1, s2, i - 1);
    }
}

/// On failure, no element sequence of machine size is encoded at `pos`.
pub open spec fn no_vals_at(b: Seq<u8>, pos: int) -> bool {
    0 <= pos <= b.len() ==> forall|s: Seq<i64>, rest: Seq<u8>|
        s.len() <= usize::MAX ==> b.subrange(pos, b.len() as int) != #[trigger] (enc_vals(s)
            + rest)
}

/// A length-prefixed encoding at `pos` fixes the length word and aligns
/// the elements right after it.
proof fn lemma_vals_head(b: Seq<u8>, pos: int, len64: u64, s: Seq<i64>, rest: Seq<u8>)
    requires
        0 <= pos,
        pos + 8 <= b.len(),
        enc_u64(len64) == b.subrange(pos, pos + 8),
        b.subrange(pos, b.len() as int) == enc_vals(s) + rest,
    ensures
        len64 == s.len() as u64,
        b.subrange(pos + 8, b.len() as int) == enc_elems(s, s.len() as int) + rest,
        b.len() - (pos + 8) == 8 * s.len() + rest.len(),
{
    lemma_enc_elems_len(s, s.len() as int);
    assert(b.subrange(pos, b.len() as int) =~= enc_u64(s.len() as u64) + (enc_elems(
        s,
        s.len() as int,
    ) + rest));
    assert(b.subrange(pos, b.len() as int) =~= enc_u64(len64) + b.subrange(
        pos + 8,
        b.len() as int,
    ));
    lemma_enc_u64_prefix(
        len64,
        s.len() as u64,
        b.subrange(pos + 8, b.len() as int),
        enc_elems(s, s.len() as int) + rest,
    );
}

fn read_vals(b: &Vec<u8>, pos: usize) -> (r: Result<(Vec<i64>, usize), DecodeError>)
    ensures
        match r {
            Ok((v, p2)) => pos < p2 <= b@.len() && enc_vals(v@) == b@.subrange(
                pos as int,
                p2 as int,
            ),
            Err(_) => no_vals_at(b@, pos as int),
        },
{
    let (len64, p1) = match read_u64(b, pos) {
        Ok(x) => x,
        Err(e) => {
            proof {
                if pos <= b@.len() {
                    assert forall|s: Seq<i64>, rest: Seq<u8>|
                        s.len() <= usize::MAX implies b@.subrange(pos as int, b@.len() as int)
                        != #[trigger] (enc_vals(s) + rest) by {
                        if b@.subrange(pos as int, b@.len() as int) == enc_vals(s) + rest {
                            assert((enc_vals(s) + rest).len() >= 8);
                            assert(false);
                        }
                    }
                }
            }
            return Err(e);
        },
    };
    if len64 > (usize::MAX as u64) {
        proof {
            if pos <= b@.len() {
                assert forall|s: Seq<i64>, rest: Seq<u8>|
                    s.len() <= usize::MAX implies b@.subrange(pos as int, b@.len() as int)
                    != #[trigger] (enc_vals(s) + rest) by {
                    if b@.subrange(pos as int, b@.len() as int) == enc_vals(s) + rest {
                        lemma_vals_head(b@, pos as int, len64, s, rest);
                        assert(false);
                    }
                }
            }
        }
        return Err(DecodeError);
    }
    let count = len64 as usize;
    if (b.len() - p1) / 8 < count {
        proof {
            if pos <= b@.len() {
                assert forall|s: Seq<i64>, rest: Seq<u8>|
                    s.len() <= usize::MAX implies b@.subrange(pos as int, b@.len() as int)
                    != #[trigger] (enc_vals(s) + rest) by {
                    if b@.subrange(pos as int, b@.len() as int) == enc_vals(s) + rest {
                        lemma_vals_head(b@, pos as int, len64, s, rest);
                        assert(b@.len() - p1 >= 8 * s.len());
                        vstd::arithmetic::div_mod::lemma_div_is_ordered(
                            8 * s.len() as int,
                            b@.len() as int - p1 as int,
                            8,
                        );
                        vstd::arithmetic::div_mod::lemma_div_multiples_vanish(s.len() as int, 8);
                        assert((8 * s.len()) / 8 == s.len());
                        assert((b@.len() - p1) / 8 >= s.len());
                        assert(false);
                    }
                }
            }
        }
        return Err(DecodeError);
    }
    let mut v: Vec<i64> = Vec::new();
    let mut i: usize = 0;
    let mut p: usize = p1;
    while i < count
        invariant
            i <= count,
            p == p1 + 8 * i,
            p1 + 8 * count <= b@.len(),
            v@.len() == i,
            b@.subrange(p1 as int, p as int) == enc_elems(v@, i as int),
            count == len64,
            pos + 8 == p1,
            enc_u64(len64) == b@.subrange(pos as int, p1 as int),
        decreases count - i,
    {
        let (x, p2) = match read_i64(b, p) {
            Ok(x) => x,
            Err(e) => {
                return Err(e);
            },
        };
        let ghost v_pre = v@;
        v.push(x);
        proof {
            lemma_enc_elems_agree(v_pre, v@, i as int);
            assert(b@.subrange(p1 as int, p2 as int) =~= b@.subrange(p1 as int, p as int)
                + b@.subrange(p as int, p2 as int));
            assert(enc_elems(v@, i + 1) == enc_elems(v@, i as int) + enc_i64(v@[i as int]));
        }
        p = p2;
        i += 1;
    }
    proof {
        assert(enc_vals(v@) =~= b@.subrange(pos as int, p as int));
    }
    Ok((v, p))
}

} // verus!

verus! {

use crate::trie::kids_view;
use crate::trie::lemma_kids_view;
use crate::trie::node_view;
use crate::trie::empty_children;
use crate::trie::elem_bucket;
use crate::trie::bucket_of;
use crate::trie::kids_wf;
use crate::trie::count_somes;
use crate::trie::vals_below;
use crate::trie::lemma_kids_wf_index;

proof fn lemma_enc_kids_upto_agree(cs1: Seq<Option<NodeV>>, cs2: Seq<Option<NodeV>>, i: int)
    requires
        i <= cs1.len(),
        i <= cs2.len(),
        forall|j: int| 0 <= j < i ==> cs1[j] == cs2[j],
    ensures
        enc_kids_upto(cs1, i) == enc_kids_upto(cs2, i),
    decreases i,
{
    if i > 0 {
        lemma_enc_kids_upto_agree(cs1, cs2, i - 1);
    }
}

/// No node can be encoded where no machine-sized element sequence is.
proof fn lemma_no_node_key(b: Seq<u8>, pos: int)
    requires
        no_vals_at(b, pos),
    ensures
        no_node_at(b, pos),
{
    if 0 <= pos <= b.len() {
        assert forall|n: NodeV, rest: Seq<u8>| node_wf(n) && sized_ok(n) implies b.subrange(
            pos,
            b.len() as int,
        ) != #[trigger] (enc_node(n) + rest) by {
            if b.subrange(pos, b.len() as int) == enc_node(n) + rest {
                let vp = (match n.val {
                    Some(v) => seq![1u8] + enc_vals(v),
                    None => seq![0u8],
                });
                assert(b.subrange(pos, b.len() as int) =~= enc_vals(n.key) + (vp + (enc_kids(
                    n.children,
                    0,
                ) + rest)));
                assert(false);
            }
        }
    }
}

/// No node can be encoded when the bytes end right after its label.
proof fn lemma_no_node_short(b: Seq<u8>, pos: int, p1: int, kv: Seq<i64>)
    requires
        0 <= pos <= p1 <= b.len(),
        b.subrange(pos, p1) == enc_vals(kv),
        kv.len() <= usize::MAX,
        p1 >= b.len(),
    ensures
        no_node_at(b, pos),
{
    assert forall|n: NodeV, rest: Seq<u8>| node_wf(n) && sized_ok(n) implies b.subrange(
        pos,
        b.len() as int,
    ) != #[trigger] (enc_node(n) + rest) by {
        if b.subrange(pos, b.len() as int) == enc_node(n) + rest {
            lemma_head_key(b, pos, p1, kv, n, rest);
            assert(b.subrange(p1, b.len() as int).len() >= 1);
            assert(false);
        }
    }
}

/// No node can be encoded under a value tag other than zero or one.
proof fn lemma_no_node_tag(b: Seq<u8>, pos: int, p1: int, kv: Seq<i64>)
    requires
        0 <= pos <= p1 < b.len(),
        b.subrange(pos, p1) == enc_vals(kv),
        kv.len() <= usize::MAX,
        b[p1] != 0u8,
        b[p1] != 1u8,
    ensures
        no_node_at(b, pos),
{
    assert forall|n: NodeV, rest: Seq<u8>| node_wf(n) && sized_ok(n) implies b.subrange(
        pos,
        b.len() as int,
    ) != #[trigger] (enc_node(n) + rest) by {
        if b.subrange(pos, b.len() as int) == enc_node(n) + rest {
            lemma_head_key(b, pos, p1, kv, n, rest);
            assert(b.subrange(p1, b.len() as int)[0] == b[p1]);
            match n.val {
                Some(w) => {
                    assert(b[p1] == 1u8);
                },
                None => {
                    assert(b[p1] == 0u8);
                },
            }
            assert(false);
        }
    }
}

/// No node can be encoded when the tagged value that should follow the
/// label is not a machine-sized element sequence.
proof fn lemma_no_node_val(b: Seq<u8>, pos: int, p1: int, kv: Seq<i64>)
    requires
        0 <= pos <= p1 < b.len(),
        b.subrange(pos, p1) == enc_vals(kv),
        kv.len() <= usize::MAX,
        b[p1] == 1u8,
        no_vals_at(b, p1 + 1),
    ensures
        no_node_at(b, pos),
{
    assert forall|n: NodeV, rest: Seq<u8>| node_wf(n) && sized_ok(n) implies b.subrange(
        pos,
        b.len() as int,
    ) != #[trigger] (enc_node(n) + rest) by {
        if b.subrange(pos, b.len() as int) == enc_node(n) + rest {
            lemma_head_key(b, pos, p1, kv, n, rest);
            assert(b.subrange(p1, b.len() as int)[0] == b[p1]);
            match n.val {
                Some(w) => {
                    assert(b.subrange(p1, b.len() as int) =~= seq![1u8] + b.subrange(
                        p1 + 1,
                        b.len() as int,
                    ));
                    assert(b.subrange(p1, b.len() as int) =~= seq![1u8] + (enc_vals(w) + (enc_kids(
                        n.children,
                        0,
                    ) + rest)));
                    lemma_concat_cancel(
                        seq![1u8],
                        b.subrange(p1 + 1, b.len() as int),
                        seq![1u8],
                        enc_vals(w) + (enc_kids(n.children, 0) + rest),
                    );
                    assert(false);
                },
                None => {
                    assert(b[p1] == 0u8);
                    assert(false);
                },
            }
        }
    }
}

/// The facts the slot loop carries, gathered so the refutation lemmas can
/// take them in one piece.
pub open spec fn loop_state(
    b: Seq<u8>,
    pos: int,
    p1: int,
    head_end: int,
    kv: Seq<i64>,
    val_v: Option<Seq<i64>>,
    cur: Seq<Option<NodeV>>,
    i: int,
    p: int,
) -> bool {
    &&& 0 <= pos <= p1 <= head_end <= p <= b.len()
    &&& b.subrange(pos, p1) == enc_vals(kv)
    &&& kv.len() <= usize::MAX
    &&& b.subrange(pos, head_end) == enc_vals(kv) + (match val_v {
        Some(v) => seq![1u8] + enc_vals(v),
        None => seq![0u8],
    })
    &&& (match val_v {
        Some(v) => v.len() <= usize::MAX,
        None => true,
    })
    &&& 0 <= i <= 16
    &&& cur.len() == 16
    &&& (forall|j: int|
        0 <= j < i ==> (match #[trigger] cur[j] {
            Some(c) => node_wf(c) && sized_ok(c),
            None => true,
        }))
    &&& b.subrange(head_end, p) == enc_kids_upto(cur, i)
}

/// No node can be encoded when the bytes end inside the slot row.
proof fn lemma_no_node_kids_short(
    b: Seq<u8>,
    pos: int,
    p1: int,
    head_end: int,
    kv: Seq<i64>,
    val_v: Option<Seq<i64>>,
    cur: Seq<Option<NodeV>>,
    i: int,
    p: int,
)
    requires
        loop_state(b, pos, p1, head_end, kv, val_v, cur, i, p),
        i < 16,
        p >= b.len(),
    ensures
        no_node_at(b, pos),
{
    assert forall|n: NodeV, rest: Seq<u8>| node_wf(n) && sized_ok(n) implies b.subrange(
        pos,
        b.len() as int,
    ) != #[trigger] (enc_node(n) + rest) by {
        if b.subrange(pos, b.len() as int) == enc_node(n) + rest {
            lemma_loop_align(b, pos, p1, head_end, kv, val_v, cur, i, p, n, rest);
            assert(b.subrange(p, b.len() as int).len() >= 1);
            assert(false);
        }
    }
}

/// No node can be encoded under a slot tag other than zero or one.
proof fn lemma_no_node_kids_tag(
    b: Seq<u8>,
    pos: int,
    p1: int,
    head_end: int,
    kv: Seq<i64>,
    val_v: Option<Seq<i64>>,
    cur: Seq<Option<NodeV>>,
    i: int,
    p: int,
)
    requires
        loop_state(b, pos, p1, head_end, kv, val_v, cur, i, p),
        i < 16,
        p < b.len(),
        b[p] != 0u8,
        b[p] != 1u8,
    ensures
        no_node_at(b, pos),
{
    assert forall|n: NodeV, rest: Seq<u8>| node_wf(n) && sized_ok(n) implies b.subrange(
        pos,
        b.len() as int,
    ) != #[trigger] (enc_node(n) + rest) by {
        if b.subrange(pos, b.len() as int) == enc_node(n) + rest {
            lemma_loop_align(b, pos, p1, head_end, kv, val_v, cur, i, p, n, rest);
            assert(b.subrange(p, b.len() as int)[0] == b[p]);
            match n.children[i] {
                Some(c) => {
                    assert(b[p] == 1u8);
                },
                None => {
                    assert(b[p] == 0u8);
                },
            }
            assert(false);
        }
    }
}

/// No node can be encoded when the occupied slot that should follow does
/// not hold a validly-encoded child.
proof fn lemma_no_node_kids_child(
    b: Seq<u8>,
    pos: int,
    p1: int,
    head_end: int,
    kv: Seq<i64>,
    val_v: Option<Seq<i64>>,
    cur: Seq<Option<NodeV>>,
    i: int,
    p: int,
)
    requires
        loop_state(b, pos, p1, head_end, kv, val_v, cur, i, p),
        i < 16,
        p < b.len(),
        b[p] == 1u8,
        no_node_at(b, p + 1),
    ensures
        no_node_at(b, pos),
{
    assert forall|n: NodeV, rest: Seq<u8>| node_wf(n) && sized_ok(n) implies b.subrange(
        pos,
        b.len() as int,
    ) != #[trigger] (enc_node(n) + rest) by {
        if b.subrange(pos, b.len() as int) == enc_node(n) + rest {
            lemma_loop_align(b, pos, p1, head_end, kv, val_v, cur, i, p, n, rest);
            assert(b.subrange(p, b.len() as int)[0] == b[p]);
            match n.children[i] {
                Some(c) => {
                    crate::trie::lemma_kids_wf_index(n.children, 0, i);
                    lemma_kids_sized_index(n.children, 0, i);
                    assert(b.subrange(p, b.len() as int) =~= seq![1u8] + b.subrange(
                        p + 1,
                        b.len() as int,
                    ));
                    assert(b.subrange(p, b.len() as int) =~= seq![1u8] + (enc_node(c) + (enc_kids(
                        n.children,
                        i + 1,
                    ) + rest)));
                    lemma_concat_cancel(
                        seq![1u8],
                        b.subrange(p + 1, b.len() as int),
                        seq![1u8],
                        enc_node(c) + (enc_kids(n.children, i + 1) + rest),
                    );
                    assert(false);
                },
                None => {
                    assert(b[p] == 0u8);
                    assert(false);
                },
            }
        }
    }
}

/// A parsed child occupying slot `i` agrees with any encoding of the
/// whole run, so the well-formedness checks on it cannot fail.
proof fn lemma_kids_child_agrees(
    b: Seq<u8>,
    pos: int,
    p1: int,
    head_end: int,
    kv: Seq<i64>,
    val_v: Option<Seq<i64>>,
    cur: Seq<Option<NodeV>>,
    i: int,
    p: int,
    child: NodeV,
    pc: int,
    n: NodeV,
    rest: Seq<u8>,
)
    requires
        loop_state(b, pos, p1, head_end, kv, val_v, cur, i, p),
        i < 16,
        p < b.len(),
        b[p] == 1u8,
        node_wf(child),
        sized_ok(child),
        p + 1 < pc <= b.len(),
        enc_node(child) == b.subrange(p + 1, pc),
        node_wf(n),
        sized_ok(n),
        b.subrange(pos, b.len() as int) == enc_node(n) + rest,
    ensures
        n.children[i] == Some(child),
        child.key.len() > 0,
        bucket_of(child.key[0]) == i,
{
    lemma_loop_align(b, pos, p1, head_end, kv, val_v, cur, i, p, n, rest);
    assert(b.subrange(p, b.len() as int)[0] == b[p]);
    match n.children[i] {
        Some(c) => {
            crate::trie::lemma_kids_wf_index(n.children, 0, i);
            lemma_kids_sized_index(n.children, 0, i);
            assert(b.subrange(p, b.len() as int) =~= seq![1u8] + b.subrange(p + 1, b.len() as int));
            assert(b.subrange(p, b.len() as int) =~= seq![1u8] + (enc_node(c) + (enc_kids(
                n.children,
                i + 1,
            ) + rest)));
            lemma_concat_cancel(
                seq![1u8],
                b.subrange(p + 1, b.len() as int),
                seq![1u8],
                enc_node(c) + (enc_kids(n.children, i + 1) + rest),
            );
            assert(b.subrange(p + 1, b.len() as int) =~= enc_node(child) + b.subrange(
                pc,
                b.len() as int,
            ));
            lemma_enc_node_prefix(child, c, b.subrange(pc, b.len() as int), enc_kids(
                n.children,
                i + 1,
            ) + rest);
        },
        None => {
            assert(b[p] == 0u8);
            assert(false);
        },
    }
}

/// Parse one node and its subtree from `b` at `pos`, rebuilding a
/// well-formed node whose encoding is exactly the bytes consumed.  A
/// failure means no well-formed machine-sized node is encoded there.
pub(crate) fn decode_node(b: &Vec<u8>, pos: usize) -> (r: Result<(Node, usize), DecodeError>)
    ensures
        match r {
            Ok((n, p2)) => pos < p2 <= b@.len() && node_wf(n@) && sized_ok(n@) && enc_node(n@)
                == b@.subrange(pos as int, p2 as int),
            Err(_) => no_node_at(b@, pos as int),
        },
    decreases b@.len() - pos,
{
    let (key_vec, p1) = match read_vals(b, pos) {
        Ok(x) => x,
        Err(e) => {
            proof {
                lemma_no_node_key(b@, pos as int);
            }
            return Err(e);
        },
    };
    let key_len_now = key_vec.len();
    if p1 >= b.len() {
        proof {
            lemma_no_node_short(b@, pos as int, p1 as int, key_vec@);
        }
        return Err(DecodeError);
    }
    let tag = b[p1];
    let mut p: usize = p1 + 1;
    let val: Option<Vec<i64>> = if tag == 1 {
        let (v, pv) = match read_vals(b, p) {
            Ok(x) => x,
            Err(e) => {
                proof {
                    lemma_no_node_val(b@, pos as int, p1 as int, key_vec@);
                }
                return Err(e);
            },
        };
        p = pv;
        Some(v)
    } else if tag == 0 {
        None
    } else {
        proof {
            lemma_no_node_tag(b@, pos as int, p1 as int, key_vec@);
        }
        return Err(DecodeError);
    };
    let val_len_now = match &val {
        Some(v) => v.len(),
        None => 0,
    };
    let ghost val_v = crate::trie::opt_val_view(val);
    let ghost head_end = p as int;
    proof {
        assert(b@.subrange(pos as int, head_end) =~= enc_vals(key_vec@) + (match val_v {
            Some(v) => seq![1u8] + enc_vals(v),
            None => seq![0u8],
        }));
    }
    let mut children = empty_children();
    let mut count: i32 = 0;
    let mut i: usize = 0;
    proof {
        lemma_kids_view(children@);
        crate::trie::lemma_count_somes_none(kids_view(children@, 0), 0);
        assert(b@.subrange(head_end, head_end) =~= enc_kids_upto(kids_view(children@, 0), 0));
    }
    while i < 16
        invariant
            i <= 16,
            children@.len() == 16,
            forall|j: int| i <= j < 16 ==> children@[j] is None,
            forall|j: int|
                0 <= j < i ==> (match #[trigger] kids_view(children@, 0)[j] {
                    Some(c) => c.key.len() > 0 && bucket_of(c.key[0]) == j && node_wf(c)
                        && sized_ok(c),
                    None => true,
                }),
            count as int == count_somes(kids_view(children@, 0), 0),
            0 <= count <= i,
            head_end <= p as int <= b@.len(),
            b@.subrange(head_end, p as int) == enc_kids_upto(kids_view(children@, 0), i as int),
            loop_state(
                b@,
                pos as int,
                p1 as int,
                head_end,
                key_vec@,
                val_v,
                kids_view(children@, 0),
                i as int,
                p as int,
            ),
            pos < head_end,
        decreases 16 - i,
    {
        proof {
            lemma_kids_view(children@);
        }
        let ghost kids_pre = kids_view(children@, 0);
        if p >= b.len() {
            proof {
                lemma_no_node_kids_short(
                    b@,
                    pos as int,
                    p1 as int,
                    head_end,
                    key_vec@,
                    val_v,
                    kids_pre,
                    i as int,
                    p as int,
                );
            }
            return Err(DecodeError);
        }
        let ctag = b[p];
        if ctag == 1 {
            let (child, pc) = match decode_node(b, p + 1) {
                Ok(x) => x,
                Err(e) => {
                    proof {
                        lemma_no_node_kids_child(
                            b@,
                            pos as int,
                            p1 as int,
                            head_end,
                            key_vec@,
                            val_v,
                            kids_pre,
                            i as int,
                            p as int,
                        );
                    }
                    return Err(e);
                },
            };
            let child_key_len = child.key.len();
            let cb = elem_bucket_or_zero(&child);
            if child_key_len == 0 || cb != i {
                proof {
                    assert forall|n: NodeV, rest: Seq<u8>|
                        node_wf(n) && sized_ok(n) implies b@.subrange(pos as int, b@.len() as int)
                        != #[trigger] (enc_node(n) + rest) by {
                        if b@.subrange(pos as int, b@.len() as int) == enc_node(n) + rest {
                            lemma_kids_child_agrees(
                                b@,
                                pos as int,
                                p1 as int,
                                head_end,
                                key_vec@,
                                val_v,
                                kids_pre,
                                i as int,
                                p as int,
                                child@,
                                pc as int,
                                n,
                                rest,
                            );
                            assert(false);
                        }
                    }
                }
                return Err(DecodeError);
            }
            let ghost child_v = child@;
            children[i] = Some(Box::new(child));
            count = count + 1;
            proof {
                lemma_kids_view(children@);
                let kids_now = kids_view(children@, 0);
                assert(kids_now =~= kids_pre.update(i as int, Some(child_v)));
                crate::trie::lemma_count_somes_update(kids_pre, i as int, Some(child_v), 0);
                lemma_enc_kids_upto_agree(kids_pre, kids_now, i as int);
                assert(b@.subrange(head_end, pc as int) =~= b@.subrange(head_end, p as int) + (seq![
                    1u8,
                ] + enc_node(child_v)));
                assert(b@.subrange(head_end, pc as int) == enc_kids_upto(kids_now, i + 1));
            }
            p = pc;
        } else if ctag == 0 {
            proof {
                assert(b@.subrange(head_end, p + 1) =~= b@.subrange(head_end, p as int) + seq![0u8]);
                assert(b@.subrange(head_end, p + 1) == enc_kids_upto(kids_pre, i + 1));
            }
            p = p + 1;
        } else {
            proof {
                lemma_no_node_kids_tag(
                    b@,
                    pos as int,
                    p1 as int,
                    head_end,
                    key_vec@,
                    val_v,
                    kids_pre,
                    i as int,
                    p as int,
                );
            }
            return Err(DecodeError);
        }
        i += 1;
    }
    let node = Node { key: Key::new(key_vec), val, children, child_count: count };
    proof {
        lemma_kids_view(node.children@);
        crate::trie::lemma_kids_wf_build(node@.children, 0);
        lemma_kids_sized_build(node@.children, 0);
        lemma_enc_kids_upto_full(node@.children);
        assert(node_wf(node@));
        assert(sized_ok(node@));
        assert(enc_node(node@) =~= b@.subrange(pos as int, p as int));
    }
    Ok((node, p))
}

/// The bucket of the child's first label element, or zero when the label
/// is empty (that case is rejected by the caller).
fn elem_bucket_or_zero(child: &Node) -> (r: usize)
    ensures
        child.key@.len() > 0 ==> r == bucket_of(child.key@[0]) && r < 16,
{
    if child.key.data.len() == 0 {
        0
    } else {
        elem_bucket(child.data_at(0))
    }
}

proof fn lemma_enc_kids_upto_full(cs: Seq<Option<NodeV>>)
    requires
        cs.len() == 16,
    ensures
        enc_kids_upto(cs, 16) == enc_kids(cs, 0),
{
    lemma_enc_kids_upto(cs, 16);
    assert(enc_kids_upto(cs, 16) + enc_kids(cs, 16) =~= enc_kids_upto(cs, 16));
}

} // verus!

verus! {

/// The values stored below the slots of `[0, i)`.
pub open spec fn vals_upto(cs: Seq<Option<NodeV>>, i: int) -> nat
    decreases i,
{
    if i <= 0 {
        0
    } else {
        vals_upto(cs, i - 1) + (match cs[i - 1] {
            Some(c) => num_vals(c),
            None => 0nat,
        })
    }
}

proof fn lemma_vals_upto_below(cs: Seq<Option<NodeV>>, i: int)
    requires
        0 <= i <= cs.len(),
    ensures
        vals_upto(cs, i) + vals_below(cs, i) == vals_below(cs, 0),
    decreases i,
{
    if i > 0 {
        lemma_vals_upto_below(cs, i - 1);
    }
}

/// Count the values stored in the subtree at `node`, refusing the count
/// that would not fit.
pub(crate) fn count_values(node: &Node) -> (r: Result<usize, DecodeError>)
    requires
        node_wf(node@),
    ensures
        match r {
            Ok(n) => n == num_vals(node@),
            Err(_) => num_vals(node@) > usize::MAX,
        },
    decreases node@,
{
    proof {
        lemma_kids_view(node.children@);
    }
    let mut total: usize = match &node.val {
        Some(_) => 1,
        None => 0,
    };
    let mut i: usize = 0;
    while i < 16
        invariant
            i <= 16,
            node_wf(node@),
            node@.children.len() == 16,
            node.children@.len() == 16,
            total == (if node@.val is Some {
                1nat
            } else {
                0nat
            }) + vals_upto(node@.children, i as int),
        decreases 16 - i,
    {
        proof {
            lemma_kids_view(node.children@);
        }
        match &node.children[i] {
            Some(child) => {
                proof {
                    lemma_kids_wf_index(node@.children, 0, i as int);
                }
                let sub = match count_values(child) {
                    Ok(x) => x,
                    Err(e) => {
                        proof {
                            lemma_vals_upto_below(node@.children, i as int);
                            assert(vals_below(node@.children, i as int) >= num_vals(
                                kids_view(node.children@, 0)[i as int]->Some_0,
                            ));
                        }
                        return Err(e);
                    },
                };
                if total > usize::MAX - sub {
                    proof {
                        lemma_vals_upto_below(node@.children, i as int);
                        assert(vals_below(node@.children, i as int) >= num_vals(
                            kids_view(node.children@, 0)[i as int]->Some_0,
                        ));
                        assert(num_vals(node@) > usize::MAX);
                    }
                    return Err(DecodeError);
                }
                total = total + sub;
            },
            None => {},
        }
        i += 1;
    }
    proof {
        lemma_vals_upto_below(node@.children, 16);
    }
    Ok(total)
}

} // verus!

verus! {

/// Every length in the subtree fits the machine: such nodes are exactly
/// the ones executable code can hold, and their encodings are unambiguous.
pub open spec fn sized_ok(n: NodeV) -> bool
    decreases n, 17int,
{
    &&& n.key.len() <= usize::MAX
    &&& (match n.val {
        Some(v) => v.len() <= usize::MAX,
        None => true,
    })
    &&& n.children.len() == 16
    &&& kids_sized(n.children, 0)
}

pub open spec fn kids_sized(cs: Seq<Option<NodeV>>, i: int) -> bool
    decreases cs, cs.len() - i,
{
    if i < 0 || i >= cs.len() {
        true
    } else {
        (match cs[i] {
            Some(c) => sized_ok(c),
            None => true,
        }) && kids_sized(cs, i + 1)
    }
}

pub proof fn lemma_kids_sized_index(cs: Seq<Option<NodeV>>, i: int, j: int)
    requires
        kids_sized(cs, i),
        0 <= i <= j < cs.len(),
    ensures
        match cs[j] {
            Some(c) => sized_ok(c),
            None => true,
        },
    decreases j - i,
{
    if i < j {
        lemma_kids_sized_index(cs, i + 1, j);
    }
}

pub proof fn lemma_kids_sized_build(cs: Seq<Option<NodeV>>, i: int)
    requires
        0 <= i,
        forall|j: int|
            i <= j < cs.len() ==> (match #[trigger] cs[j] {
                Some(c) => sized_ok(c),
                None => true,
            }),
    ensures
        kids_sized(cs, i),
    decreases cs.len() - i,
{
    if i < cs.len() {
        lemma_kids_sized_build(cs, i + 1);
    }
}

} // verus!

verus! {

pub(crate) proof fn lemma_concat_cancel(x1: Seq<u8>, y1: Seq<u8>, x2: Seq<u8>, y2: Seq<u8>)
    requires
        x1.len() == x2.len(),
        x1 + y1 == x2 + y2,
    ensures
        x1 == x2,
        y1 == y2,
{
    assert forall|i: int| 0 <= i < x1.len() implies x1[i] == x2[i] by {
        assert((x1 + y1)[i] == x1[i]);
        assert((x2 + y2)[i] == x2[i]);
    }
    assert(x1 =~= x2);
    assert((x1 + y1).len() == (x2 + y2).len());
    assert((x1 + y1).len() == x1.len() + y1.len());
    assert((x2 + y2).len() == x2.len() + y2.len());
    assert(y1.len() == y2.len());
    assert forall|i: int| 0 <= i < y1.len() implies y1[i] == y2[i] by {
        assert(0 <= i < y2.len());
        assert((x1 + y1)[x1.len() + i] == y1[i]);
        assert((x2 + y2)[x2.len() + i] == y2[i]);
    }
    assert(y1 =~= y2);
}

pub(crate) proof fn lemma_enc_u64_prefix(a: u64, b: u64, r1: Seq<u8>, r2: Seq<u8>)
    requires
        enc_u64(a) + r1 == enc_u64(b) + r2,
    ensures
        a == b,
        r1 == r2,
{
    lemma_concat_cancel(enc_u64(a), r1, enc_u64(b), r2);
    assert(a == b) by (bit_vector)
        requires
            (a & 0xff) as u8 == (b & 0xff) as u8,
            ((a >> 8) & 0xff) as u8 == ((b >> 8) & 0xff) as u8,
            ((a >> 16) & 0xff) as u8 == ((b >> 16) & 0xff) as u8,
            ((a >> 24) & 0xff) as u8 == ((b >> 24) & 0xff) as u8,
            ((a >> 32) & 0xff) as u8 == ((b >> 32) & 0xff) as u8,
            ((a >> 40) & 0xff) as u8 == ((b >> 40) & 0xff) as u8,
            ((a >> 48) & 0xff) as u8 == ((b >> 48) & 0xff) as u8,
            ((a >> 56) & 0xff) as u8 == ((b >> 56) & 0xff) as u8,
    ;
}

pub(crate) proof fn lemma_enc_i64_prefix(a: i64, b: i64, r1: Seq<u8>, r2: Seq<u8>)
    requires
        enc_i64(a) + r1 == enc_i64(b) + r2,
    ensures
        a == b,
        r1 == r2,
{
    assert(enc_i64(a) =~= enc_u64(a as u64));
    assert(enc_i64(b) =~= enc_u64(b as u64));
    lemma_enc_u64_prefix(a as u64, b as u64, r1, r2);
    assert(a == b) by (bit_vector)
        requires
            a as u64 == b as u64,
    ;
}

proof fn lemma_enc_elems_len(s: Seq<i64>, i: int)
    requires
        0 <= i,
    ensures
        enc_elems(s, i).len() == 8 * i,
    decreases i,
{
    if i > 0 {
        lemma_enc_elems_len(s, i - 1);
    }
}

proof fn lemma_enc_elems_prefix(s1: Seq<i64>, s2: Seq<i64>, i: int, r1: Seq<u8>, r2: Seq<u8>)
    requires
        0 <= i <= s1.len(),
        i <= s2.len(),
        enc_elems(s1, i) + r1 == enc_elems(s2, i) + r2,
    ensures
        forall|j: int| 0 <= j < i ==> s1[j] == s2[j],
        r1 == r2,
    decreases i,
{
    if i == 0 {
        assert(enc_elems(s1, 0) + r1 =~= r1);
        assert(enc_elems(s2, 0) + r2 =~= r2);
    } else {
        assert(enc_elems(s1, i) + r1 =~= enc_elems(s1, i - 1) + (enc_i64(s1[i - 1]) + r1));
        assert(enc_elems(s2, i) + r2 =~= enc_elems(s2, i - 1) + (enc_i64(s2[i - 1]) + r2));
        lemma_enc_elems_prefix(s1, s2, i - 1, enc_i64(s1[i - 1]) + r1, enc_i64(s2[i - 1]) + r2);
        lemma_enc_i64_prefix(s1[i - 1], s2[i - 1], r1, r2);
    }
}

proof fn lemma_enc_vals_prefix(s1: Seq<i64>, s2: Seq<i64>, r1: Seq<u8>, r2: Seq<u8>)
    requires
        s1.len() <= usize::MAX,
        s2.len() <= usize::MAX,
        enc_vals(s1) + r1 == enc_vals(s2) + r2,
    ensures
        s1 == s2,
        r1 == r2,
{
    assert(enc_vals(s1) + r1 =~= enc_u64(s1.len() as u64) + (enc_elems(s1, s1.len() as int) + r1));
    assert(enc_vals(s2) + r2 =~= enc_u64(s2.len() as u64) + (enc_elems(s2, s2.len() as int) + r2));
    lemma_enc_u64_prefix(
        s1.len() as u64,
        s2.len() as u64,
        enc_elems(s1, s1.len() as int) + r1,
        enc_elems(s2, s2.len() as int) + r2,
    );
    assert(s1.len() == s2.len());
    lemma_enc_elems_prefix(s1, s2, s1.len() as int, r1, r2);
    assert(s1 =~= s2);
}

/// The encoding is unambiguous: two well-formed machine-sized trees with
/// the same encoded prefix are the same tree, byte for byte.
proof fn lemma_enc_node_prefix(n1: NodeV, n2: NodeV, r1: Seq<u8>, r2: Seq<u8>)
    requires
        node_wf(n1),
        node_wf(n2),
        sized_ok(n1),
        sized_ok(n2),
        enc_node(n1) + r1 == enc_node(n2) + r2,
    ensures
        n1 == n2,
        r1 == r2,
    decreases n1, 17int,
{
    let v1 = match n1.val {
        Some(v) => seq![1u8] + enc_vals(v),
        None => seq![0u8],
    };
    let v2 = match n2.val {
        Some(v) => seq![1u8] + enc_vals(v),
        None => seq![0u8],
    };
    let k1 = enc_kids(n1.children, 0);
    let k2 = enc_kids(n2.children, 0);
    assert(enc_node(n1) + r1 =~= enc_vals(n1.key) + (v1 + (k1 + r1)));
    assert(enc_node(n2) + r2 =~= enc_vals(n2.key) + (v2 + (k2 + r2)));
    lemma_enc_vals_prefix(n1.key, n2.key, v1 + (k1 + r1), v2 + (k2 + r2));
    assert((v1 + (k1 + r1))[0] == (v2 + (k2 + r2))[0]);
    match (n1.val, n2.val) {
        (Some(a), Some(b)) => {
            assert(v1 + (k1 + r1) =~= seq![1u8] + (enc_vals(a) + (k1 + r1)));
            assert(v2 + (k2 + r2) =~= seq![1u8] + (enc_vals(b) + (k2 + r2)));
            lemma_concat_cancel(seq![1u8], enc_vals(a) + (k1 + r1), seq![1u8], enc_vals(b) + (k2 + r2));
            lemma_enc_vals_prefix(a, b, k1 + r1, k2 + r2);
        },
        (None, None) => {
            assert(v1 + (k1 + r1) =~= seq![0u8] + (k1 + r1));
            assert(v2 + (k2 + r2) =~= seq![0u8] + (k2 + r2));
            lemma_concat_cancel(seq![0u8], k1 + r1, seq![0u8], k2 + r2);
        },
        (Some(a), None) => {
            assert((v1 + (k1 + r1))[0] == 1u8);
            assert((v2 + (k2 + r2))[0] == 0u8);
            assert(false);
        },
        (None, Some(b)) => {
            assert((v1 + (k1 + r1))[0] == 0u8);
            assert((v2 + (k2 + r2))[0] == 1u8);
            assert(false);
        },
    }
    lemma_enc_kids_prefix(n1, n2, 0, r1, r2);
    assert(n1.children =~= n2.children);
    assert(kid_count(n1) == kid_count(n2));
}

proof fn lemma_enc_kids_prefix(n1: NodeV, n2: NodeV, i: int, r1: Seq<u8>, r2: Seq<u8>)
    requires
        node_wf(n1),
        node_wf(n2),
        sized_ok(n1),
        sized_ok(n2),
        0 <= i <= 16,
        enc_kids(n1.children, i) + r1 == enc_kids(n2.children, i) + r2,
    ensures
        forall|j: int| i <= j < 16 ==> n1.children[j] == n2.children[j],
        r1 == r2,
    decreases n1, 16 - i,
{
    let cs1 = n1.children;
    let cs2 = n2.children;
    if i == 16 {
        assert(enc_kids(cs1, 16) + r1 =~= r1);
        assert(enc_kids(cs2, 16) + r2 =~= r2);
    } else {
        crate::trie::lemma_kids_wf_index(cs1, 0, i);
        crate::trie::lemma_kids_wf_index(cs2, 0, i);
        lemma_kids_sized_index(cs1, 0, i);
        lemma_kids_sized_index(cs2, 0, i);
        match (cs1[i], cs2[i]) {
            (Some(c1), Some(c2)) => {
                assert(enc_kids(cs1, i) + r1 =~= seq![1u8] + (enc_node(c1) + (enc_kids(cs1, i + 1)
                    + r1)));
                assert(enc_kids(cs2, i) + r2 =~= seq![1u8] + (enc_node(c2) + (enc_kids(cs2, i + 1)
                    + r2)));
                lemma_concat_cancel(
                    seq![1u8],
                    enc_node(c1) + (enc_kids(cs1, i + 1) + r1),
                    seq![1u8],
                    enc_node(c2) + (enc_kids(cs2, i + 1) + r2),
                );
                lemma_enc_node_prefix(c1, c2, enc_kids(cs1, i + 1) + r1, enc_kids(cs2, i + 1) + r2);
                lemma_enc_kids_prefix(n1, n2, i + 1, r1, r2);
            },
            (None, None) => {
                assert(enc_kids(cs1, i) + r1 =~= seq![0u8] + (enc_kids(cs1, i + 1) + r1));
                assert(enc_kids(cs2, i) + r2 =~= seq![0u8] + (enc_kids(cs2, i + 1) + r2));
                lemma_concat_cancel(
                    seq![0u8],
                    enc_kids(cs1, i + 1) + r1,
                    seq![0u8],
                    enc_kids(cs2, i + 1) + r2,
                );
                lemma_enc_kids_prefix(n1, n2, i + 1, r1, r2);
            },
            (Some(c1), None) => {
                assert((enc_kids(cs1, i) + r1)[0] == 1u8);
                assert((enc_kids(cs2, i) + r2)[0] == 0u8);
                assert(false);
            },
            (None, Some(c2)) => {
                assert((enc_kids(cs1, i) + r1)[0] == 0u8);
                assert((enc_kids(cs2, i) + r2)[0] == 1u8);
                assert(false);
            },
        }
    }
}

/// Persistence law: the encoding pins a tree down.  Two well-formed
/// machine-sized trees with equal encodings are deep-equal — same labels,
/// values and child topology — so a load of a dump that succeeds can
/// yield only the dumped tree, and in particular keeps its entry count.
pub proof fn lemma_codec_injective(t1: NodeV, t2: NodeV)
    requires
        node_wf(t1),
        node_wf(t2),
        sized_ok(t1),
        sized_ok(t2),
        enc_trie(t1) == enc_trie(t2),
    ensures
        t1 == t2,
        num_vals(t1) == num_vals(t2),
{
    assert(enc_node(t1) + Seq::<u8>::empty() =~= enc_node(t2) + Seq::<u8>::empty());
    lemma_enc_node_prefix(t1, t2, Seq::empty(), Seq::empty());
}

} // verus!

verus! {

/// On failure, no well-formed machine-sized node is encoded at `pos`.
pub open spec fn no_node_at(b: Seq<u8>, pos: int) -> bool {
    0 <= pos <= b.len() ==> forall|n: NodeV, rest: Seq<u8>|
        node_wf(n) && sized_ok(n) ==> b.subrange(pos, b.len() as int) != #[trigger] (enc_node(n)
            + rest)
}

proof fn lemma_head_key(b: Seq<u8>, pos: int, p1: int, kv: Seq<i64>, n: NodeV, rest: Seq<u8>)
    requires
        0 <= pos <= p1 <= b.len(),
        b.subrange(pos, p1) == enc_vals(kv),
        kv.len() <= usize::MAX,
        sized_ok(n),
        b.subrange(pos, b.len() as int) == enc_node(n) + rest,
    ensures
        n.key == kv,
        b.subrange(p1, b.len() as int) == (match n.val {
            Some(v) => seq![1u8] + enc_vals(v),
            None => seq![0u8],
        }) + (enc_kids(n.children, 0) + rest),
{
    let valpart = (match n.val {
        Some(v) => seq![1u8] + enc_vals(v),
        None => seq![0u8],
    });
    assert(b.subrange(pos, b.len() as int) =~= enc_vals(kv) + b.subrange(p1, b.len() as int));
    assert(b.subrange(pos, b.len() as int) =~= enc_vals(n.key) + (valpart + (enc_kids(
        n.children,
        0,
    ) + rest)));
    lemma_enc_vals_prefix(
        kv,
        n.key,
        b.subrange(p1, b.len() as int),
        valpart + (enc_kids(n.children, 0) + rest),
    );
}

proof fn lemma_head_val(
    b: Seq<u8>,
    p1: int,
    head_end: int,
    val_v: Option<Seq<i64>>,
    n: NodeV,
    rest: Seq<u8>,
)
    requires
        0 <= p1 <= head_end <= b.len(),
        b.subrange(p1, head_end) == (match val_v {
            Some(v) => seq![1u8] + enc_vals(v),
            None => seq![0u8],
        }),
        match val_v {
            Some(v) => v.len() <= usize::MAX,
            None => true,
        },
        sized_ok(n),
        b.subrange(p1, b.len() as int) == (match n.val {
            Some(v) => seq![1u8] + enc_vals(v),
            None => seq![0u8],
        }) + (enc_kids(n.children, 0) + rest),
    ensures
        n.val == val_v,
        b.subrange(head_end, b.len() as int) == enc_kids(n.children, 0) + rest,
{
    let tail = b.subrange(head_end, b.len() as int);
    let kidsr = enc_kids(n.children, 0) + rest;
    assert(b.subrange(p1, b.len() as int) =~= b.subrange(p1, head_end) + tail);
    match (val_v, n.val) {
        (Some(a), Some(v2)) => {
            assert(b.subrange(p1, b.len() as int) =~= seq![1u8] + (enc_vals(a) + tail));
            assert(b.subrange(p1, b.len() as int) =~= seq![1u8] + (enc_vals(v2) + kidsr));
            lemma_concat_cancel(seq![1u8], enc_vals(a) + tail, seq![1u8], enc_vals(v2) + kidsr);
            lemma_enc_vals_prefix(a, v2, tail, kidsr);
        },
        (None, None) => {
            assert(b.subrange(p1, b.len() as int) =~= seq![0u8] + tail);
            assert(b.subrange(p1, b.len() as int) =~= seq![0u8] + kidsr);
            lemma_concat_cancel(seq![0u8], tail, seq![0u8], kidsr);
        },
        (Some(a), None) => {
            assert(b.subrange(p1, b.len() as int)[0] == 1u8);
            assert(b.subrange(p1, b.len() as int)[0] == 0u8);
            assert(false);
        },
        (None, Some(v2)) => {
            assert(b.subrange(p1, b.len() as int)[0] == 0u8);
            assert(b.subrange(p1, b.len() as int)[0] == 1u8);
            assert(false);
        },
    }
}

/// Parsed slots align with any encoding of the same byte run: they agree
/// slot for slot, and the remaining bytes are the remaining slots.
proof fn lemma_kids_align(
    cs1: Seq<Option<NodeV>>,
    cs2: Seq<Option<NodeV>>,
    i: int,
    tail: Seq<u8>,
    rest: Seq<u8>,
)
    requires
        0 <= i <= 16,
        cs1.len() == 16,
        cs2.len() == 16,
        forall|j: int|
            0 <= j < i ==> (match #[trigger] cs1[j] {
                Some(c) => node_wf(c) && sized_ok(c),
                None => true,
            }),
        kids_wf(cs2, 0),
        kids_sized(cs2, 0),
        enc_kids_upto(cs1, i) + tail == enc_kids(cs2, 0) + rest,
    ensures
        forall|j: int| 0 <= j < i ==> cs1[j] == cs2[j],
        tail == enc_kids(cs2, i) + rest,
    decreases i,
{
    if i == 0 {
        assert(enc_kids_upto(cs1, 0) + tail =~= tail);
    } else {
        let slot1 = (match cs1[i - 1] {
            Some(c) => seq![1u8] + enc_node(c),
            None => seq![0u8],
        });
        assert(enc_kids_upto(cs1, i) + tail =~= enc_kids_upto(cs1, i - 1) + (slot1 + tail));
        lemma_kids_align(cs1, cs2, i - 1, slot1 + tail, rest);
        crate::trie::lemma_kids_wf_index(cs2, 0, i - 1);
        lemma_kids_sized_index(cs2, 0, i - 1);
        match (cs1[i - 1], cs2[i - 1]) {
            (Some(c1), Some(c2)) => {
                assert(slot1 + tail =~= seq![1u8] + (enc_node(c1) + tail));
                assert(enc_kids(cs2, i - 1) + rest =~= seq![1u8] + (enc_node(c2) + (enc_kids(
                    cs2,
                    i,
                ) + rest)));
                lemma_concat_cancel(
                    seq![1u8],
                    enc_node(c1) + tail,
                    seq![1u8],
                    enc_node(c2) + (enc_kids(cs2, i) + rest),
                );
                lemma_enc_node_prefix(c1, c2, tail, enc_kids(cs2, i) + rest);
            },
            (None, None) => {
                assert(slot1 + tail =~= seq![0u8] + tail);
                assert(enc_kids(cs2, i - 1) + rest =~= seq![0u8] + (enc_kids(cs2, i) + rest));
                lemma_concat_cancel(seq![0u8], tail, seq![0u8], enc_kids(cs2, i) + rest);
            },
            (Some(c1), None) => {
                assert((slot1 + tail)[0] == 1u8);
                assert((enc_kids(cs2, i - 1) + rest)[0] == 0u8);
                assert(false);
            },
            (None, Some(c2)) => {
                assert((slot1 + tail)[0] == 0u8);
                assert((enc_kids(cs2, i - 1) + rest)[0] == 1u8);
                assert(false);
            },
        }
    }
}

} // verus!

verus! {

/// At any point of the slot loop, the parse so far aligns with any
/// encoding of the whole byte run from `pos`.
proof fn lemma_loop_align(
    b: Seq<u8>,
    pos: int,
    p1: int,
    head_end: int,
    kv: Seq<i64>,
    val_v: Option<Seq<i64>>,
    cur: Seq<Option<NodeV>>,
    i: int,
    p: int,
    n: NodeV,
    rest: Seq<u8>,
)
    requires
        0 <= pos <= p1 <= head_end <= p <= b.len(),
        b.subrange(pos, p1) == enc_vals(kv),
        kv.len() <= usize::MAX,
        b.subrange(pos, head_end) == enc_vals(kv) + (match val_v {
            Some(v) => seq![1u8] + enc_vals(v),
            None => seq![0u8],
        }),
        match val_v {
            Some(v) => v.len() <= usize::MAX,
            None => true,
        },
        0 <= i <= 16,
        cur.len() == 16,
        forall|j: int|
            0 <= j < i ==> (match #[trigger] cur[j] {
                Some(c) => node_wf(c) && sized_ok(c),
                None => true,
            }),
        b.subrange(head_end, p) == enc_kids_upto(cur, i),
        node_wf(n),
        sized_ok(n),
        b.subrange(pos, b.len() as int) == enc_node(n) + rest,
    ensures
        n.key == kv,
        n.val == val_v,
        forall|j: int| 0 <= j < i ==> cur[j] == n.children[j],
        b.subrange(p, b.len() as int) == enc_kids(n.children, i) + rest,
{
    lemma_head_key(b, pos, p1, kv, n, rest);
    let vp = (match val_v {
        Some(v) => seq![1u8] + enc_vals(v),
        None => seq![0u8],
    });
    assert(b.subrange(pos, head_end) =~= b.subrange(pos, p1) + b.subrange(p1, head_end));
    lemma_concat_cancel(b.subrange(pos, p1), b.subrange(p1, head_end), enc_vals(kv), vp);
    lemma_head_val(b, p1, head_end, val_v, n, rest);
    assert(b.subrange(head_end, b.len() as int) =~= b.subrange(head_end, p) + b.subrange(
        p,
        b.len() as int,
    ));
    lemma_kids_align(cur, n.children, i, b.subrange(p, b.len() as int), rest);
}

} // verus!

verus! {

/// Whether `b` is exactly the encoding of some well-formed machine-sized
/// tree whose root carries the empty label and whose stored values can be
/// counted in a machine word.
pub open spec fn is_trie_encoding(b: Seq<u8>) -> bool {
    exists|t: NodeV|
        node_wf(t) && sized_ok(t) && t.key == Seq::<i64>::empty() && num_vals(t) <= usize::MAX
            && b == #[trigger] enc_trie(t)
}

/// A node parsed from the front of a whole-trie encoding is that trie:
/// it reaches the end of the bytes, has the empty root label, and counts
/// its values within a machine word.
pub(crate) proof fn lemma_trie_encoding_unique(b: Seq<u8>, root: NodeV, p: int)
    requires
        is_trie_encoding(b),
        node_wf(root),
        sized_ok(root),
        0 <= p <= b.len(),
        enc_node(root) == b.subrange(0, p),
    ensures
        p == b.len(),
        root.key == Seq::<i64>::empty(),
        num_vals(root) <= usize::MAX,
{
    let t = choose|t: NodeV|
        node_wf(t) && sized_ok(t) && t.key == Seq::<i64>::empty() && num_vals(t) <= usize::MAX
            && b == #[trigger] enc_trie(t);
    assert(b =~= enc_node(root) + b.subrange(p, b.len() as int));
    assert(b =~= enc_node(t) + Seq::<u8>::empty());
    lemma_enc_node_prefix(root, t, b.subrange(p, b.len() as int), Seq::empty());
    assert(b.subrange(p, b.len() as int).len() == 0);
}

/// A whole-trie encoding always starts with a parsable node.
pub(crate) proof fn lemma_trie_encoding_parses(b: Seq<u8>)
    requires
        is_trie_encoding(b),
    ensures
        !no_node_at(b, 0),
{
    let t = choose|t: NodeV|
        node_wf(t) && sized_ok(t) && t.key == Seq::<i64>::empty() && num_vals(t) <= usize::MAX
            && b == #[trigger] enc_trie(t);
    assert(b.subrange(0, b.len() as int) =~= enc_node(t) + Seq::<u8>::empty());
    assert(b.subrange(0, b.len() as int) == enc_node(t) + Seq::<u8>::empty());
}

} // verus!

verus! {

/// Persistence law, both halves.  The bytes of any well-formed
/// machine-sized tree are a valid encoding, so loading a dump cannot
/// fail; and any tree with the same encoding is deep-equal to the dumped
/// one — same labels, values, child topology and value count — so a load
/// can yield nothing else.
pub proof fn lemma_dump_load(t: NodeV)
    requires
        node_wf(t),
        sized_ok(t),
        t.key == Seq::<i64>::empty(),
        num_vals(t) <= usize::MAX,
    ensures
        is_trie_encoding(enc_trie(t)),
        forall|t2: NodeV|
            node_wf(t2) && sized_ok(t2) && #[trigger] enc_trie(t2) == enc_trie(t) ==> t2 == t
                && num_vals(t2) == num_vals(t),
{
    assert(enc_trie(t) == enc_trie(t));
    assert forall|t2: NodeV|
        node_wf(t2) && sized_ok(t2) && #[trigger] enc_trie(t2) == enc_trie(t) implies t2 == t
        && num_vals(t2) == num_vals(t) by {
        lemma_codec_injective(t2, t);
    }
}

} // verus!
