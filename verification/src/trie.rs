//! A non-generic radix-tree (PATRICIA-style) map from sequences of `i64`
//! to sequences of `i64`, with path compression, a structural integrity
//! check, bulk enumeration, and a binary codec for persistence.

use vstd::prelude::*;

verus! {

use vstd::math::min;

/// Outcome of comparing two keys element-wise from index 0.
///
/// Since keys are sequences there can be full, partial or no matches.
#[derive(Debug)]
pub enum KeyMatch {
    /// Only a proper part of the sequences matches; the payload is the
    /// number of leading elements that agree.
    Partial(usize),
    /// The key sequences are equal.
    Full,
    /// The sequences already differ at index 0.
    NoMatch,
}

/// A trie key: an ordered sequence of signed 64-bit integers.
#[derive(Debug)]
pub struct Key {
    pub data: Vec<i64>,
}

impl View for Key {
    type V = Seq<i64>;

    open spec fn view(&self) -> Seq<i64> {
        self.data@
    }
}

/// The bucket of a key element: an index in [0, 16) obtained from the low
/// byte of the element; even bytes select their high nibble, odd bytes
/// their low nibble.
pub open spec fn bucket_of(e: i64) -> int {
    let frag = e as u8;
    if frag % 2 == 0 {
        (frag >> 4) as int
    } else {
        (frag & 0x0f) as int
    }
}

pub broadcast proof fn lemma_bucket_of_bounds(e: i64)
    ensures
        0 <= #[trigger] bucket_of(e) < 16,
{
    let frag = e as u8;
    assert(frag % 2 == 0 ==> (frag >> 4) < 16) by (bit_vector);
    assert((frag & 0x0f) < 16) by (bit_vector);
}

/// Length of the longest common prefix of `a` and `b`, scanning from `i`.
pub open spec fn common_from(a: Seq<i64>, b: Seq<i64>, i: nat) -> nat
    decreases min(a.len() as int, b.len() as int) - i,
{
    if i < a.len() && i < b.len() && a[i as int] == b[i as int] {
        common_from(a, b, i + 1)
    } else {
        i
    }
}

/// Length of the longest common prefix of `a` and `b`.
pub open spec fn common_len(a: Seq<i64>, b: Seq<i64>) -> nat {
    common_from(a, b, 0)
}

/// What `Key::match_key` returns, stated over the two key sequences.
pub open spec fn key_match_of(a: Seq<i64>, b: Seq<i64>) -> KeyMatch {
    let c = common_len(a, b);
    if c == min(a.len() as int, b.len() as int) {
        if a.len() == b.len() {
            KeyMatch::Full
        } else {
            KeyMatch::Partial(c as usize)
        }
    } else {
        if c == 0 {
            KeyMatch::NoMatch
        } else {
            KeyMatch::Partial(c as usize)
        }
    }
}

/// The common prefix length is at most each length, the elements below it
/// agree, and the elements right at it (when both exist) differ.
pub proof fn lemma_common_len(a: Seq<i64>, b: Seq<i64>)
    ensures
        common_len(a, b) <= a.len(),
        common_len(a, b) <= b.len(),
        forall|j: int| 0 <= j < common_len(a, b) ==> a[j] == b[j],
        common_len(a, b) < min(a.len() as int, b.len() as int) ==> a[common_len(a, b) as int]
            != b[common_len(a, b) as int],
{
    lemma_common_from_all(a, b, 0);
}

proof fn lemma_common_from_all(a: Seq<i64>, b: Seq<i64>, i: nat)
    requires
        i <= a.len(),
        i <= b.len(),
    ensures
        common_from(a, b, i) <= min(a.len() as int, b.len() as int),
        i <= common_from(a, b, i),
        forall|j: int| i <= j < common_from(a, b, i) ==> a[j] == b[j],
        common_from(a, b, i) < min(a.len() as int, b.len() as int) ==> a[common_from(a, b, i) as int]
            != b[common_from(a, b, i) as int],
    decreases min(a.len() as int, b.len() as int) - i,
{
    if i < a.len() && i < b.len() && a[i as int] == b[i as int] {
        lemma_common_from_all(a, b, i + 1);
    }
}

impl Key {
    /// Create a new key from its element sequence.
    pub fn new(data: Vec<i64>) -> (k: Key)
        ensures
            k@ == data@,
    {
        Key { data }
    }

    /// Create an empty key: used to initialize the root node.
    pub fn empty() -> (k: Key)
        ensures
            k@ == Seq::<i64>::empty(),
    {
        Key { data: Vec::new() }
    }

    /// Length of the key.
    pub fn len(&self) -> (n: usize)
        ensures
            n == self@.len(),
    {
        self.data.len()
    }

    /// Check whether the key has no elements.
    pub fn is_empty(&self) -> (r: bool)
        ensures
            r == (self@.len() == 0),
    {
        self.data.len() == 0
    }

    /// The bucket this key selects, an index in [0, 16).
    pub fn get_bucket(&self) -> (b: usize)
        requires
            self@.len() > 0,
        ensures
            b == bucket_of(self@[0]),
            b < 16,
    {
        let frag = self.data[0] as u8;
        proof {
            lemma_bucket_of_bounds(self@[0]);
        }
        let entry: u8 = if frag % 2 == 0 {
            frag >> 4
        } else {
            frag & 0x0f
        };
        entry as usize
    }

    /// Cut the key at element index `idx`, keeping the head and returning
    /// the tail as a new key.
    pub fn split(&mut self, idx: usize) -> (tail: Key)
        requires
            idx < old(self)@.len(),
        ensures
            final(self)@ == old(self)@.take(idx as int),
            tail@ == old(self)@.skip(idx as int),
    {
        let tail_data = self.data.split_off(idx);
        Key { data: tail_data }
    }

    /// Append `other`'s elements to this key, emptying `other`.
    pub fn merge(&mut self, other: &mut Key) -> (r: ())
        ensures
            final(self)@ == old(self)@ + old(other)@,
            final(other)@ == Seq::<i64>::empty(),
    {
        self.data.append(&mut other.data);
    }

    /// Compare two keys element-wise from index 0: `Full` when they are
    /// equal, `NoMatch` on a difference at index 0, and `Partial` with the
    /// common prefix length otherwise.
    pub fn match_key(&self, other: &Key) -> (m: KeyMatch)
        ensures
            m == key_match_of(self@, other@),
    {
        let a_len = self.data.len();
        let b_len = other.data.len();
        let min_len: usize = if a_len < b_len {
            a_len
        } else {
            b_len
        };
        let mut i: usize = 0;
        while i < min_len
            invariant
                i <= min_len,
                min_len == min(self@.len() as int, other@.len() as int),
                common_from(self@, other@, 0) == common_from(self@, other@, i as nat),
                forall|j: int| 0 <= j < i ==> self@[j] == other@[j],
            decreases min_len - i,
        {
            if self.data[i] != other.data[i] {
                proof {
                    assert(common_from(self@, other@, i as nat) == i);
                }
                if i == 0 {
                    return KeyMatch::NoMatch;
                }
                return KeyMatch::Partial(i);
            }
            i += 1;
        }
        proof {
            assert(common_from(self@, other@, min_len as nat) == min_len);
        }
        if a_len == b_len {
            KeyMatch::Full
        } else {
            KeyMatch::Partial(min_len)
        }
    }
}

impl Clone for Key {
    fn clone(&self) -> (k: Key)
        ensures
            k@ == self@,
    {
        Key { data: self.data.clone() }
    }
}

impl PartialEq for Key {
    fn eq(&self, other: &Key) -> (r: bool)
        ensures
            r == (self@ == other@),
    {
        let r = self.data == other.data;
        proof {
            if r {
                assert(self.data@ =~= other.data@);
            } else {
                if self@ == other@ {
                    assert(forall|i: int|
                        0 <= i < self.data@.len() ==> self.data@[i] == other.data@[i]);
                    assert(false);
                }
            }
        }
        r
    }
}

impl vstd::std_specs::cmp::PartialEqSpecImpl for Key {
    open spec fn obeys_eq_spec() -> bool {
        true
    }

    open spec fn eq_spec(&self, other: &Key) -> bool {
        self@ == other@
    }
}

} // verus!

verus! {

/// The mathematical shape of a node: its edge label, its optional stored
/// value, and its 16 optional children.
#[verifier::ext_equal]
pub ghost struct NodeV {
    pub key: Seq<i64>,
    pub val: Option<Seq<i64>>,
    pub children: Seq<Option<NodeV>>,
    pub child_count: int,
}

/// One edge-plus-vertex of the path-compressed trie: the label consumed to
/// reach it, an optional stored value, 16 exclusively-owned child slots,
/// and a count of the occupied slots.
#[derive(Debug, PartialEq)]
pub struct Node {
    pub key: Key,
    pub val: Option<Vec<i64>>,
    pub children: Vec<Option<Box<Node>>>,
    pub child_count: i32,
}

pub open spec fn opt_val_view(v: Option<Vec<i64>>) -> Option<Seq<i64>> {
    match v {
        Some(x) => Some(x@),
        None => None,
    }
}

pub open spec fn node_view(n: Node) -> NodeV
    decreases n, 17int,
{
    NodeV {
        key: n.key@,
        val: opt_val_view(n.val),
        children: kids_view(n.children@, 0),
        child_count: n.child_count as int,
    }
}

pub open spec fn kids_view(cs: Seq<Option<Box<Node>>>, i: int) -> Seq<Option<NodeV>>
    decreases cs, cs.len() - i,
{
    if i < 0 || i >= cs.len() {
        Seq::empty()
    } else {
        let head = match cs[i] {
            Some(c) => Some(node_view(*c)),
            None => None,
        };
        seq![head] + kids_view(cs, i + 1)
    }
}

impl View for Node {
    type V = NodeV;

    open spec fn view(&self) -> NodeV {
        node_view(*self)
    }
}

proof fn lemma_kids_view_from(cs: Seq<Option<Box<Node>>>, i: int)
    requires
        0 <= i <= cs.len(),
    ensures
        kids_view(cs, i).len() == cs.len() - i,
        forall|j: int|
            i <= j < cs.len() ==> kids_view(cs, i)[j - i] == (match #[trigger] cs[j] {
                Some(c) => Some(node_view(*c)),
                None => None,
            }),
    decreases cs.len() - i,
{
    if i < cs.len() {
        lemma_kids_view_from(cs, i + 1);
    }
}

/// The view of the child list is the slot-wise view of its slots.
pub broadcast proof fn lemma_kids_view(cs: Seq<Option<Box<Node>>>)
    ensures
        (#[trigger] kids_view(cs, 0)).len() == cs.len(),
        forall|j: int|
            0 <= j < cs.len() ==> #[trigger] kids_view(cs, 0)[j] == (match cs[j] {
                Some(c) => Some(node_view(*c)),
                None => None,
            }),
{
    lemma_kids_view_from(cs, 0);
}

/// Number of occupied slots in `cs` from index `i` on.
pub open spec fn count_somes(cs: Seq<Option<NodeV>>, i: int) -> nat
    decreases cs.len() - i,
{
    if i < 0 || i >= cs.len() {
        0
    } else {
        (if cs[i] is Some {
            1nat
        } else {
            0nat
        }) + count_somes(cs, i + 1)
    }
}

/// Number of occupied child slots of `n`.
pub open spec fn kid_count(n: NodeV) -> nat {
    count_somes(n.children, 0)
}

/// Structural well-formedness: 16 slots, every child keyed with a
/// non-empty label that selects exactly the slot it occupies, the child
/// counter accurate, and the same recursively below.
pub open spec fn node_wf(n: NodeV) -> bool
    decreases n, 17int,
{
    &&& n.children.len() == 16
    &&& n.child_count == kid_count(n)
    &&& kids_wf(n.children, 0)
}

pub open spec fn kids_wf(cs: Seq<Option<NodeV>>, i: int) -> bool
    decreases cs, cs.len() - i,
{
    if i < 0 || i >= cs.len() {
        true
    } else {
        (match cs[i] {
            Some(c) => c.key.len() > 0 && bucket_of(c.key[0]) == i && node_wf(c),
            None => true,
        }) && kids_wf(cs, i + 1)
    }
}

/// Pointwise slot facts give `kids_wf`.
pub proof fn lemma_kids_wf_build(cs: Seq<Option<NodeV>>, i: int)
    requires
        0 <= i,
        forall|j: int|
            i <= j < cs.len() ==> (match #[trigger] cs[j] {
                Some(c) => c.key.len() > 0 && bucket_of(c.key[0]) == j && node_wf(c),
                None => true,
            }),
    ensures
        kids_wf(cs, i),
    decreases cs.len() - i,
{
    if i < cs.len() {
        lemma_kids_wf_build(cs, i + 1);
    }
}

/// Facts that `kids_wf` gives about each occupied slot.
pub proof fn lemma_kids_wf_index(cs: Seq<Option<NodeV>>, i: int, j: int)
    requires
        kids_wf(cs, i),
        0 <= i <= j < cs.len(),
    ensures
        match cs[j] {
            Some(c) => c.key.len() > 0 && bucket_of(c.key[0]) == j && node_wf(c),
            None => true,
        },
    decreases j - i,
{
    if i < j {
        lemma_kids_wf_index(cs, i + 1, j);
    }
}

/// Value stored for the key sequence `k` below node `n`, following the
/// descent the operations use: a remainder equal to the node's own label
/// answers at the node itself; otherwise the remainder's bucket picks the
/// only child slot whose label could continue it.
pub open spec fn lookup(n: NodeV, k: Seq<i64>) -> Option<Seq<i64>>
    decreases n, 17int,
{
    if k == n.key {
        n.val
    } else if k.len() == 0 {
        None
    } else {
        let b = bucket_of(k[0]);
        if 0 <= b < n.children.len() {
            match n.children[b] {
                Some(c) => match key_match_of(c.key, k) {
                    KeyMatch::Full => c.val,
                    KeyMatch::Partial(i) => if i < c.key.len() {
                        None
                    } else {
                        lookup(c, k.skip(i as int))
                    },
                    KeyMatch::NoMatch => None,
                },
                None => None,
            }
        } else {
            None
        }
    }
}

} // verus!

verus! {

pub open spec fn opt_ref_view(v: Option<&Vec<i64>>) -> Option<Seq<i64>> {
    match v {
        Some(x) => Some(x@),
        None => None,
    }
}

/// A fresh row of 16 empty child slots.
pub(crate) fn empty_children() -> (cs: Vec<Option<Box<Node>>>)
    ensures
        cs@.len() == 16,
        forall|j: int| 0 <= j < 16 ==> cs@[j] is None,
{
    let mut cs: Vec<Option<Box<Node>>> = Vec::new();
    let mut i: usize = 0;
    while i < 16
        invariant
            i <= 16,
            cs@.len() == i,
            forall|j: int| 0 <= j < i ==> cs@[j] is None,
        decreases 16 - i,
    {
        cs.push(None);
        i += 1;
    }
    cs
}

impl Node {
    /// A node with an empty label, no value and no children: the root of a
    /// fresh trie.
    pub fn new() -> (n: Node)
        ensures
            n@.key == Seq::<i64>::empty(),
            n@.val is None,
            node_wf(n@),
            kid_count(n@) == 0,
            n.child_count == 0,
            n@.children.len() == 16,
            forall|j: int| 0 <= j < 16 ==> n@.children[j] is None,
    {
        let n = Node { key: Key::empty(), val: None, children: empty_children(), child_count: 0 };
        proof {
            lemma_kids_view(n.children@);
            lemma_all_empty_kids(n@);
        }
        n
    }

    /// A childless node with the given label and optional value.
    pub fn with_keyval(k: Key, v: Option<Vec<i64>>) -> (n: Node)
        ensures
            n@.key == k@,
            n@.val == opt_val_view(v),
            node_wf(n@),
            kid_count(n@) == 0,
            n.child_count == 0,
            n@.children.len() == 16,
            forall|j: int| 0 <= j < 16 ==> n@.children[j] is None,
    {
        let n = Node { key: k, val: v, children: empty_children(), child_count: 0 };
        proof {
            lemma_kids_view(n.children@);
            lemma_all_empty_kids(n@);
        }
        n
    }

    /// Look up the value stored for `k` below this node.
    pub fn get(&self, k: Key) -> (r: Option<&Vec<i64>>)
        requires
            k@.len() > 0,
            node_wf(self@),
        ensures
            opt_ref_view(r) == lookup(self@, k@),
        decreases k@.len(),
    {
        proof {
            lemma_kids_view(self.children@);
        }
        let mut k = k;
        let bkt = k.get_bucket();
        if self.key == k {
            self.val.as_ref()
        } else {
            match &self.children[bkt] {
                Some(child) => {
                    proof {
                        lemma_kids_wf_index(self@.children, 0, bkt as int);
                        lemma_common_len(child.key@, k@);
                    }
                    match child.key.match_key(&k) {
                        KeyMatch::Partial(idx) => {
                            if idx < child.key.len() {
                                None
                            } else {
                                let tail = k.split(idx);
                                child.get(tail)
                            }
                        },
                        KeyMatch::Full => child.val.as_ref(),
                        KeyMatch::NoMatch => None,
                    }
                },
                None => None,
            }
        }
    }
}

/// A node whose slots are all empty is well-formed as soon as it has 16 of
/// them and its counter says zero, and has no children to count.
proof fn lemma_all_empty_kids(n: NodeV)
    requires
        n.children.len() == 16,
        forall|j: int| 0 <= j < 16 ==> n.children[j] is None,
        n.child_count == 0,
    ensures
        node_wf(n),
        kid_count(n) == 0,
{
    lemma_count_somes_none(n.children, 0);
    lemma_kids_wf_none(n.children, 0);
}

pub proof fn lemma_count_somes_none(cs: Seq<Option<NodeV>>, i: int)
    requires
        forall|j: int| 0 <= j < cs.len() ==> cs[j] is None,
        0 <= i,
    ensures
        count_somes(cs, i) == 0,
    decreases cs.len() - i,
{
    if i < cs.len() {
        lemma_count_somes_none(cs, i + 1);
    }
}

pub proof fn lemma_kids_wf_none(cs: Seq<Option<NodeV>>, i: int)
    requires
        forall|j: int| 0 <= j < cs.len() ==> cs[j] is None,
        0 <= i,
    ensures
        kids_wf(cs, i),
    decreases cs.len() - i,
{
    if i < cs.len() {
        lemma_kids_wf_none(cs, i + 1);
    }
}

} // verus!

verus! {

/// Number of values stored in the subtree rooted at `n`.
pub open spec fn num_vals(n: NodeV) -> nat
    decreases n, 17int,
{
    (if n.val is Some {
        1nat
    } else {
        0nat
    }) + vals_below(n.children, 0)
}

/// Number of values stored below the slots of `cs` from index `i` on.
pub open spec fn vals_below(cs: Seq<Option<NodeV>>, i: int) -> nat
    decreases cs, cs.len() - i,
{
    if i < 0 || i >= cs.len() {
        0
    } else {
        (match cs[i] {
            Some(c) => num_vals(c),
            None => 0nat,
        }) + vals_below(cs, i + 1)
    }
}

pub proof fn lemma_count_somes_agree(cs1: Seq<Option<NodeV>>, cs2: Seq<Option<NodeV>>, i: int)
    requires
        cs1.len() == cs2.len(),
        forall|j: int| i <= j < cs1.len() ==> cs1[j] == cs2[j],
    ensures
        count_somes(cs1, i) == count_somes(cs2, i),
    decreases cs1.len() - i,
{
    if 0 <= i < cs1.len() {
        lemma_count_somes_agree(cs1, cs2, i + 1);
    } else if i < 0 {
        lemma_count_somes_agree(cs1, cs2, 0);
    }
}

/// Effect of replacing slot `b` on the occupied-slot count.
pub proof fn lemma_count_somes_update(cs: Seq<Option<NodeV>>, b: int, x: Option<NodeV>, i: int)
    requires
        0 <= i <= b < cs.len(),
    ensures
        count_somes(cs.update(b, x), i) == count_somes(cs, i) - (if cs[b] is Some {
            1int
        } else {
            0int
        }) + (if x is Some {
            1int
        } else {
            0int
        }),
    decreases b - i,
{
    if i == b {
        lemma_count_somes_agree(cs.update(b, x), cs, i + 1);
    } else {
        lemma_count_somes_update(cs, b, x, i + 1);
    }
}

pub proof fn lemma_vals_below_agree(cs1: Seq<Option<NodeV>>, cs2: Seq<Option<NodeV>>, i: int)
    requires
        cs1.len() == cs2.len(),
        forall|j: int| i <= j < cs1.len() ==> cs1[j] == cs2[j],
    ensures
        vals_below(cs1, i) == vals_below(cs2, i),
    decreases cs1.len() - i,
{
    if 0 <= i < cs1.len() {
        lemma_vals_below_agree(cs1, cs2, i + 1);
    } else if i < 0 {
        lemma_vals_below_agree(cs1, cs2, 0);
    }
}

/// Effect of replacing slot `b` on the stored-value count.
pub proof fn lemma_vals_below_update(cs: Seq<Option<NodeV>>, b: int, x: Option<NodeV>, i: int)
    requires
        0 <= i <= b < cs.len(),
    ensures
        vals_below(cs.update(b, x), i) == vals_below(cs, i) - (match cs[b] {
            Some(c) => num_vals(c),
            None => 0nat,
        }) + (match x {
            Some(c) => num_vals(c),
            None => 0nat,
        }),
    decreases b - i,
{
    if i == b {
        lemma_vals_below_agree(cs.update(b, x), cs, i + 1);
    } else {
        lemma_vals_below_update(cs, b, x, i + 1);
    }
}

proof fn lemma_vals_below_none(cs: Seq<Option<NodeV>>, i: int)
    requires
        forall|j: int| 0 <= j < cs.len() ==> cs[j] is None,
        0 <= i,
    ensures
        vals_below(cs, i) == 0,
    decreases cs.len() - i,
{
    if i < cs.len() {
        lemma_vals_below_none(cs, i + 1);
    }
}

/// Replacing slot `b` keeps the slots well-formed when the new occupant is
/// either absent or a well-formed node keyed into that slot.
pub proof fn lemma_kids_wf_update(cs: Seq<Option<NodeV>>, b: int, x: Option<NodeV>, i: int)
    requires
        kids_wf(cs, i),
        0 <= i <= b < cs.len(),
        match x {
            Some(c) => c.key.len() > 0 && bucket_of(c.key[0]) == b && node_wf(c),
            None => true,
        },
    ensures
        kids_wf(cs.update(b, x), i),
    decreases cs.len() - i,
{
    if i < cs.len() {
        if i == b {
            lemma_kids_wf_update_rest(cs, b, x, i + 1);
        } else {
            lemma_kids_wf_update(cs, b, x, i + 1);
        }
    }
}

proof fn lemma_kids_wf_update_rest(cs: Seq<Option<NodeV>>, b: int, x: Option<NodeV>, i: int)
    requires
        kids_wf(cs, i),
        0 <= b < cs.len(),
        b < i,
    ensures
        kids_wf(cs.update(b, x), i),
    decreases cs.len() - i,
{
    if i < cs.len() {
        lemma_kids_wf_update_rest(cs, b, x, i + 1);
    }
}

} // verus!

verus! {

/// A childless node holding `v` under the label `k`.
pub open spec fn leaf_of(k: Seq<i64>, v: Seq<i64>) -> NodeV {
    NodeV { key: k, val: Some(v), children: Seq::new(16, |j: int| None), child_count: 0 }
}

/// `n` with slot `b` replaced by `x` and the child counter set to `cnt`.
pub open spec fn with_child(n: NodeV, b: int, x: Option<NodeV>, cnt: int) -> NodeV {
    NodeV { key: n.key, val: n.val, children: n.children.update(b, x), child_count: cnt }
}

/// The node `c` with its label cut at `i`: the prefix keeps the slots' place,
/// and the suffix, the value and all previous children move into a single
/// repackaged child selected by the suffix's own bucket.
pub open spec fn split_of(c: NodeV, i: int) -> NodeV {
    let rest = NodeV { key: c.key.skip(i), val: c.val, children: c.children, child_count: c.child_count };
    NodeV {
        key: c.key.take(i),
        val: None,
        children: Seq::new(16, |j: int| if j == bucket_of(c.key[i]) { Some(rest) } else { None }),
        child_count: 1,
    }
}

/// Length of the label of the child that `k`'s first element selects in `n`.
pub open spec fn label_len_at(n: NodeV, k: Seq<i64>) -> int {
    if k.len() > 0 && 0 <= bucket_of(k[0]) < n.children.len() {
        match n.children[bucket_of(k[0])] {
            Some(c) => c.key.len() as int,
            None => 0,
        }
    } else {
        0
    }
}

/// Whether inserting `k` below `n` never meets an occupied slot whose label
/// already differs at its first element.  The bucket function is meant to
/// keep that from happening; an insertion that would meet it is refused
/// up front, since without a collision chain there is nowhere to put it.
pub open spec fn can_insert(n: NodeV, k: Seq<i64>) -> bool
    decreases k.len(), label_len_at(n, k),
    via can_insert_dec
{
    if k == n.key {
        true
    } else if k.len() == 0 {
        true
    } else {
        let b = bucket_of(k[0]);
        if 0 <= b < n.children.len() {
            match n.children[b] {
                Some(c) => match key_match_of(c.key, k) {
                    KeyMatch::Full => true,
                    KeyMatch::NoMatch => false,
                    KeyMatch::Partial(i) => if i < c.key.len() {
                        can_insert(with_child(n, b, Some(split_of(c, i as int)), n.child_count), k)
                    } else if c.key.len() == 0 {
                        true
                    } else {
                        can_insert(c, k.skip(i as int))
                    },
                },
                None => true,
            }
        } else {
            true
        }
    }
}

#[via_fn]
proof fn can_insert_dec(n: NodeV, k: Seq<i64>) {
    insert_metric_facts(n, k);
}

/// What inserting `k` with value `v` below `n` does: the rebuilt node and
/// the value previously stored for `k`.  On the collision `can_insert`
/// rules out, the node is left as it is.
pub open spec fn insert_of(n: NodeV, k: Seq<i64>, v: Seq<i64>) -> (NodeV, Option<Seq<i64>>)
    decreases k.len(), label_len_at(n, k),
    via insert_of_dec
{
    if k == n.key {
        (NodeV { key: n.key, val: Some(v), children: n.children, child_count: n.child_count }, n.val)
    } else if k.len() == 0 {
        (n, None)
    } else {
        let b = bucket_of(k[0]);
        if 0 <= b < n.children.len() {
            match n.children[b] {
                Some(c) => match key_match_of(c.key, k) {
                    KeyMatch::Full => (
                        with_child(
                            n,
                            b,
                            Some(NodeV { key: c.key, val: Some(v), children: c.children, child_count: c.child_count }),
                            n.child_count,
                        ),
                        c.val,
                    ),
                    KeyMatch::NoMatch => (n, None),
                    KeyMatch::Partial(i) => if i < c.key.len() {
                        insert_of(with_child(n, b, Some(split_of(c, i as int)), n.child_count), k, v)
                    } else if c.key.len() == 0 {
                        (n, None)
                    } else {
                        let rec = insert_of(c, k.skip(i as int), v);
                        (with_child(n, b, Some(rec.0), n.child_count), rec.1)
                    },
                },
                None => (with_child(n, b, Some(leaf_of(k, v)), n.child_count + 1), None),
            }
        } else {
            (n, None)
        }
    }
}

#[via_fn]
proof fn insert_of_dec(n: NodeV, k: Seq<i64>, v: Seq<i64>) {
    insert_metric_facts(n, k);
}

/// The two recursions of `can_insert` and `insert_of` shrink their metric:
/// descending consumes part of `k`, and retrying after a split shortens the
/// label sitting in `k`'s slot.
proof fn insert_metric_facts(n: NodeV, k: Seq<i64>)
    ensures
        (k != n.key && k.len() > 0 && 0 <= bucket_of(k[0]) < n.children.len()) ==> (match n.children[bucket_of(k[0])] {
            Some(c) => match key_match_of(c.key, k) {
                KeyMatch::Partial(i) => {
                    &&& (i < c.key.len() ==> label_len_at(
                        with_child(n, bucket_of(k[0]), Some(split_of(c, i as int)), n.child_count),
                        k,
                    ) == i)
                    &&& (!(i < c.key.len()) && c.key.len() > 0 ==> 1 <= i <= k.len()
                        && k.skip(i as int).len() < k.len())
                },
                _ => true,
            },
            None => true,
        }),
{
    if k != n.key && k.len() > 0 {
        let b = bucket_of(k[0]);
        if 0 <= b < n.children.len() {
            match n.children[b] {
                Some(c) => {
                    lemma_common_len(c.key, k);
                    match key_match_of(c.key, k) {
                        KeyMatch::Partial(i) => {
                            if i < c.key.len() {
                                let n2 = with_child(n, b, Some(split_of(c, i as int)), n.child_count);
                                assert(n2.children[b] == Some(split_of(c, i as int)));
                                assert(split_of(c, i as int).key.len() == i);
                                assert(label_len_at(n2, k) == i);
                            } else if c.key.len() > 0 {
                                assert(i == c.key.len());
                                assert(common_len(c.key, k) <= k.len());
                                assert(i < k.len());
                                assert(k.skip(i as int).len() < k.len());
                            }
                        },
                        _ => {},
                    }
                },
                None => {},
            }
        }
    }
}

} // verus!

verus! {

proof fn lemma_count_somes_le(cs: Seq<Option<NodeV>>, i: int)
    requires
        0 <= i <= cs.len(),
    ensures
        count_somes(cs, i) <= cs.len() - i,
    decreases cs.len() - i,
{
    if i < cs.len() {
        lemma_count_somes_le(cs, i + 1);
    }
}

/// A row with an occupied slot has at least one occupied slot counted.
proof fn lemma_count_somes_slot_some(cs: Seq<Option<NodeV>>, b: int, i: int)
    requires
        0 <= i <= b < cs.len(),
        cs[b] is Some,
    ensures
        count_somes(cs, i) >= 1,
    decreases b - i,
{
    if i < b {
        lemma_count_somes_slot_some(cs, b, i + 1);
    }
}

/// A row with an empty slot has at most 15 occupied ones.
proof fn lemma_count_somes_slot_none(cs: Seq<Option<NodeV>>, b: int, i: int)
    requires
        0 <= i <= b < cs.len(),
        cs[b] is None,
    ensures
        count_somes(cs, i) <= cs.len() - i - 1,
    decreases b - i,
{
    if i == b {
        lemma_count_somes_le(cs, i + 1);
    } else {
        lemma_count_somes_slot_none(cs, b, i + 1);
    }
}

impl Node {
    /// Store `v` at this node, handing back what was stored before.
    pub fn replace_value(&mut self, v: Vec<i64>) -> (prev: Option<Vec<i64>>)
        ensures
            final(self)@ == (NodeV {
                key: old(self)@.key,
                val: Some(v@),
                children: old(self)@.children,
                child_count: old(self)@.child_count,
            }),
            opt_val_view(prev) == old(self)@.val,
    {
        let prev = self.val.take();
        self.val = Some(v);
        prev
    }

    /// Attach a brand-new child holding `v` under the label `k` in the
    /// empty slot `bucket`.
    fn add_child(&mut self, bucket: usize, k: Key, v: Vec<i64>) -> (prev: Option<Vec<i64>>)
        requires
            old(self).children@.len() == 16,
            bucket < 16,
            old(self).children@[bucket as int] is None,
            old(self).child_count < 16,
        ensures
            final(self)@ == with_child(
                old(self)@,
                bucket as int,
                Some(leaf_of(k@, v@)),
                old(self)@.child_count + 1,
            ),
            prev is None,
    {
        proof {
            lemma_kids_view(self.children@);
        }
        let ghost old_kids = self.children@;
        let leaf = Node::with_keyval(k, Some(v));
        self.children[bucket] = Some(Box::new(leaf));
        self.child_count = self.child_count + 1;
        proof {
            lemma_kids_view(self.children@);
            assert(self.children@ == old_kids.update(bucket as int, self.children@[bucket as int]));
            assert(leaf@.children =~= leaf_of(k@, v@).children);
            assert(leaf@ =~= leaf_of(k@, v@));
            assert(final(self)@.children =~= with_child(
                old(self)@,
                bucket as int,
                Some(leaf_of(k@, v@)),
                old(self)@.child_count + 1,
            ).children);
            assert(final(self)@ =~= with_child(
                old(self)@,
                bucket as int,
                Some(leaf_of(k@, v@)),
                old(self)@.child_count + 1,
            ));
        }
        None
    }

    /// Cut this node's label at `idx`, repackaging the suffix, the value
    /// and all previous children into a single child.
    pub fn split(&mut self, idx: usize) -> (r: ())
        requires
            idx < old(self).key@.len(),
        ensures
            final(self)@ == split_of(old(self)@, idx as int),
    {
        proof {
            lemma_kids_view(self.children@);
        }
        let tail = self.key.split(idx);
        let val = self.val.take();
        let mut children = empty_children();
        core::mem::swap(&mut self.children, &mut children);
        let child_count = self.child_count;
        self.child_count = 1;
        let bkt = tail.get_bucket();
        let inner = Node { key: tail, val, children, child_count };
        proof {
            lemma_kids_view(inner.children@);
        }
        self.children[bkt] = Some(Box::new(inner));
        proof {
            lemma_kids_view(self.children@);
            assert(final(self)@.children =~= split_of(old(self)@, idx as int).children);
            assert(final(self)@ =~= split_of(old(self)@, idx as int));
        }
    }

    /// Insert `v` under `k` below this node, splitting or extending nodes
    /// as needed, and hand back the value previously stored for `k`.
    pub fn insert(&mut self, k: Key, v: Vec<i64>) -> (prev: Option<Vec<i64>>)
        requires
            k@.len() > 0,
            node_wf(old(self)@),
            can_insert(old(self)@, k@),
        ensures
            final(self)@ == insert_of(old(self)@, k@, v@).0,
            opt_val_view(prev) == insert_of(old(self)@, k@, v@).1,
        decreases k@.len(), label_len_at(self@, k@),
    {
        proof {
            lemma_kids_view(self.children@);
        }
        let mut k = k;
        let ghost k0 = k@;
        let bkt = k.get_bucket();
        if self.key == k {
            self.replace_value(v)
        } else {
            let ghost old_kids = self.children@;
            let taken = self.children[bkt].take();
            match taken {
                Some(mut child) => {
                    proof {
                        lemma_kids_wf_index(old(self)@.children, 0, bkt as int);
                        lemma_common_len(child.key@, k@);
                    }
                    match child.key.match_key(&k) {
                        KeyMatch::Partial(idx) => {
                            if idx < child.key.len() {
                                let ghost child_v0 = child@;
                                child.split(idx);
                                self.children[bkt] = Some(child);
                                proof {
                                    lemma_kids_view(self.children@);
                                    assert(self.children@ == old_kids.update(
                                        bkt as int,
                                        self.children@[bkt as int],
                                    ));
                                    assert(old(self)@.children[bkt as int] == Some(child_v0));
                                    assert(self@.children[bkt as int] == Some(split_of(child_v0, idx as int)));
                                    assert(self@.key == old(self)@.key && self@.val == old(self)@.val);
                                    assert(self@.child_count == old(self)@.child_count);
                                    assert(forall|j: int| 0 <= j < 16 && j != bkt as int ==>
                                        self@.children[j] == old(self)@.children[j]);
                                    assert(self@.children =~= with_child(
                                        old(self)@,
                                        bkt as int,
                                        Some(split_of(old(self)@.children[bkt as int]->Some_0, idx as int)),
                                        old(self)@.child_count,
                                    ).children);
                                    assert(self@ =~= with_child(
                                        old(self)@,
                                        bkt as int,
                                        Some(split_of(old(self)@.children[bkt as int]->Some_0, idx as int)),
                                        old(self)@.child_count,
                                    ));
                                    assert(idx >= 1);
                                    lemma_split_node_wf(child_v0, idx as int);
                                    lemma_kids_wf_update(
                                        old(self)@.children,
                                        bkt as int,
                                        Some(split_of(child_v0, idx as int)),
                                        0,
                                    );
                                    lemma_count_somes_update(
                                        old(self)@.children,
                                        bkt as int,
                                        Some(split_of(child_v0, idx as int)),
                                        0,
                                    );
                                    assert(node_wf(self@));
                                    assert(can_insert(self@, k0));
                                }
                                self.insert(k, v)
                            } else {
                                let tail = k.split(idx);
                                proof {
                                    assert(tail@ == k0.skip(idx as int));
                                    assert(tail@.len() > 0);
                                    assert(can_insert(child@, tail@));
                                }
                                let prev = child.insert(tail, v);
                                self.children[bkt] = Some(child);
                                proof {
                                    lemma_kids_view(self.children@);
                                    assert(self.children@ == old_kids.update(
                                        bkt as int,
                                        self.children@[bkt as int],
                                    ));
                                    assert(final(self)@.children =~= insert_of(
                                        old(self)@,
                                        k0,
                                        v@,
                                    ).0.children);
                                    assert(final(self)@ =~= insert_of(old(self)@, k0, v@).0);
                                }
                                prev
                            }
                        },
                        KeyMatch::Full => {
                            let prev = child.replace_value(v);
                            self.children[bkt] = Some(child);
                            proof {
                                lemma_kids_view(self.children@);
                                assert(self.children@ == old_kids.update(
                                    bkt as int,
                                    self.children@[bkt as int],
                                ));
                                assert(final(self)@.children =~= insert_of(
                                    old(self)@,
                                    k@,
                                    v@,
                                ).0.children);
                                assert(final(self)@ =~= insert_of(old(self)@, k@, v@).0);
                            }
                            prev
                        },
                        KeyMatch::NoMatch => {
                            proof {
                                assert(false);
                            }
                            vstd::pervasive::unreached()
                        },
                    }
                },
                None => {
                    proof {
                        lemma_kids_view(old(self).children@);
                        assert(self.children@ =~= old(self).children@);
                        lemma_count_somes_slot_none(old(self)@.children, bkt as int, 0);
                    }
                    let prev = self.add_child(bkt, k, v);
                    proof {
                        assert(final(self)@ =~= insert_of(old(self)@, k@, v@).0);
                    }
                    prev
                },
            }
        }
    }
}

} // verus!

verus! {

proof fn lemma_count_somes_single(cs: Seq<Option<NodeV>>, b: int, x: NodeV, i: int)
    requires
        0 <= b < cs.len(),
        0 <= i <= cs.len(),
        forall|j: int| 0 <= j < cs.len() ==> #[trigger] cs[j] == (if j == b { Some(x) } else { None }),
    ensures
        count_somes(cs, i) == (if i <= b { 1nat } else { 0nat }),
    decreases cs.len() - i,
{
    if i < cs.len() {
        lemma_count_somes_single(cs, b, x, i + 1);
    }
}

proof fn lemma_vals_below_single(cs: Seq<Option<NodeV>>, b: int, x: NodeV, i: int)
    requires
        0 <= b < cs.len(),
        0 <= i <= cs.len(),
        forall|j: int| 0 <= j < cs.len() ==> #[trigger] cs[j] == (if j == b { Some(x) } else { None }),
    ensures
        vals_below(cs, i) == (if i <= b { num_vals(x) } else { 0nat }),
    decreases cs.len() - i,
{
    if i < cs.len() {
        lemma_vals_below_single(cs, b, x, i + 1);
    }
}

proof fn lemma_kids_wf_single(cs: Seq<Option<NodeV>>, b: int, x: NodeV, i: int)
    requires
        0 <= b < cs.len(),
        0 <= i <= cs.len(),
        forall|j: int| 0 <= j < cs.len() ==> #[trigger] cs[j] == (if j == b { Some(x) } else { None }),
        x.key.len() > 0,
        bucket_of(x.key[0]) == b,
        node_wf(x),
    ensures
        kids_wf(cs, i),
    decreases cs.len() - i,
{
    if i < cs.len() {
        lemma_kids_wf_single(cs, b, x, i + 1);
    }
}

/// Splitting a well-formed node's label keeps the split node well-formed
/// and moves every stored value into the repackaged child.
pub proof fn lemma_split_node_wf(c: NodeV, i: int)
    requires
        node_wf(c),
        1 <= i < c.key.len(),
    ensures
        node_wf(split_of(c, i)),
        split_of(c, i).key == c.key.take(i),
        split_of(c, i).val is None,
        num_vals(split_of(c, i)) == num_vals(c),
    decreases c.key.len() - i,
{
    let sp = split_of(c, i);
    let rest = NodeV { key: c.key.skip(i), val: c.val, children: c.children, child_count: c.child_count };
    let b = bucket_of(c.key[i]);
    lemma_bucket_of_bounds(c.key[i]);
    assert(rest.key[0] == c.key[i]);
    assert(node_wf(rest));
    assert(forall|j: int|
        0 <= j < sp.children.len() ==> #[trigger] sp.children[j] == (if j == b { Some(rest) } else { None }));
    lemma_count_somes_single(sp.children, b, rest, 0);
    lemma_kids_wf_single(sp.children, b, rest, 0);
    lemma_vals_below_single(sp.children, b, rest, 0);
}

} // verus!

verus! {

/// Index of the first occupied slot of `cs` at or after `i`, or the length
/// when every remaining slot is empty.
pub open spec fn first_some(cs: Seq<Option<NodeV>>, i: int) -> int
    decreases cs.len() - i,
{
    if i < 0 || i >= cs.len() {
        cs.len() as int
    } else if cs[i] is Some {
        i
    } else {
        first_some(cs, i + 1)
    }
}

/// What `Node::prune` does: a node that lost its value and keeps exactly
/// one child is collapsed with that child — labels concatenated, and the
/// child's value, children and counter moving up one level.
pub open spec fn prune_of(c: NodeV) -> NodeV {
    let i = first_some(c.children, 0);
    if c.child_count == 1 && c.val is None && 0 <= i < c.children.len() {
        let g = c.children[i]->Some_0;
        NodeV { key: c.key + g.key, val: g.val, children: g.children, child_count: g.child_count }
    } else {
        c
    }
}

/// What removing `k` below `n` does: the rebuilt node and the value that
/// was stored for `k`, if any.  A miss leaves the node exactly as it was.
pub open spec fn remove_of(n: NodeV, k: Seq<i64>) -> (NodeV, Option<Seq<i64>>)
    decreases n, 17int,
{
    if k == n.key {
        (NodeV { key: n.key, val: None, children: n.children, child_count: n.child_count }, n.val)
    } else if k.len() == 0 {
        (n, None)
    } else {
        let b = bucket_of(k[0]);
        if 0 <= b < n.children.len() {
            match n.children[b] {
                Some(c) => match key_match_of(c.key, k) {
                    KeyMatch::Full => if c.child_count == 0 {
                        (with_child(n, b, None, n.child_count - 1), c.val)
                    } else {
                        let c2 = NodeV { key: c.key, val: None, children: c.children, child_count: c.child_count };
                        (with_child(n, b, Some(prune_of(c2)), n.child_count), c.val)
                    },
                    KeyMatch::Partial(i) => if i < c.key.len() {
                        (n, None)
                    } else {
                        let rec = remove_of(c, k.skip(i as int));
                        (with_child(n, b, Some(rec.0), n.child_count), rec.1)
                    },
                    KeyMatch::NoMatch => (n, None),
                },
                None => (n, None),
            }
        } else {
            (n, None)
        }
    }
}

proof fn lemma_first_some_finds(cs: Seq<Option<NodeV>>, i: int)
    requires
        0 <= i <= cs.len(),
    ensures
        i <= first_some(cs, i) <= cs.len(),
        first_some(cs, i) < cs.len() ==> cs[first_some(cs, i)] is Some,
        forall|j: int| i <= j < first_some(cs, i) ==> cs[j] is None,
    decreases cs.len() - i,
{
    if i < cs.len() && !(cs[i] is Some) {
        lemma_first_some_finds(cs, i + 1);
    }
}

impl Node {
    /// Collapse this node with its sole child after its value was removed.
    pub fn prune(&mut self)
        requires
            old(self).children@.len() == 16,
        ensures
            final(self)@ == prune_of(old(self)@),
    {
        proof {
            lemma_kids_view(self.children@);
            lemma_first_some_finds(self@.children, 0);
        }
        if self.child_count == 1 && self.val.is_none() {
            let mut idx: usize = 0;
            while idx < 16 && self.children[idx].is_none()
                invariant
                    idx <= 16,
                    self.children@.len() == 16,
                    forall|j: int| 0 <= j < idx ==> self.children@[j] is None,
                decreases 16 - idx,
            {
                idx += 1;
            }
            proof {
                lemma_kids_view(self.children@);
                lemma_first_some_finds(self@.children, 0);
                if idx < 16 {
                    assert(self@.children[idx as int] is Some);
                    let fs = first_some(self@.children, 0);
                    if fs < idx as int {
                        assert(self@.children[fs] is Some);
                        assert(self.children@[fs] is None);
                        assert(false);
                    }
                    if fs > idx as int {
                        assert(self@.children[idx as int] is None);
                        assert(false);
                    }
                    assert(fs == idx as int);
                }
            }
            if idx == 16 {
                proof {
                    assert(final(self)@ =~= prune_of(old(self)@));
                }
                return;
            }
            let taken = self.children[idx].take();
            match taken {
                Some(mut g) => {
                    self.key.merge(&mut g.key);
                    let gval = g.val.take();
                    self.val = gval;
                    core::mem::swap(&mut self.children, &mut g.children);
                    self.child_count = g.child_count;
                    proof {
                        lemma_kids_view(self.children@);
                        assert(final(self)@.children =~= prune_of(old(self)@).children);
                        assert(final(self)@ =~= prune_of(old(self)@));
                    }
                },
                None => {
                    proof {
                        assert(self.children@ =~= old(self).children@);
                        assert(final(self)@.children =~= prune_of(old(self)@).children);
                        assert(final(self)@ =~= prune_of(old(self)@));
                    }
                },
            }
        }
    }

    /// Remove the value stored for `k` below this node, clearing or
    /// collapsing the emptied child, and hand the value back.
    pub fn remove(&mut self, k: Key) -> (removed: Option<Vec<i64>>)
        requires
            k@.len() > 0,
            node_wf(old(self)@),
        ensures
            final(self)@ == remove_of(old(self)@, k@).0,
            opt_val_view(removed) == remove_of(old(self)@, k@).1,
        decreases k@.len(),
    {
        proof {
            lemma_kids_view(self.children@);
        }
        let mut k = k;
        let ghost k0 = k@;
        let bkt = k.get_bucket();
        if self.key == k {
            let removed = self.val.take();
            removed
        } else {
            let ghost old_kids = self.children@;
            let taken = self.children[bkt].take();
            match taken {
                Some(mut child) => {
                    proof {
                        lemma_kids_wf_index(old(self)@.children, 0, bkt as int);
                        lemma_common_len(child.key@, k@);
                    }
                    match child.key.match_key(&k) {
                        KeyMatch::Full => {
                            let removed = child.val.take();
                            if child.child_count == 0 {
                                proof {
                                    lemma_count_somes_slot_some(old(self)@.children, bkt as int, 0);
                                }
                                self.child_count = self.child_count - 1;
                                proof {
                                    lemma_kids_view(self.children@);
                                    assert(self.children@ == old_kids.update(bkt as int, None));
                                    assert(final(self)@.children =~= remove_of(old(self)@, k0).0.children);
                                    assert(final(self)@ =~= remove_of(old(self)@, k0).0);
                                }
                                removed
                            } else {
                                proof {
                                    lemma_kids_view(child.children@);
                                    assert(child.children@.len() == 16);
                                }
                                child.prune();
                                self.children[bkt] = Some(child);
                                proof {
                                    lemma_kids_view(self.children@);
                                    assert(self.children@ == old_kids.update(
                                        bkt as int,
                                        self.children@[bkt as int],
                                    ));
                                    assert(final(self)@.children =~= remove_of(old(self)@, k0).0.children);
                                    assert(final(self)@ =~= remove_of(old(self)@, k0).0);
                                }
                                removed
                            }
                        },
                        KeyMatch::Partial(idx) => {
                            if idx < child.key.len() {
                                self.children[bkt] = Some(child);
                                proof {
                                    lemma_kids_view(self.children@);
                                    assert(self.children@ == old_kids.update(
                                        bkt as int,
                                        self.children@[bkt as int],
                                    ));
                                    assert(self.children@ =~= old_kids);
                                    assert(final(self)@ =~= remove_of(old(self)@, k0).0);
                                }
                                None
                            } else {
                                let tail = k.split(idx);
                                proof {
                                    assert(tail@ == k0.skip(idx as int));
                                    assert(tail@.len() > 0);
                                }
                                let removed = child.remove(tail);
                                self.children[bkt] = Some(child);
                                proof {
                                    lemma_kids_view(self.children@);
                                    assert(self.children@ == old_kids.update(
                                        bkt as int,
                                        self.children@[bkt as int],
                                    ));
                                    assert(final(self)@.children =~= remove_of(old(self)@, k0).0.children);
                                    assert(final(self)@ =~= remove_of(old(self)@, k0).0);
                                }
                                removed
                            }
                        },
                        KeyMatch::NoMatch => {
                            self.children[bkt] = Some(child);
                            proof {
                                lemma_kids_view(self.children@);
                                assert(self.children@ == old_kids.update(
                                    bkt as int,
                                    self.children@[bkt as int],
                                ));
                                assert(self.children@ =~= old_kids);
                                assert(final(self)@ =~= remove_of(old(self)@, k0).0);
                            }
                            None
                        },
                    }
                },
                None => {
                    proof {
                        assert(self.children@ =~= old_kids);
                        assert(final(self)@ =~= remove_of(old(self)@, k0).0);
                    }
                    None
                },
            }
        }
    }
}

} // verus!

verus! {

/// The view of a sequence of (key, value) vector pairs.
pub open spec fn pairs_view(s: Seq<(Vec<i64>, Vec<i64>)>) -> Seq<(Seq<i64>, Seq<i64>)> {
    s.map_values(|p: (Vec<i64>, Vec<i64>)| (p.0@, p.1@))
}

/// Every (key, value) entry stored at or below `n`, keys spelled out by
/// concatenating edge labels from `prefix` down, children first in slot
/// order and the node's own entry last.
pub open spec fn kvs_of(n: NodeV, prefix: Seq<i64>) -> Seq<(Seq<i64>, Seq<i64>)>
    decreases n, 17int,
{
    let p = prefix + n.key;
    kvs_below(n.children, 0, p) + (match n.val {
        Some(v) => seq![(p, v)],
        None => Seq::empty(),
    })
}

pub open spec fn kvs_below(cs: Seq<Option<NodeV>>, i: int, p: Seq<i64>) -> Seq<
    (Seq<i64>, Seq<i64>),
>
    decreases cs, cs.len() - i,
{
    if i < 0 || i >= cs.len() {
        Seq::empty()
    } else {
        (match cs[i] {
            Some(c) => kvs_of(c, p),
            None => Seq::empty(),
        }) + kvs_below(cs, i + 1, p)
    }
}

/// The structural-integrity predicate on a non-root node: it is not both
/// value-less and single-child, its label is non-empty, and the same holds
/// below it.
pub open spec fn node_ok(n: NodeV) -> bool
    decreases n, 17int,
{
    &&& !(n.child_count == 1 && n.val is None)
    &&& n.key.len() > 0
    &&& kids_ok(n.children, 0)
}

pub open spec fn kids_ok(cs: Seq<Option<NodeV>>, i: int) -> bool
    decreases cs, cs.len() - i,
{
    if i < 0 || i >= cs.len() {
        true
    } else {
        (match cs[i] {
            Some(c) => node_ok(c),
            None => true,
        }) && kids_ok(cs, i + 1)
    }
}

proof fn lemma_kids_ok_build(cs: Seq<Option<NodeV>>, i: int)
    requires
        0 <= i,
        forall|j: int|
            i <= j < cs.len() ==> (match #[trigger] cs[j] {
                Some(c) => node_ok(c),
                None => true,
            }),
    ensures
        kids_ok(cs, i),
    decreases cs.len() - i,
{
    if i < cs.len() {
        lemma_kids_ok_build(cs, i + 1);
    }
}

proof fn lemma_kids_ok_break(cs: Seq<Option<NodeV>>, i: int, j: int)
    requires
        0 <= i <= j < cs.len(),
        cs[j] is Some,
        !node_ok(cs[j]->Some_0),
    ensures
        !kids_ok(cs, i),
    decreases j - i,
{
    if i < j {
        lemma_kids_ok_break(cs, i + 1, j);
    }
}

/// Copy a value vector element by element.
fn copy_vals(v: &Vec<i64>) -> (r: Vec<i64>)
    ensures
        r@ == v@,
{
    let mut r: Vec<i64> = Vec::new();
    let mut i: usize = 0;
    while i < v.len()
        invariant
            i <= v@.len(),
            r@ == v@.take(i as int),
        decreases v@.len() - i,
    {
        let x = v[i];
        r.push(x);
        proof {
            assert(r@ =~= v@.take(i + 1));
        }
        i += 1;
    }
    proof {
        assert(r@ =~= v@);
    }
    r
}

impl Node {
    /// Check the structural-integrity predicate on this node and its
    /// subtree, short-circuiting on the first violation.
    pub fn check_integrity(&self) -> (r: bool)
        requires
            node_wf(self@),
        ensures
            r == node_ok(self@),
        decreases self@,
    {
        proof {
            lemma_kids_view(self.children@);
        }
        if (self.child_count == 1 && self.val.is_none()) || self.key.is_empty() {
            proof {
                lemma_kids_view(self.children@);
            }
            return false;
        }
        let mut i: usize = 0;
        while i < 16
            invariant
                i <= 16,
                node_wf(self@),
                self@.children.len() == 16,
                self.children@.len() == 16,
                !(self@.child_count == 1 && self@.val is None),
                self@.key.len() > 0,
                forall|j: int|
                    0 <= j < i ==> (match #[trigger] self@.children[j] {
                        Some(c) => node_ok(c),
                        None => true,
                    }),
            decreases 16 - i,
        {
            proof {
                lemma_kids_view(self.children@);
            }
            match &self.children[i] {
                Some(child) => {
                    proof {
                        lemma_kids_wf_index(self@.children, 0, i as int);
                    }
                    if !child.check_integrity() {
                        proof {
                            lemma_kids_ok_break(self@.children, 0, i as int);
                        }
                        return false;
                    }
                },
                None => {},
            }
            i += 1;
        }
        proof {
            lemma_kids_ok_build(self@.children, 0);
        }
        true
    }

    /// Append every (key, value) pair stored at or below this node to
    /// `kvs`, spelling each key out from the path prefix `k`.
    pub fn key_values(&self, kvs: &mut Vec<(Vec<i64>, Vec<i64>)>, k: Vec<i64>)
        requires
            node_wf(self@),
        ensures
            pairs_view(final(kvs)@) == pairs_view(old(kvs)@) + kvs_of(self@, k@),
        decreases self@,
    {
        proof {
            lemma_kids_view(self.children@);
        }
        let ghost k0 = k@;
        let mut k = k;
        let mut label = copy_vals(&self.key.data);
        k.append(&mut label);
        let ghost p = k@;
        proof {
            assert(p == k0 + self@.key);
        }
        let mut i: usize = 0;
        while i < 16
            invariant
                i <= 16,
                node_wf(self@),
                self@.children.len() == 16,
                self.children@.len() == 16,
                k@ == p,
                pairs_view(kvs@) == pairs_view(old(kvs)@) + kvs_upto(self@.children, i as int, p),
            decreases 16 - i,
        {
            proof {
                lemma_kids_view(self.children@);
            }
            match &self.children[i] {
                Some(child) => {
                    proof {
                        lemma_kids_wf_index(self@.children, 0, i as int);
                    }
                    let kc = copy_vals(&k);
                    child.key_values(kvs, kc);
                    proof {
                        assert(pairs_view(kvs@) =~= pairs_view(old(kvs)@) + kvs_upto(
                            self@.children,
                            i + 1,
                            p,
                        ));
                    }
                },
                None => {
                    proof {
                        assert(kvs_upto(self@.children, i + 1, p) =~= kvs_upto(
                            self@.children,
                            i as int,
                            p,
                        ));
                    }
                },
            }
            i += 1;
        }
        proof {
            lemma_kvs_upto_below(self@.children, 16, p);
            assert(kvs_upto(self@.children, 16, p) =~= kvs_below(self@.children, 0, p));
        }
        match &self.val {
            Some(val) => {
                let kk = copy_vals(&k);
                let vv = copy_vals(val);
                let ghost pre = kvs@;
                let ghost pair = (kk@, vv@);
                kvs.push((kk, vv));
                proof {
                    assert(kvs_of(self@, k0) == kvs_below(self@.children, 0, p) + seq![
                        (p, self@.val->Some_0),
                    ]);
                    assert(pair == (p, self@.val->Some_0));
                    assert(kvs@ == pre.push((kk, vv)));
                    assert(pairs_view(kvs@) =~= pairs_view(pre).push(pair));
                    assert(pairs_view(pre) == pairs_view(old(kvs)@) + kvs_upto(self@.children, 16, p));
                    assert(pairs_view(kvs@) =~= pairs_view(old(kvs)@) + kvs_of(self@, k0));
                }
            },
            None => {
                proof {
                    assert(kvs_of(self@, k0) =~= kvs_below(self@.children, 0, k0 + self@.key));
                    assert(pairs_view(kvs@) =~= pairs_view(old(kvs)@) + kvs_of(self@, k0));
                }
            },
        }
    }
}

/// Entries of the slots in `[0, i)`, in slot order.
pub open spec fn kvs_upto(cs: Seq<Option<NodeV>>, i: int, p: Seq<i64>) -> Seq<
    (Seq<i64>, Seq<i64>),
>
    decreases i,
{
    if i <= 0 {
        Seq::empty()
    } else {
        kvs_upto(cs, i - 1, p) + (match cs[i - 1] {
            Some(c) => kvs_of(c, p),
            None => Seq::empty(),
        })
    }
}

proof fn lemma_kvs_upto_below(cs: Seq<Option<NodeV>>, i: int, p: Seq<i64>)
    requires
        0 <= i <= cs.len(),
    ensures
        kvs_upto(cs, i, p) + kvs_below(cs, i, p) == kvs_below(cs, 0, p),
    decreases i,
{
    if i == 0 {
        assert(kvs_upto(cs, 0, p) + kvs_below(cs, 0, p) =~= kvs_below(cs, 0, p));
    } else {
        lemma_kvs_upto_below(cs, i - 1, p);
        assert(kvs_upto(cs, i, p) + kvs_below(cs, i, p) =~= kvs_upto(cs, i - 1, p)
            + kvs_below(cs, i - 1, p));
    }
}

} // verus!

verus! {

/// The common prefix length is exactly `i` when the elements below `i`
/// agree and the sequences end or differ at `i`.
proof fn lemma_common_len_is(a: Seq<i64>, b: Seq<i64>, i: nat)
    requires
        i <= a.len(),
        i <= b.len(),
        forall|j: int| 0 <= j < i ==> a[j] == b[j],
        i < a.len() && i < b.len() ==> a[i as int] != b[i as int],
    ensures
        common_len(a, b) == i,
{
    lemma_common_skip(a, b, 0, i);
}

proof fn lemma_common_skip(a: Seq<i64>, b: Seq<i64>, j: nat, i: nat)
    requires
        j <= i <= a.len(),
        i <= b.len(),
        forall|jj: int| j <= jj < i ==> a[jj] == b[jj],
        i < a.len() && i < b.len() ==> a[i as int] != b[i as int],
    ensures
        common_from(a, b, j) == i,
    decreases i - j,
{
    if j < i {
        lemma_common_skip(a, b, j + 1, i);
    }
}

proof fn lemma_common_len_self(a: Seq<i64>)
    ensures
        common_len(a, a) == a.len(),
        key_match_of(a, a) == KeyMatch::Full,
{
    lemma_common_skip(a, a, 0, a.len());
}

/// A fresh leaf is well-formed and stores exactly one value.
proof fn lemma_leaf_wf(k: Seq<i64>, v: Seq<i64>)
    ensures
        node_wf(leaf_of(k, v)),
        num_vals(leaf_of(k, v)) == 1,
        kid_count(leaf_of(k, v)) == 0,
{
    let l = leaf_of(k, v);
    assert(forall|j: int| 0 <= j < 16 ==> l.children[j] is None);
    lemma_count_somes_none(l.children, 0);
    lemma_kids_wf_none(l.children, 0);
    lemma_vals_below_none(l.children, 0);
}

/// Splitting the child in `k`'s slot does not change what `k`'s descent
/// finds: it found nothing before the split and finds nothing after it.
proof fn lemma_lookup_after_split(n: NodeV, k: Seq<i64>, c: NodeV, i: usize)
    requires
        node_wf(n),
        k.len() > 0,
        k.len() <= usize::MAX,
        k != n.key,
        0 <= bucket_of(k[0]) < 16,
        n.children[bucket_of(k[0])] == Some(c),
        c.key.len() > 0,
        key_match_of(c.key, k) == KeyMatch::Partial(i),
        i < c.key.len(),
        1 <= i,
    ensures
        lookup(with_child(n, bucket_of(k[0]), Some(split_of(c, i as int)), n.child_count), k)
            == lookup(n, k),
        lookup(n, k) is None,
{
    let b = bucket_of(k[0]);
    let cp = split_of(c, i as int);
    let n2 = with_child(n, b, Some(cp), n.child_count);
    lemma_common_len(c.key, k);
    assert(lookup(n, k) is None);
    assert(n2.key == n.key);
    assert(n2.children[b] == Some(cp));
    assert(cp.key == c.key.take(i as int));
    if i < k.len() {
        lemma_common_len_is(cp.key, k, i as nat);
        assert(key_match_of(cp.key, k) == KeyMatch::Partial(i));
        let k2 = k.skip(i as int);
        assert(k2.len() > 0);
        assert(lookup(n2, k) == lookup(cp, k2));
        if k2 == cp.key {
            assert(lookup(cp, k2) == cp.val);
            assert(cp.val is None);
        } else {
            let b2 = bucket_of(k2[0]);
            lemma_bucket_of_bounds(k2[0]);
            assert(k2[0] == k[i as int]);
            if b2 == bucket_of(c.key[i as int]) {
                let rest = cp.children[b2]->Some_0;
                assert(rest.key == c.key.skip(i as int));
                assert(rest.key[0] == c.key[i as int]);
                assert(c.key[i as int] != k[i as int]);
                lemma_common_len_is(rest.key, k2, 0);
                assert(key_match_of(rest.key, k2) == KeyMatch::NoMatch);
                assert(lookup(cp, k2) is None);
            } else {
                assert(cp.children[b2] is None);
                assert(lookup(cp, k2) is None);
            }
        }
    } else {
        assert(i == k.len());
        lemma_common_len_is(cp.key, k, i as nat);
        assert(key_match_of(cp.key, k) == KeyMatch::Full);
        assert(lookup(n2, k) == cp.val);
        assert(cp.val is None);
    }
}

/// What one insertion does, stated against the descent semantics: the
/// rebuilt node keeps its label and its shape invariant, hands back
/// exactly what the descent stored for `k`, afterwards stores `v` for
/// `k`, and gains one stored value exactly when `k` was absent.
pub proof fn lemma_insert_of(n: NodeV, k: Seq<i64>, v: Seq<i64>)
    requires
        node_wf(n),
        k.len() > 0,
        k.len() <= usize::MAX,
        can_insert(n, k),
    ensures
        node_wf(insert_of(n, k, v).0),
        insert_of(n, k, v).0.key == n.key,
        insert_of(n, k, v).1 == lookup(n, k),
        lookup(insert_of(n, k, v).0, k) == Some(v),
        num_vals(insert_of(n, k, v).0) == num_vals(n) + (if insert_of(n, k, v).1 is None {
            1nat
        } else {
            0nat
        }),
    decreases k.len(), label_len_at(n, k),
{
    let r = insert_of(n, k, v);
    if k == n.key {
        assert(r.0.children == n.children);
        assert(vals_below(r.0.children, 0) == vals_below(n.children, 0));
        assert(lookup(r.0, k) == Some(v));
    } else {
        let b = bucket_of(k[0]);
        lemma_bucket_of_bounds(k[0]);
        match n.children[b] {
            None => {
                let leaf = leaf_of(k, v);
                lemma_leaf_wf(k, v);
                lemma_kids_wf_update(n.children, b, Some(leaf), 0);
                lemma_count_somes_update(n.children, b, Some(leaf), 0);
                lemma_vals_below_update(n.children, b, Some(leaf), 0);
                lemma_common_len_self(k);
                assert(lookup(n, k) is None);
                assert(r.0.children[b] == Some(leaf));
                assert(lookup(r.0, k) == leaf.val);
            },
            Some(c) => {
                lemma_kids_wf_index(n.children, 0, b);
                lemma_common_len(c.key, k);
                match key_match_of(c.key, k) {
                    KeyMatch::Full => {
                        let c2 = NodeV { key: c.key, val: Some(v), children: c.children, child_count: c.child_count };
                        assert(node_wf(c2));
                        lemma_kids_wf_update(n.children, b, Some(c2), 0);
                        lemma_count_somes_update(n.children, b, Some(c2), 0);
                        lemma_vals_below_update(n.children, b, Some(c2), 0);
                        assert(lookup(n, k) == c.val);
                        assert(lookup(r.0, k) == c2.val);
                    },
                    KeyMatch::NoMatch => {
                        assert(!can_insert(n, k));
                    },
                    KeyMatch::Partial(i) => {
                        if i < c.key.len() {
                            assert(i >= 1);
                            let cp = split_of(c, i as int);
                            let n2 = with_child(n, b, Some(cp), n.child_count);
                            lemma_split_node_wf(c, i as int);
                            lemma_kids_wf_update(n.children, b, Some(cp), 0);
                            lemma_count_somes_update(n.children, b, Some(cp), 0);
                            lemma_vals_below_update(n.children, b, Some(cp), 0);
                            assert(node_wf(n2));
                            assert(num_vals(n2) == num_vals(n));
                            assert(label_len_at(n2, k) == i < label_len_at(n, k));
                            lemma_insert_of(n2, k, v);
                            lemma_lookup_after_split(n, k, c, i);
                            assert(insert_of(n, k, v) == insert_of(n2, k, v));
                        } else if c.key.len() == 0 {
                            assert(false);
                        } else {
                            let k2 = k.skip(i as int);
                            assert(i == c.key.len());
                            assert(i < k.len());
                            assert(k2.len() > 0);
                            let rec = insert_of(c, k2, v);
                            lemma_insert_of(c, k2, v);
                            assert(rec.0.key == c.key);
                            lemma_kids_wf_update(n.children, b, Some(rec.0), 0);
                            lemma_count_somes_update(n.children, b, Some(rec.0), 0);
                            lemma_vals_below_update(n.children, b, Some(rec.0), 0);
                            assert(lookup(n, k) == lookup(c, k2));
                            assert(r.0.children[b] == Some(rec.0));
                            assert(key_match_of(rec.0.key, k) == KeyMatch::Partial(i));
                            assert(lookup(r.0, k) == lookup(rec.0, k2));
                        }
                    },
                }
            },
        }
    }
}

} // verus!

verus! {

proof fn lemma_count_somes_zero(cs: Seq<Option<NodeV>>, i: int)
    requires
        count_somes(cs, i) == 0,
        0 <= i,
    ensures
        forall|j: int| i <= j < cs.len() ==> cs[j] is None,
    decreases cs.len() - i,
{
    if i < cs.len() {
        lemma_count_somes_zero(cs, i + 1);
    }
}

/// A row counting exactly one occupant has it at `first_some` and nowhere
/// else.
proof fn lemma_count_somes_one(cs: Seq<Option<NodeV>>, i: int)
    requires
        count_somes(cs, i) == 1,
        0 <= i,
    ensures
        i <= first_some(cs, i) < cs.len(),
        cs[first_some(cs, i)] is Some,
        forall|j: int| i <= j < cs.len() && j != first_some(cs, i) ==> cs[j] is None,
    decreases cs.len() - i,
{
    if i < cs.len() {
        if cs[i] is Some {
            lemma_count_somes_zero(cs, i + 1);
        } else {
            lemma_count_somes_one(cs, i + 1);
        }
    }
}

/// Collapsing a value-less single-child node preserves well-formedness,
/// the number of stored values, and the first label element.
proof fn lemma_prune_of(c: NodeV)
    requires
        node_wf(c),
        c.val is None,
        c.key.len() > 0,
    ensures
        node_wf(prune_of(c)),
        num_vals(prune_of(c)) == num_vals(c),
        prune_of(c).key.len() > 0,
        prune_of(c).key[0] == c.key[0],
        prune_of(c).key.len() >= c.key.len(),
        prune_of(c).key.take(c.key.len() as int) == c.key,
        prune_of(c).key == c.key ==> prune_of(c) == c,
{
    let fs = first_some(c.children, 0);
    if c.child_count == 1 && 0 <= fs < c.children.len() {
        lemma_count_somes_one(c.children, 0);
        lemma_kids_wf_index(c.children, 0, fs);
        let g = c.children[fs]->Some_0;
        let m = prune_of(c);
        assert(m.key == c.key + g.key);
        assert(m.key[0] == c.key[0]);
        assert(m.key.take(c.key.len() as int) =~= c.key);
        assert(node_wf(g));
        assert(node_wf(m));
        assert(forall|j: int|
            0 <= j < c.children.len() ==> #[trigger] c.children[j] == (if j == fs {
                Some(g)
            } else {
                None
            }));
        lemma_vals_below_single(c.children, fs, g, 0);
        assert(num_vals(c) == num_vals(g));
    } else {
        if c.child_count == 1 {
            lemma_count_somes_one(c.children, 0);
            assert(false);
        }
        assert(prune_of(c) == c);
        assert(prune_of(c).key.take(c.key.len() as int) =~= c.key);
    }
}

/// What one removal does, stated against the descent semantics: the
/// rebuilt node keeps its label and its shape invariant, hands back
/// exactly what the descent stored for `k`, afterwards stores nothing for
/// `k`, and loses one stored value exactly when `k` was present.
pub proof fn lemma_remove_of(n: NodeV, k: Seq<i64>)
    requires
        node_wf(n),
        k.len() > 0,
        k.len() <= usize::MAX,
    ensures
        node_wf(remove_of(n, k).0),
        remove_of(n, k).0.key == n.key,
        remove_of(n, k).1 == lookup(n, k),
        lookup(remove_of(n, k).0, k) is None,
        num_vals(remove_of(n, k).0) + (if remove_of(n, k).1 is Some {
            1nat
        } else {
            0nat
        }) == num_vals(n),
    decreases n, 17int,
{
    let r = remove_of(n, k);
    if k == n.key {
        assert(r.0.children == n.children);
        assert(vals_below(r.0.children, 0) == vals_below(n.children, 0));
    } else {
        let b = bucket_of(k[0]);
        lemma_bucket_of_bounds(k[0]);
        match n.children[b] {
            None => {},
            Some(c) => {
                lemma_kids_wf_index(n.children, 0, b);
                lemma_common_len(c.key, k);
                match key_match_of(c.key, k) {
                    KeyMatch::Full => {
                        assert(k == c.key);
                        if c.child_count == 0 {
                            lemma_kids_wf_update(n.children, b, None, 0);
                            lemma_count_somes_update(n.children, b, None, 0);
                            lemma_vals_below_update(n.children, b, None, 0);
                            assert(kid_count(c) == 0);
                            lemma_count_somes_zero(c.children, 0);
                            lemma_vals_below_none(c.children, 0);
                            assert(num_vals(c) == (if c.val is Some {
                                1nat
                            } else {
                                0nat
                            }));
                            assert(r.0.children[b] is None);
                            assert(lookup(r.0, k) is None);
                        } else {
                            let c2 = NodeV { key: c.key, val: None, children: c.children, child_count: c.child_count };
                            assert(node_wf(c2));
                            lemma_prune_of(c2);
                            let c3 = prune_of(c2);
                            lemma_kids_wf_update(n.children, b, Some(c3), 0);
                            lemma_count_somes_update(n.children, b, Some(c3), 0);
                            lemma_vals_below_update(n.children, b, Some(c3), 0);
                            assert(num_vals(c2) + (if c.val is Some {
                                1nat
                            } else {
                                0nat
                            }) == num_vals(c));
                            if c3.key == c.key {
                                assert(c3 == c2);
                                assert(lookup(r.0, k) == c3.val);
                            } else {
                                assert(c3.key.len() > c.key.len());
                                assert(forall|j: int| 0 <= j < k.len() ==> c3.key[j] == k[j]);
                                lemma_common_len_is(c3.key, k, k.len());
                                assert(key_match_of(c3.key, k) == KeyMatch::Partial(k.len() as usize));
                                assert(lookup(r.0, k) is None);
                            }
                        }
                    },
                    KeyMatch::NoMatch => {},
                    KeyMatch::Partial(i) => {
                        if i < c.key.len() {
                        } else {
                            let k2 = k.skip(i as int);
                            assert(i == c.key.len());
                            assert(i < k.len());
                            assert(k2.len() > 0);
                            lemma_remove_of(c, k2);
                            let rec = remove_of(c, k2);
                            lemma_kids_wf_update(n.children, b, Some(rec.0), 0);
                            lemma_count_somes_update(n.children, b, Some(rec.0), 0);
                            lemma_vals_below_update(n.children, b, Some(rec.0), 0);
                            assert(lookup(n, k) == lookup(c, k2));
                            assert(key_match_of(rec.0.key, k) == KeyMatch::Partial(i));
                            assert(lookup(r.0, k) == lookup(rec.0, k2));
                        }
                    },
                }
            },
        }
    }
}

} // verus!

verus! {

/// The structural-integrity predicate at the whole-tree level: the root's
/// own label and value are exempt, its subtrees are checked.
pub open spec fn trie_ok(n: NodeV) -> bool {
    kids_ok(n.children, 0)
}

/// A recursive trie mapping sequences of `i64` to sequences of `i64`.
#[derive(Debug, PartialEq)]
pub struct Trie {
    pub(crate) length: usize,
    pub(crate) root: Node,
}

impl View for Trie {
    type V = NodeV;

    closed spec fn view(&self) -> NodeV {
        self.root@
    }
}

impl Trie {
    /// The shape invariant: a well-formed root with an empty label, and a
    /// length field counting exactly the stored values.
    pub closed spec fn wf(&self) -> bool {
        &&& node_wf(self@)
        &&& self@.key == Seq::<i64>::empty()
        &&& self.length == num_vals(self@)
    }

    /// The number of stored entries, as the length field tracks it.
    pub closed spec fn spec_len(&self) -> nat {
        self.length as nat
    }

    /// Create a new empty trie.
    pub fn new() -> (t: Trie)
        ensures
            t.wf(),
            t.spec_len() == 0,
            num_vals(t@) == 0,
            t@.val is None,
            trie_ok(t@),
            tidy_kids(t@.children, 0),
            t@.children.len() == 16,
            t@.child_count == 0,
            forall|j: int| 0 <= j < 16 ==> t@.children[j] is None,
            forall|k: Seq<i64>| lookup(t@, k) is None,
    {
        let t = Trie { length: 0, root: Node::new() };
        proof {
            lemma_vals_below_none(t@.children, 0);
            lemma_kids_ok_build(t@.children, 0);
            lemma_tidy_kids_pointwise(t@.children, 0);
            assert forall|k: Seq<i64>| lookup(t@, k) is None by {
                if k != t@.key && k.len() > 0 {
                    lemma_bucket_of_bounds(k[0]);
                }
            }
        }
        t
    }

    /// Number of entries in the trie.
    pub fn len(&self) -> (n: usize)
        ensures
            n == self.spec_len(),
            self.wf() ==> n == num_vals(self@),
    {
        self.length
    }

    /// Check whether the trie holds no entry.
    pub fn is_empty(&self) -> (r: bool)
        ensures
            r == (self.spec_len() == 0),
    {
        self.length == 0
    }

    /// Drop every entry, leaving a fresh empty trie.
    pub fn clear(&mut self)
        ensures
            final(self).wf(),
            final(self).spec_len() == 0,
            num_vals(final(self)@) == 0,
            final(self)@.key == Seq::<i64>::empty(),
            final(self)@.val is None,
            final(self)@.children.len() == 16,
            final(self)@.child_count == 0,
            forall|j: int| 0 <= j < 16 ==> final(self)@.children[j] is None,
            trie_ok(final(self)@),
            tidy_kids(final(self)@.children, 0),
            forall|k: Seq<i64>| lookup(final(self)@, k) is None,
    {
        self.root = Node::new();
        self.length = 0;
        proof {
            lemma_vals_below_none(self@.children, 0);
            lemma_kids_ok_build(self@.children, 0);
            lemma_tidy_kids_pointwise(self@.children, 0);
            assert forall|k: Seq<i64>| lookup(self@, k) is None by {
                if k != self@.key && k.len() > 0 {
                    lemma_bucket_of_bounds(k[0]);
                }
            }
        }
    }

    /// Insert a key-value entry, handing back the value previously stored
    /// for exactly that key.  An empty key is stored at the root itself,
    /// where lookups do not reach it.
    pub fn insert(&mut self, key: Vec<i64>, val: Vec<i64>) -> (prev: Option<Vec<i64>>)
        requires
            old(self).wf(),
            can_insert(old(self)@, key@),
            old(self).spec_len() < usize::MAX,
        ensures
            final(self).wf(),
            final(self)@ == insert_of(old(self)@, key@, val@).0,
            opt_val_view(prev) == insert_of(old(self)@, key@, val@).1,
            opt_val_view(prev) == lookup(old(self)@, key@),
            lookup(final(self)@, key@) == Some(val@),
            final(self).spec_len() == old(self).spec_len() + (if prev is None {
                1int
            } else {
                0int
            }),
            tidy_kids(old(self)@.children, 0) ==> tidy_kids(final(self)@.children, 0) && trie_ok(
                final(self)@,
            ),
    {
        let k = Key::new(key);
        let klen = k.len();
        let prev = if klen == 0 {
            proof {
                assert(key@ =~= Seq::<i64>::empty());
                assert(key@ == old(self)@.key);
            }
            self.root.replace_value(val)
        } else {
            proof {
                lemma_insert_of(old(self)@, k@, val@);
            }
            self.root.insert(k, val)
        };
        proof {
            if tidy_kids(old(self)@.children, 0) {
                if klen > 0 {
                    lemma_insert_keeps_integrity(old(self)@, key@, val@);
                } else {
                    lemma_tidy_ok_kids(self@.children, 0);
                }
            }
        }
        match prev {
            Some(p) => Some(p),
            None => {
                self.length = self.length + 1;
                None
            },
        }
    }

    /// Remove the entry stored for `key`, handing its value back.  An
    /// empty key removes nothing and leaves the trie untouched.
    pub fn remove(&mut self, key: Vec<i64>) -> (removed: Option<Vec<i64>>)
        requires
            old(self).wf(),
        ensures
            final(self).wf(),
            key@.len() == 0 ==> *final(self) == *old(self) && removed is None,
            key@.len() > 0 ==> final(self)@ == remove_of(old(self)@, key@).0,
            opt_val_view(removed) == (if key@.len() == 0 {
                None::<Seq<i64>>
            } else {
                lookup(old(self)@, key@)
            }),
            key@.len() > 0 ==> lookup(final(self)@, key@) is None,
            final(self).spec_len() + (if removed is Some {
                1int
            } else {
                0int
            }) == old(self).spec_len(),
    {
        let k = Key::new(key);
        let klen = k.len();
        if klen == 0 {
            return None;
        }
        proof {
            lemma_remove_of(old(self)@, k@);
        }
        let removed = self.root.remove(k);
        match removed {
            Some(v) => {
                self.length = self.length - 1;
                Some(v)
            },
            None => None,
        }
    }

    /// Retrieve the value stored for `key`; an empty key finds nothing.
    pub fn get(&self, key: Vec<i64>) -> (r: Option<&Vec<i64>>)
        requires
            self.wf(),
        ensures
            opt_ref_view(r) == (if key@.len() == 0 {
                None::<Seq<i64>>
            } else {
                lookup(self@, key@)
            }),
    {
        let k = Key::new(key);
        if k.is_empty() {
            None
        } else {
            self.root.get(k)
        }
    }

    /// Check the structural-integrity invariant below the root: no stored
    /// node is both value-less and single-child, and none has an empty
    /// label.  The root itself is exempt.
    pub fn check_integrity(&self) -> (r: bool)
        requires
            self.wf(),
        ensures
            r == trie_ok(self@),
    {
        proof {
            lemma_kids_view(self.root.children@);
        }
        let mut i: usize = 0;
        while i < 16
            invariant
                i <= 16,
                self.wf(),
                self@.children.len() == 16,
                self.root.children@.len() == 16,
                forall|j: int|
                    0 <= j < i ==> (match #[trigger] self@.children[j] {
                        Some(c) => node_ok(c),
                        None => true,
                    }),
            decreases 16 - i,
        {
            proof {
                lemma_kids_view(self.root.children@);
            }
            match &self.root.children[i] {
                Some(child) => {
                    proof {
                        lemma_kids_wf_index(self@.children, 0, i as int);
                    }
                    if !child.check_integrity() {
                        proof {
                            lemma_kids_ok_break(self@.children, 0, i as int);
                        }
                        return false;
                    }
                },
                None => {},
            }
            i += 1;
        }
        proof {
            lemma_kids_ok_build(self@.children, 0);
        }
        true
    }

    /// Every (key, value) entry of the trie, keys reconstructed by
    /// concatenating edge labels along each path, children before their
    /// parent's own entry.
    pub fn key_values(&self) -> (kvs: Vec<(Vec<i64>, Vec<i64>)>)
        requires
            self.wf(),
        ensures
            pairs_view(kvs@) == kvs_of(self@, Seq::<i64>::empty()),
    {
        let mut kvs: Vec<(Vec<i64>, Vec<i64>)> = Vec::new();
        self.root.key_values(&mut kvs, Vec::new());
        proof {
            assert(pairs_view(kvs@) =~= kvs_of(self@, Seq::<i64>::empty()));
        }
        kvs
    }
}

impl Default for Trie {
    /// A default trie is a new empty trie.
    fn default() -> (t: Trie)
        ensures
            t.wf(),
            t.spec_len() == 0,
    {
        Trie::new()
    }
}

} // verus!

verus! {

/// Overwrite law: inserting at a key that already stores `v1` hands `v1`
/// back, stores `v2` afterwards, and leaves the number of entries
/// unchanged.
pub proof fn lemma_overwrite(t: NodeV, k: Seq<i64>, v1: Seq<i64>, v2: Seq<i64>)
    requires
        node_wf(t),
        k.len() > 0,
        k.len() <= usize::MAX,
        can_insert(t, k),
        lookup(t, k) == Some(v1),
    ensures
        insert_of(t, k, v2).1 == Some(v1),
        lookup(insert_of(t, k, v2).0, k) == Some(v2),
        num_vals(insert_of(t, k, v2).0) == num_vals(t),
        node_wf(insert_of(t, k, v2).0),
{
    lemma_insert_of(t, k, v2);
}

/// Removal law: removing hands back exactly what lookup finds, afterwards
/// the key finds nothing, and the number of entries drops by one exactly
/// when the key was present.
pub proof fn lemma_removal(t: NodeV, k: Seq<i64>)
    requires
        node_wf(t),
        k.len() > 0,
        k.len() <= usize::MAX,
    ensures
        remove_of(t, k).1 == lookup(t, k),
        lookup(remove_of(t, k).0, k) is None,
        lookup(t, k) is Some ==> num_vals(remove_of(t, k).0) + 1 == num_vals(t),
        lookup(t, k) is None ==> num_vals(remove_of(t, k).0) == num_vals(t),
        node_wf(remove_of(t, k).0),
{
    lemma_remove_of(t, k);
}

} // verus!

verus! {

/// The bucket of a single key element.
pub(crate) fn elem_bucket(e: i64) -> (b: usize)
    ensures
        b == bucket_of(e),
        b < 16,
{
    proof {
        lemma_bucket_of_bounds(e);
    }
    let frag = e as u8;
    let entry: u8 = if frag % 2 == 0 {
        frag >> 4
    } else {
        frag & 0x0f
    };
    entry as usize
}

/// Common prefix length of `a` and the suffix of `k` starting at `from`.
fn common_with_suffix(a: &Key, k: &Vec<i64>, from: usize) -> (m: usize)
    requires
        from <= k@.len(),
    ensures
        m == common_len(a@, k@.skip(from as int)),
        m <= a@.len(),
        m <= k@.len() - from,
{
    let ghost kk = k@.skip(from as int);
    let alen = a.data.len();
    let klen = k.len() - from;
    let min_len: usize = if alen < klen {
        alen
    } else {
        klen
    };
    let mut i: usize = 0;
    while i < min_len
        invariant
            i <= min_len,
            kk == k@.skip(from as int),
            from + klen == k@.len(),
            k@.len() <= usize::MAX,
            min_len == min(a@.len() as int, kk.len() as int),
            common_from(a@, kk, 0) == common_from(a@, kk, i as nat),
            forall|j: int| 0 <= j < i ==> a@[j] == kk[j],
        decreases min_len - i,
    {
        if a.data[i] != k[from + i] {
            proof {
                assert(kk[i as int] == k@[from + i]);
                assert(common_from(a@, kk, i as nat) == i);
            }
            proof {
                lemma_common_len(a@, kk);
            }
            return i;
        }
        i += 1;
    }
    proof {
        assert(common_from(a@, kk, min_len as nat) == min_len);
        lemma_common_len(a@, kk);
    }
    min_len
}

/// Whether the suffix of `k` starting at `from2` spells exactly the first
/// `i` elements of `ck`.
fn tail_eq_prefix(k: &Vec<i64>, from2: usize, ck: &Key, i: usize) -> (r: bool)
    requires
        from2 <= k@.len(),
        i <= ck@.len(),
    ensures
        r == (k@.skip(from2 as int) == ck@.take(i as int)),
{
    let tail_len = k.len() - from2;
    if tail_len != i {
        proof {
            assert(k@.skip(from2 as int).len() != ck@.take(i as int).len());
        }
        return false;
    }
    let mut j: usize = 0;
    while j < i
        invariant
            j <= i <= ck@.len(),
            from2 + i <= k@.len(),
            k@.len() - from2 == i,
            k@.len() <= usize::MAX,
            forall|x: int| 0 <= x < j ==> k@[from2 + x] == ck@[x],
        decreases i - j,
    {
        if k[from2 + j] != ck.data[j] {
            proof {
                assert(k@.skip(from2 as int)[j as int] == k@[from2 + j]);
                assert(ck@.take(i as int)[j as int] == ck@[j as int]);
            }
            return false;
        }
        j += 1;
    }
    proof {
        assert(k@.skip(from2 as int) =~= ck@.take(i as int));
    }
    true
}

impl Node {
    /// Whether inserting the key suffix `k[from..]` below this node stays
    /// clear of the bucket collision that `insert` refuses.
    pub fn insertable_from(&self, k: &Vec<i64>, from: usize) -> (r: bool)
        requires
            node_wf(self@),
            from < k@.len(),
        ensures
            r == can_insert(self@, k@.skip(from as int)),
        decreases k@.len() - from,
    {
        let ghost kk = k@.skip(from as int);
        proof {
            lemma_kids_view(self.children@);
        }
        let m_own = common_with_suffix(&self.key, k, from);
        if m_own == self.key.len() && m_own == k.len() - from {
            proof {
                lemma_common_len(self.key@, kk);
                assert(self.key@ =~= kk);
            }
            return true;
        }
        proof {
            lemma_common_len(self.key@, kk);
            assert(self.key@ != kk);
        }
        let bkt = elem_bucket(k[from]);
        proof {
            assert(kk[0] == k@[from as int]);
        }
        match &self.children[bkt] {
            None => true,
            Some(child) => {
                proof {
                    lemma_kids_wf_index(self@.children, 0, bkt as int);
                    lemma_common_len(child.key@, kk);
                }
                let m = common_with_suffix(&child.key, k, from);
                let clen = child.key.len();
                let tail_len = k.len() - from;
                if m == clen && m == tail_len {
                    // full match with the child's label
                    return true;
                }
                if m == 0 {
                    // the occupied slot's label differs at its first element
                    proof {
                        assert(key_match_of(child.key@, kk) == KeyMatch::NoMatch);
                    }
                    return false;
                }
                if m < clen {
                    // the label would be split at m; work out the retried insertion
                    let ghost c = self@.children[bkt as int]->Some_0;
                    let ghost cp = split_of(c, m as int);
                    let ghost n2 = with_child(self@, bkt as int, Some(cp), self@.child_count);
                    proof {
                        assert(key_match_of(child.key@, kk) == KeyMatch::Partial(m));
                        assert(can_insert(self@, kk) == can_insert(n2, kk));
                        assert(cp.key == c.key.take(m as int));
                        lemma_common_len_is(cp.key, kk, m as nat);
                    }
                    if m == tail_len {
                        proof {
                            assert(key_match_of(cp.key, kk) == KeyMatch::Full);
                        }
                        return true;
                    }
                    proof {
                        assert(key_match_of(cp.key, kk) == KeyMatch::Partial(m));
                        assert(m >= 1);
                        assert(can_insert(n2, kk) == can_insert(cp, kk.skip(m as int)));
                        assert(kk.skip(m as int) =~= k@.skip(from + m));
                    }
                    if tail_eq_prefix(k, from + m, &child.key, m) {
                        proof {
                            assert(k@.skip(from + m) == cp.key);
                            assert(can_insert(cp, kk.skip(m as int)));
                        }
                        return true;
                    }
                    let b2 = elem_bucket(k[from + m]);
                    let br = elem_bucket(child.data_at(m));
                    proof {
                        let kk2 = kk.skip(m as int);
                        assert(kk2 != cp.key);
                        assert(kk2.len() > 0);
                        assert(kk2[0] == k@[from + m]);
                        assert(cp.children[bucket_of(c.key[m as int])] == Some(
                            NodeV {
                                key: c.key.skip(m as int),
                                val: c.val,
                                children: c.children,
                                child_count: c.child_count,
                            },
                        ));
                        if b2 != br {
                            assert(cp.children[bucket_of(kk2[0])] is None);
                        } else {
                            let rest = cp.children[bucket_of(kk2[0])]->Some_0;
                            assert(rest.key[0] == c.key[m as int]);
                            assert(c.key[m as int] != kk[m as int]);
                            lemma_common_len_is(rest.key, kk2, 0);
                            assert(key_match_of(rest.key, kk2) == KeyMatch::NoMatch);
                        }
                    }
                    return b2 != br;
                }
                // the child's label is a proper prefix: descend
                proof {
                    assert(m == clen && m < tail_len);
                    assert(key_match_of(child.key@, kk) == KeyMatch::Partial(m));
                    assert(m >= 1);
                    assert(kk.skip(m as int) =~= k@.skip(from + m));
                }
                child.insertable_from(k, from + m)
            },
        }
    }

    /// Read one element of this node's label.
    pub(crate) fn data_at(&self, i: usize) -> (e: i64)
        requires
            i < self.key@.len(),
        ensures
            e == self.key@[i as int],
    {
        self.key.data[i]
    }
}

impl Trie {
    /// Whether inserting `key` stays clear of the bucket collision that
    /// `insert` refuses.
    pub fn insertable(&self, key: &Vec<i64>) -> (r: bool)
        requires
            self.wf(),
        ensures
            r == can_insert(self@, key@),
    {
        if key.len() == 0 {
            proof {
                assert(key@ =~= Seq::<i64>::empty());
            }
            return true;
        }
        proof {
            assert(key@.skip(0) =~= key@);
        }
        self.root.insertable_from(key, 0)
    }

    /// Insert a key-value entry unless its descent would meet the bucket
    /// collision that `insert` refuses; in that case hand the pair back
    /// unchanged.
    pub fn try_insert(&mut self, key: Vec<i64>, val: Vec<i64>) -> (r: Result<
        Option<Vec<i64>>,
        (Vec<i64>, Vec<i64>),
    >)
        requires
            old(self).wf(),
            old(self).spec_len() < usize::MAX,
        ensures
            final(self).wf(),
            match r {
                Ok(prev) => {
                    &&& can_insert(old(self)@, key@)
                    &&& final(self)@ == insert_of(old(self)@, key@, val@).0
                    &&& opt_val_view(prev) == lookup(old(self)@, key@)
                    &&& lookup(final(self)@, key@) == Some(val@)
                    &&& final(self).spec_len() == old(self).spec_len() + (if prev is None {
                        1int
                    } else {
                        0int
                    })
                },
                Err(back) => {
                    &&& !can_insert(old(self)@, key@)
                    &&& *final(self) == *old(self)
                    &&& back.0@ == key@ && back.1@ == val@
                },
            },
    {
        if self.insertable(&key) {
            Ok(self.insert(key, val))
        } else {
            Err((key, val))
        }
    }
}

} // verus!

verus! {

use crate::codec::enc_trie;
use crate::codec::DecodeError;
use crate::codec::encode_node;
use crate::codec::decode_node;
use crate::codec::count_values;

impl Trie {
    /// Serialize the whole trie to its binary encoding.
    pub fn to_bytes(&self) -> (r: Vec<u8>)
        requires
            self.wf(),
        ensures
            r@ == enc_trie(self@),
            crate::codec::sized_ok(self@),
    {
        let mut out: Vec<u8> = Vec::new();
        encode_node(&self.root, &mut out);
        out
    }

    /// Rebuild a trie from its binary encoding.  The bytes must hold
    /// exactly one validly-encoded trie; anything else is refused as a
    /// decode error.
    pub fn from_bytes(b: &Vec<u8>) -> (r: Result<Trie, DecodeError>)
        ensures
            match r {
                Ok(t) => t.wf() && crate::codec::sized_ok(t@) && enc_trie(t@) == b@
                    && t.spec_len() == num_vals(t@),
                Err(_) => true,
            },
            crate::codec::is_trie_encoding(b@) ==> r is Ok,
    {
        let (root, p) = match decode_node(b, 0) {
            Ok(x) => x,
            Err(e) => {
                proof {
                    if crate::codec::is_trie_encoding(b@) {
                        crate::codec::lemma_trie_encoding_parses(b@);
                    }
                }
                return Err(e);
            },
        };
        proof {
            if crate::codec::is_trie_encoding(b@) {
                crate::codec::lemma_trie_encoding_unique(b@, root@, p as int);
            }
        }
        if p != b.len() {
            return Err(DecodeError);
        }
        if !root.key.is_empty() {
            return Err(DecodeError);
        }
        let length = match count_values(&root) {
            Ok(x) => x,
            Err(e) => {
                return Err(e);
            },
        };
        proof {
            assert(root@.key =~= Seq::<i64>::empty());
            assert(b@.subrange(0, b@.len() as int) =~= b@);
        }
        Ok(Trie { length, root })
    }
}

} // verus!

verus! {

/// A tidied node: it carries a value or branches at least twice, its
/// label is non-empty, and the same holds below.  Freshly built tries
/// only hold tidy nodes, and tidiness is what insertions preserve; it is
/// strictly stronger than the integrity predicate `node_ok`.
pub open spec fn tidy(n: NodeV) -> bool
    decreases n, 17int,
{
    &&& n.val is Some || kid_count(n) >= 2
    &&& n.key.len() > 0
    &&& tidy_kids(n.children, 0)
}

pub open spec fn tidy_kids(cs: Seq<Option<NodeV>>, i: int) -> bool
    decreases cs, cs.len() - i,
{
    if i < 0 || i >= cs.len() {
        true
    } else {
        (match cs[i] {
            Some(c) => tidy(c),
            None => true,
        }) && tidy_kids(cs, i + 1)
    }
}

proof fn lemma_tidy_kids_index(cs: Seq<Option<NodeV>>, i: int, j: int)
    requires
        tidy_kids(cs, i),
        0 <= i <= j < cs.len(),
    ensures
        match cs[j] {
            Some(c) => tidy(c),
            None => true,
        },
    decreases j - i,
{
    if i < j {
        lemma_tidy_kids_index(cs, i + 1, j);
    }
}

proof fn lemma_tidy_kids_update(cs: Seq<Option<NodeV>>, b: int, x: Option<NodeV>, i: int)
    requires
        tidy_kids(cs, i),
        0 <= i <= b < cs.len(),
        match x {
            Some(c) => tidy(c),
            None => true,
        },
    ensures
        tidy_kids(cs.update(b, x), i),
    decreases cs.len() - i,
{
    if i < cs.len() {
        if i == b {
            lemma_tidy_kids_update_rest(cs, b, x, i + 1);
        } else {
            lemma_tidy_kids_update(cs, b, x, i + 1);
        }
    }
}

proof fn lemma_tidy_kids_update_rest(cs: Seq<Option<NodeV>>, b: int, x: Option<NodeV>, i: int)
    requires
        tidy_kids(cs, i),
        0 <= b < cs.len(),
        b < i,
    ensures
        tidy_kids(cs.update(b, x), i),
    decreases cs.len() - i,
{
    if i < cs.len() {
        lemma_tidy_kids_update_rest(cs, b, x, i + 1);
    }
}

proof fn lemma_tidy_kids_pointwise(cs: Seq<Option<NodeV>>, i: int)
    requires
        0 <= i,
        forall|j: int|
            i <= j < cs.len() ==> (match #[trigger] cs[j] {
                Some(c) => tidy(c),
                None => true,
            }),
    ensures
        tidy_kids(cs, i),
    decreases cs.len() - i,
{
    if i < cs.len() {
        lemma_tidy_kids_pointwise(cs, i + 1);
    }
}

/// Tidiness gives structural integrity on a well-formed node.
pub proof fn lemma_tidy_gives_ok(n: NodeV)
    requires
        tidy(n),
        node_wf(n),
    ensures
        node_ok(n),
    decreases n, 17int,
{
    lemma_tidy_ok_kids(n.children, 0);
}

pub proof fn lemma_tidy_ok_kids(cs: Seq<Option<NodeV>>, i: int)
    requires
        tidy_kids(cs, i),
        kids_wf(cs, i),
        0 <= i,
    ensures
        kids_ok(cs, i),
    decreases cs, cs.len() - i,
{
    if 0 <= i < cs.len() {
        match cs[i] {
            Some(c) => {
                lemma_tidy_gives_ok(c);
            },
            None => {},
        }
        lemma_tidy_ok_kids(cs, i + 1);
    }
}

/// Insertion keeps every stored node tidy, never erases a value, and
/// never empties a slot.
pub proof fn lemma_insert_tidy(n: NodeV, k: Seq<i64>, v: Seq<i64>)
    requires
        node_wf(n),
        tidy_kids(n.children, 0),
        k.len() > 0,
        k.len() <= usize::MAX,
        can_insert(n, k),
    ensures
        tidy_kids(insert_of(n, k, v).0.children, 0),
        n.val is Some ==> insert_of(n, k, v).0.val is Some,
        kid_count(insert_of(n, k, v).0) >= kid_count(n),
    decreases k.len(), label_len_at(n, k),
{
    let r = insert_of(n, k, v);
    if k == n.key {
        assert(r.0.children == n.children);
        assert(kid_count(r.0) == kid_count(n));
    } else {
        let b = bucket_of(k[0]);
        lemma_bucket_of_bounds(k[0]);
        match n.children[b] {
            None => {
                let leaf = leaf_of(k, v);
                lemma_leaf_wf(k, v);
                lemma_count_somes_none(leaf.children, 0);
                lemma_tidy_kids_pointwise(leaf.children, 0);
                assert(tidy(leaf));
                lemma_tidy_kids_update(n.children, b, Some(leaf), 0);
                lemma_count_somes_update(n.children, b, Some(leaf), 0);
            },
            Some(c) => {
                lemma_kids_wf_index(n.children, 0, b);
                lemma_tidy_kids_index(n.children, 0, b);
                lemma_common_len(c.key, k);
                match key_match_of(c.key, k) {
                    KeyMatch::Full => {
                        let c2 = NodeV { key: c.key, val: Some(v), children: c.children, child_count: c.child_count };
                        assert(tidy(c2));
                        lemma_tidy_kids_update(n.children, b, Some(c2), 0);
                        lemma_count_somes_update(n.children, b, Some(c2), 0);
                    },
                    KeyMatch::NoMatch => {},
                    KeyMatch::Partial(i) => {
                        if i < c.key.len() {
                            assert(i >= 1);
                            let cp = split_of(c, i as int);
                            let n2 = with_child(n, b, Some(cp), n.child_count);
                            let rest = NodeV {
                                key: c.key.skip(i as int),
                                val: c.val,
                                children: c.children,
                                child_count: c.child_count,
                            };
                            lemma_split_node_wf(c, i as int);
                            lemma_kids_wf_update(n.children, b, Some(cp), 0);
                            lemma_count_somes_update(n.children, b, Some(cp), 0);
                            assert(node_wf(n2));
                            assert(kid_count(c) == kid_count(rest));
                            assert(tidy(rest));
                            assert(forall|j: int|
                                0 <= j < cp.children.len() ==> #[trigger] cp.children[j] == (if j
                                    == bucket_of(c.key[i as int]) {
                                    Some(rest)
                                } else {
                                    None
                                }));
                            lemma_tidy_kids_pointwise(cp.children, 0);
                            lemma_common_len_is(cp.key, k, i as nat);
                            assert(can_insert(n2, k));
                            assert(insert_of(n, k, v) == insert_of(n2, k, v));
                            if i == k.len() {
                                // the retry meets the shortened label exactly
                                assert(key_match_of(cp.key, k) == KeyMatch::Full);
                                let c3 = NodeV { key: cp.key, val: Some(v), children: cp.children, child_count: cp.child_count };
                                assert(insert_of(n2, k, v).0 == with_child(
                                    n2,
                                    b,
                                    Some(c3),
                                    n2.child_count,
                                ));
                                assert(tidy(c3));
                                lemma_tidy_kids_update(n.children, b, Some(c3), 0);
                                assert(insert_of(n2, k, v).0.children =~= n.children.update(
                                    b,
                                    Some(c3),
                                ));
                                lemma_count_somes_update(n.children, b, Some(c3), 0);
                            } else {
                                assert(key_match_of(cp.key, k) == KeyMatch::Partial(i));
                                let k2 = k.skip(i as int);
                                assert(k2.len() > 0);
                                let rec2 = insert_of(cp, k2, v);
                                assert(insert_of(n2, k, v).0 == with_child(
                                    n2,
                                    b,
                                    Some(rec2.0),
                                    n2.child_count,
                                ));
                                lemma_common_len(cp.key, k2);
                                if k2 == cp.key {
                                    let cp2 = NodeV { key: cp.key, val: Some(v), children: cp.children, child_count: cp.child_count };
                                    assert(rec2.0 == cp2);
                                    assert(tidy(cp2));
                                    lemma_tidy_kids_update(n.children, b, Some(cp2), 0);
                                    assert(insert_of(n2, k, v).0.children =~= n.children.update(
                                        b,
                                        Some(cp2),
                                    ));
                                    lemma_count_somes_update(n.children, b, Some(cp2), 0);
                                } else {
                                    let b2 = bucket_of(k2[0]);
                                    lemma_bucket_of_bounds(k2[0]);
                                    assert(k2[0] == k[i as int]);
                                    if b2 == bucket_of(c.key[i as int]) {
                                        assert(cp.children[b2] == Some(rest));
                                        assert(rest.key[0] == c.key[i as int]);
                                        assert(c.key[i as int] != k[i as int]);
                                        lemma_common_len_is(rest.key, k2, 0);
                                        assert(key_match_of(rest.key, k2) == KeyMatch::NoMatch);
                                        assert(!can_insert(cp, k2));
                                        assert(false);
                                    }
                                    assert(cp.children[b2] is None);
                                    let leaf = leaf_of(k2, v);
                                    lemma_leaf_wf(k2, v);
                                    lemma_count_somes_none(leaf.children, 0);
                                    lemma_tidy_kids_pointwise(leaf.children, 0);
                                    assert(tidy(leaf));
                                    let cp3 = with_child(cp, b2, Some(leaf), cp.child_count + 1);
                                    assert(rec2.0 == cp3);
                                    lemma_tidy_kids_update(cp.children, b2, Some(leaf), 0);
                                    lemma_count_somes_update(cp.children, b2, Some(leaf), 0);
                                    assert(kid_count(cp3) == 2);
                                    assert(tidy(cp3));
                                    lemma_tidy_kids_update(n.children, b, Some(cp3), 0);
                                    assert(insert_of(n2, k, v).0.children =~= n.children.update(
                                        b,
                                        Some(cp3),
                                    ));
                                    lemma_count_somes_update(n.children, b, Some(cp3), 0);
                                }
                            }
                        } else if c.key.len() == 0 {
                            assert(false);
                        } else {
                            let k2 = k.skip(i as int);
                            assert(i == c.key.len());
                            assert(i < k.len());
                            lemma_insert_tidy(c, k2, v);
                            lemma_insert_of(c, k2, v);
                            let rec = insert_of(c, k2, v);
                            assert(rec.0.key == c.key);
                            assert(tidy(rec.0));
                            lemma_tidy_kids_update(n.children, b, Some(rec.0), 0);
                            lemma_count_somes_update(n.children, b, Some(rec.0), 0);
                        }
                    },
                }
            },
        }
    }
}

/// Integrity law: in a tidy trie, an insertion kept clear of bucket
/// collisions preserves both tidiness and the structural-integrity check.
pub proof fn lemma_insert_keeps_integrity(t: NodeV, k: Seq<i64>, v: Seq<i64>)
    requires
        node_wf(t),
        tidy_kids(t.children, 0),
        k.len() > 0,
        k.len() <= usize::MAX,
        can_insert(t, k),
    ensures
        tidy_kids(insert_of(t, k, v).0.children, 0),
        trie_ok(insert_of(t, k, v).0),
{
    lemma_insert_tidy(t, k, v);
    lemma_insert_of(t, k, v);
    lemma_tidy_ok_kids(insert_of(t, k, v).0.children, 0);
}

} // verus!

verus! {

/// Whether `q` ends in some block written twice in a row.  Keys of this
/// shape can collide with the descent's own-label shortcut: a stored key
/// `u + w` whose node carries the label `w` also answers the query
/// `u + w + w`.  Keys free of doubled suffixes stay unambiguous.
pub open spec fn doubled_suffix(q: Seq<i64>, m: int) -> bool {
    &&& 1 <= m
    &&& 2 * m <= q.len()
    &&& q.subrange(q.len() - 2 * m, q.len() - m) == q.subrange(q.len() - m, q.len() as int)
}

pub open spec fn square_free(q: Seq<i64>) -> bool {
    forall|m: int| !doubled_suffix(q, m)
}

/// Suffixes of a square-free sequence are square-free.
pub proof fn lemma_square_free_skip(q: Seq<i64>, j: int)
    requires
        square_free(q),
        0 <= j <= q.len(),
    ensures
        square_free(q.skip(j)),
{
    let q2 = q.skip(j);
    assert forall|m: int| !doubled_suffix(q2, m) by {
        if 1 <= m && 2 * m <= q2.len() {
            if q2.subrange(q2.len() - 2 * m, q2.len() - m) == q2.subrange(
                q2.len() - m,
                q2.len() as int,
            ) {
                assert(q.subrange(q.len() - 2 * m, q.len() - m) =~= q2.subrange(
                    q2.len() - 2 * m,
                    q2.len() - m,
                ));
                assert(q.subrange(q.len() - m, q.len() as int) =~= q2.subrange(
                    q2.len() - m,
                    q2.len() as int,
                ));
                assert(doubled_suffix(q, m));
            }
        }
    }
}

/// A sequence of the shape `u + w + w` with `w` non-empty has a doubled
/// suffix.
proof fn lemma_doubled_shape(q: Seq<i64>, u: Seq<i64>, w: Seq<i64>)
    requires
        q == u + w + w,
        w.len() >= 1,
    ensures
        doubled_suffix(q, w.len() as int),
{
    let m = w.len() as int;
    assert(q.len() == u.len() + 2 * m);
    assert(q.subrange(q.len() - 2 * m, q.len() - m) =~= w);
    assert(q.subrange(q.len() - m, q.len() as int) =~= w);
}

} // verus!

verus! {

/// Splitting a child's label does not change what any square-free query
/// finds anywhere in the tree.
proof fn lemma_split_lookup_for(n: NodeV, c: NodeV, i: usize, q: Seq<i64>)
    requires
        node_wf(n),
        q.len() > 0,
        q.len() <= usize::MAX,
        square_free(q),
        c.key.len() > 0,
        0 <= bucket_of(c.key[0]) < 16,
        n.children[bucket_of(c.key[0])] == Some(c),
        1 <= i < c.key.len(),
    ensures
        lookup(
            with_child(n, bucket_of(c.key[0]), Some(split_of(c, i as int)), n.child_count),
            q,
        ) == lookup(n, q),
{
    let b = bucket_of(c.key[0]);
    let cp = split_of(c, i as int);
    let rest = NodeV { key: c.key.skip(i as int), val: c.val, children: c.children, child_count: c.child_count };
    let n2 = with_child(n, b, Some(cp), n.child_count);
    lemma_kids_wf_index(n.children, 0, b);
    if q != n.key {
        let bq = bucket_of(q[0]);
        lemma_bucket_of_bounds(q[0]);
        if bq == b {
            lemma_common_len(c.key, q);
            let cc = common_len(c.key, q) as int;
            if cc < i {
                lemma_common_len_is(cp.key, q, cc as nat);
                assert(lookup(n2, q) is None);
                assert(lookup(n, q) is None);
            } else {
                if q.len() == i {
                    assert(q =~= cp.key);
                    lemma_common_len_self(cp.key);
                    assert(lookup(n2, q) == cp.val);
                    assert(lookup(n, q) is None);
                } else {
                    assert(q.len() > i);
                    lemma_common_len_is(cp.key, q, i as nat);
                    assert(key_match_of(cp.key, q) == KeyMatch::Partial(i));
                    let q1 = q.skip(i as int);
                    assert(q1.len() > 0);
                    assert(lookup(n2, q) == lookup(cp, q1));
                    if q1 == cp.key {
                        assert(q =~= Seq::empty() + cp.key + cp.key);
                        lemma_doubled_shape(q, Seq::empty(), cp.key);
                        assert(false);
                    }
                    let bq1 = bucket_of(q1[0]);
                    lemma_bucket_of_bounds(q1[0]);
                    assert(q1[0] == q[i as int]);
                    if bq1 != bucket_of(c.key[i as int]) {
                        assert(q[i as int] != c.key[i as int]);
                        assert(cc == i);
                        assert(cp.children[bq1] is None);
                        assert(lookup(cp, q1) is None);
                        assert(lookup(n, q) is None);
                    } else {
                        assert(cp.children[bq1] == Some(rest));
                        assert(lookup(cp, q1) == (match key_match_of(rest.key, q1) {
                            KeyMatch::Full => rest.val,
                            KeyMatch::Partial(m) => if m < rest.key.len() {
                                None
                            } else {
                                lookup(rest, q1.skip(m as int))
                            },
                            KeyMatch::NoMatch => None,
                        }));
                        if cc == i {
                            assert(q[i as int] != c.key[i as int]);
                            assert(rest.key[0] == c.key[i as int]);
                            lemma_common_len_is(rest.key, q1, 0);
                            assert(key_match_of(rest.key, q1) == KeyMatch::NoMatch);
                            assert(lookup(cp, q1) is None);
                            assert(lookup(n, q) is None);
                        } else {
                            assert(cc > i);
                            assert(forall|j: int| 0 <= j < cc - i ==> rest.key[j] == q1[j]);
                            assert(cc - i < rest.key.len() && cc - i < q1.len()
                                ==> rest.key[cc - i] != q1[cc - i]);
                            lemma_common_len_is(rest.key, q1, (cc - i) as nat);
                            if cc == c.key.len() {
                                if q.len() == cc {
                                    assert(q =~= c.key);
                                    assert(q1 =~= rest.key);
                                    lemma_common_len_self(c.key);
                                    lemma_common_len_self(rest.key);
                                    assert(lookup(n, q) == c.val);
                                    assert(lookup(cp, q1) == rest.val);
                                } else {
                                    assert(q.len() > cc);
                                    assert(key_match_of(rest.key, q1) == KeyMatch::Partial(
                                        (cc - i) as usize,
                                    ));
                                    assert(key_match_of(c.key, q) == KeyMatch::Partial(cc as usize));
                                    let q2 = q.skip(cc);
                                    assert(q1.skip(cc - i) =~= q2);
                                    assert(q2.len() > 0);
                                    assert(lookup(cp, q1) == lookup(rest, q2));
                                    assert(lookup(n, q) == lookup(c, q2));
                                    if q2 == rest.key {
                                        assert(q =~= c.key.take(i as int) + rest.key + rest.key);
                                        lemma_doubled_shape(q, c.key.take(i as int), rest.key);
                                        assert(false);
                                    }
                                    if q2 == c.key {
                                        assert(q =~= Seq::empty() + c.key + c.key);
                                        lemma_doubled_shape(q, Seq::empty(), c.key);
                                        assert(false);
                                    }
                                    let bq2 = bucket_of(q2[0]);
                                    lemma_bucket_of_bounds(q2[0]);
                                    assert(rest.children == c.children);
                                    assert(lookup(rest, q2) == lookup(c, q2));
                                }
                            } else {
                                assert(cc < c.key.len());
                                assert(cc - i < rest.key.len());
                                assert(lookup(cp, q1) is None);
                                assert(lookup(n, q) is None);
                            }
                        }
                    }
                }
            }
        } else {
            assert(n2.children[bq] == n.children[bq]);
            assert(lookup(n2, q) == lookup(n, q));
        }
    }
}

} // verus!

verus! {

/// An insertion under a key other than the node's own label leaves the
/// node's own value alone.
proof fn lemma_insert_val_preserved(n: NodeV, k: Seq<i64>, v: Seq<i64>)
    requires
        node_wf(n),
        k.len() > 0,
        k.len() <= usize::MAX,
        can_insert(n, k),
        k != n.key,
    ensures
        insert_of(n, k, v).0.val == n.val,
    decreases k.len(), label_len_at(n, k),
{
    let b = bucket_of(k[0]);
    lemma_bucket_of_bounds(k[0]);
    match n.children[b] {
        None => {},
        Some(c) => {
            lemma_kids_wf_index(n.children, 0, b);
            lemma_common_len(c.key, k);
            match key_match_of(c.key, k) {
                KeyMatch::Partial(i) => {
                    if i < c.key.len() {
                        assert(i >= 1);
                        let cp = split_of(c, i as int);
                        let n2 = with_child(n, b, Some(cp), n.child_count);
                        lemma_split_node_wf(c, i as int);
                        lemma_kids_wf_update(n.children, b, Some(cp), 0);
                        lemma_count_somes_update(n.children, b, Some(cp), 0);
                        lemma_insert_val_preserved(n2, k, v);
                    }
                },
                _ => {},
            }
        },
    }
}

/// Frame law: an insertion kept clear of bucket collisions leaves every
/// other doubled-suffix-free key's lookup exactly as it was.
#[verifier::rlimit(100)]
pub proof fn lemma_insert_frame(n: NodeV, k: Seq<i64>, v: Seq<i64>, q: Seq<i64>)
    requires
        node_wf(n),
        k.len() > 0,
        k.len() <= usize::MAX,
        q.len() > 0,
        q.len() <= usize::MAX,
        can_insert(n, k),
        square_free(k),
        square_free(q),
        q != k,
    ensures
        lookup(insert_of(n, k, v).0, q) == lookup(n, q),
    decreases k.len(), label_len_at(n, k),
{
    let r = insert_of(n, k, v).0;
    if k == n.key {
        assert(r.key == n.key && r.children == n.children);
        if q != n.key {
            lemma_bucket_of_bounds(q[0]);
            assert(lookup(r, q) == lookup(n, q));
        }
    } else {
        let b = bucket_of(k[0]);
        lemma_bucket_of_bounds(k[0]);
        match n.children[b] {
            None => {
                let leaf = leaf_of(k, v);
                assert(r == with_child(n, b, Some(leaf), n.child_count + 1));
                if q != n.key {
                    let bq = bucket_of(q[0]);
                    lemma_bucket_of_bounds(q[0]);
                    if bq == b {
                        assert(lookup(n, q) is None);
                        lemma_common_len(k, q);
                        let cc = common_len(k, q) as int;
                        if cc == k.len() && cc == q.len() {
                            assert(q =~= k);
                            assert(false);
                        }
                        match key_match_of(leaf.key, q) {
                            KeyMatch::Full => {
                                assert(false);
                            },
                            KeyMatch::NoMatch => {},
                            KeyMatch::Partial(j) => {
                                if j < k.len() {
                                } else {
                                    assert(j == k.len() && q.len() > j);
                                    let q1 = q.skip(j as int);
                                    assert(q1.len() > 0);
                                    if q1 == leaf.key {
                                        assert(q =~= Seq::empty() + k + k);
                                        lemma_doubled_shape(q, Seq::empty(), k);
                                        assert(false);
                                    }
                                    let bq1 = bucket_of(q1[0]);
                                    lemma_bucket_of_bounds(q1[0]);
                                    assert(leaf.children[bq1] is None);
                                    assert(lookup(leaf, q1) is None);
                                }
                            },
                        }
                        assert(lookup(r, q) is None);
                    } else {
                        assert(r.children[bq] == n.children[bq]);
                        assert(lookup(r, q) == lookup(n, q));
                    }
                }
            },
            Some(c) => {
                lemma_kids_wf_index(n.children, 0, b);
                lemma_common_len(c.key, k);
                match key_match_of(c.key, k) {
                    KeyMatch::Full => {
                        assert(c.key == k);
                        let c2 = NodeV { key: c.key, val: Some(v), children: c.children, child_count: c.child_count };
                        assert(r == with_child(n, b, Some(c2), n.child_count));
                        if q != n.key {
                            let bq = bucket_of(q[0]);
                            lemma_bucket_of_bounds(q[0]);
                            if bq == b {
                                lemma_common_len(c.key, q);
                                match key_match_of(c.key, q) {
                                    KeyMatch::Full => {
                                        assert(q == c.key);
                                        assert(false);
                                    },
                                    KeyMatch::NoMatch => {},
                                    KeyMatch::Partial(j) => {
                                        if j < c.key.len() {
                                        } else {
                                            let q1 = q.skip(j as int);
                                            assert(q1.len() > 0);
                                            if q1 == c.key {
                                                assert(q =~= Seq::empty() + k + k);
                                                lemma_doubled_shape(q, Seq::empty(), k);
                                                assert(false);
                                            }
                                            let bq1 = bucket_of(q1[0]);
                                            lemma_bucket_of_bounds(q1[0]);
                                            assert(c2.children == c.children);
                                            assert(lookup(c2, q1) == lookup(c, q1));
                                        }
                                    },
                                }
                                assert(lookup(r, q) == lookup(n, q));
                            } else {
                                assert(r.children[bq] == n.children[bq]);
                                assert(lookup(r, q) == lookup(n, q));
                            }
                        }
                    },
                    KeyMatch::NoMatch => {},
                    KeyMatch::Partial(i) => {
                        if i < c.key.len() {
                            assert(i >= 1);
                            let cp = split_of(c, i as int);
                            let n2 = with_child(n, b, Some(cp), n.child_count);
                            lemma_split_node_wf(c, i as int);
                            lemma_kids_wf_update(n.children, b, Some(cp), 0);
                            lemma_count_somes_update(n.children, b, Some(cp), 0);
                            assert(node_wf(n2));
                            assert(can_insert(n2, k));
                            assert(insert_of(n, k, v) == insert_of(n2, k, v));
                            lemma_split_lookup_for(n, c, i, q);
                            lemma_insert_frame(n2, k, v, q);
                        } else if c.key.len() == 0 {
                            assert(false);
                        } else {
                            let k1 = k.skip(i as int);
                            assert(i == c.key.len());
                            assert(i < k.len());
                            let rec = insert_of(c, k1, v);
                            lemma_insert_of(c, k1, v);
                            assert(r == with_child(n, b, Some(rec.0), n.child_count));
                            assert(rec.0.key == c.key);
                            if q != n.key {
                                let bq = bucket_of(q[0]);
                                lemma_bucket_of_bounds(q[0]);
                                if bq == b {
                                    lemma_common_len(c.key, q);
                                    match key_match_of(c.key, q) {
                                        KeyMatch::Full => {
                                            assert(q == c.key);
                                            if k1 == c.key {
                                                assert(k =~= Seq::empty() + c.key + c.key);
                                                lemma_doubled_shape(k, Seq::empty(), c.key);
                                                assert(false);
                                            }
                                            lemma_insert_val_preserved(c, k1, v);
                                            assert(lookup(r, q) == rec.0.val);
                                            assert(lookup(n, q) == c.val);
                                        },
                                        KeyMatch::NoMatch => {},
                                        KeyMatch::Partial(j) => {
                                            if j < c.key.len() {
                                            } else {
                                                assert(j == i);
                                                let q1 = q.skip(j as int);
                                                assert(q1.len() > 0);
                                                assert(forall|x: int|
                                                    0 <= x < i ==> c.key[x] == k[x] && c.key[x]
                                                        == q[x]);
                                                if q1 == k1 {
                                                    assert(q.len() == k.len());
                                                    assert forall|x: int|
                                                        0 <= x < q.len() implies q[x] == k[x] by {
                                                        if x < i {
                                                        } else {
                                                            assert(q[x] == q1[x - i]);
                                                            assert(k[x] == k1[x - i]);
                                                        }
                                                    }
                                                    assert(q =~= k);
                                                    assert(false);
                                                }
                                                lemma_square_free_skip(q, j as int);
                                                lemma_square_free_skip(k, i as int);
                                                lemma_insert_frame(c, k1, v, q1);
                                                assert(lookup(rec.0, q1) == lookup(c, q1));
                                            }
                                        },
                                    }
                                    assert(lookup(r, q) == lookup(n, q));
                                } else {
                                    assert(r.children[bq] == n.children[bq]);
                                    assert(lookup(r, q) == lookup(n, q));
                                }
                            }
                        }
                    },
                }
            },
        }
    }
}

} // verus!

verus! {

/// The tree after inserting the first `i` pairs, in order, starting from
/// `t0`.
pub open spec fn trie_of_from(t0: NodeV, pairs: Seq<(Seq<i64>, Seq<i64>)>, i: int) -> NodeV
    decreases i,
{
    if i <= 0 {
        t0
    } else {
        insert_of(trie_of_from(t0, pairs, i - 1), pairs[i - 1].0, pairs[i - 1].1).0
    }
}

/// Round-trip law: insert any sequence of pairs with distinct, non-empty,
/// doubled-suffix-free keys, each step clear of bucket collisions, into
/// an empty tree.  Every inserted key then finds its value, every other
/// such key finds nothing, the tree holds exactly as many values as
/// pairs, and it passes the structural-integrity check.
pub proof fn lemma_round_trip(t0: NodeV, pairs: Seq<(Seq<i64>, Seq<i64>)>, i: int)
    requires
        node_wf(t0),
        tidy_kids(t0.children, 0),
        num_vals(t0) == 0,
        forall|q: Seq<i64>| lookup(t0, q) is None,
        0 <= i <= pairs.len(),
        forall|x: int|
            0 <= x < pairs.len() ==> 1 <= (#[trigger] pairs[x]).0.len() <= usize::MAX
                && square_free(pairs[x].0),
        forall|x: int, y: int|
            0 <= x < y < pairs.len() ==> (#[trigger] pairs[x]).0 != (#[trigger] pairs[y]).0,
        forall|x: int|
            0 <= x < pairs.len() ==> can_insert(
                trie_of_from(t0, pairs, x),
                (#[trigger] pairs[x]).0,
            ),
    ensures
        node_wf(trie_of_from(t0, pairs, i)),
        tidy_kids(trie_of_from(t0, pairs, i).children, 0),
        trie_ok(trie_of_from(t0, pairs, i)),
        num_vals(trie_of_from(t0, pairs, i)) == i,
        forall|x: int|
            0 <= x < i ==> lookup(trie_of_from(t0, pairs, i), (#[trigger] pairs[x]).0) == Some(
                pairs[x].1,
            ),
        forall|q: Seq<i64>|
            1 <= q.len() <= usize::MAX && square_free(q) && (forall|x: int|
                0 <= x < i ==> (#[trigger] pairs[x]).0 != q) ==> #[trigger] lookup(
                trie_of_from(t0, pairs, i),
                q,
            ) is None,
    decreases i,
{
    if i == 0 {
        lemma_tidy_ok_kids(t0.children, 0);
    } else {
        lemma_round_trip(t0, pairs, i - 1);
        let t_prev = trie_of_from(t0, pairs, i - 1);
        let k = pairs[i - 1].0;
        let v = pairs[i - 1].1;
        let t_new = trie_of_from(t0, pairs, i);
        lemma_insert_of(t_prev, k, v);
        lemma_insert_tidy(t_prev, k, v);
        lemma_tidy_ok_kids(t_new.children, 0);
        assert(lookup(t_prev, k) is None);
        assert(num_vals(t_new) == i);
        assert forall|x: int|
            0 <= x < i implies lookup(t_new, (#[trigger] pairs[x]).0) == Some(pairs[x].1) by {
            if x < i - 1 {
                lemma_insert_frame(t_prev, k, v, pairs[x].0);
            }
        }
        assert forall|q: Seq<i64>|
            1 <= q.len() <= usize::MAX && square_free(q) && (forall|x: int|
                0 <= x < i ==> (#[trigger] pairs[x]).0 != q) implies #[trigger] lookup(
            t_new,
            q,
        ) is None by {
            lemma_insert_frame(t_prev, k, v, q);
        }
    }
}

} // verus!

verus! {

/// A removal under a key other than the node's own label leaves the
/// node's own value alone.
proof fn lemma_remove_val_preserved(n: NodeV, k: Seq<i64>)
    requires
        k != n.key,
    ensures
        remove_of(n, k).0.val == n.val,
{
}

/// Clearing a child's value and collapsing it with its sole grandchild
/// does not change what any other doubled-suffix-free query finds.
#[verifier::rlimit(100)]
#[verifier::spinoff_prover]
proof fn lemma_prune_lookup_for(n: NodeV, c: NodeV, q: Seq<i64>)
    requires
        node_wf(n),
        q.len() > 0,
        q.len() <= usize::MAX,
        square_free(q),
        c.key.len() > 0,
        0 <= bucket_of(c.key[0]) < 16,
        n.children[bucket_of(c.key[0])] == Some(c),
        q != n.key,
        q != c.key,
        c.child_count != 0,
    ensures
        ({
            let c2 = NodeV { key: c.key, val: None, children: c.children, child_count: c.child_count };
            lookup(with_child(n, bucket_of(c.key[0]), Some(prune_of(c2)), n.child_count), q)
                == lookup(n, q)
        }),
{
    let b = bucket_of(c.key[0]);
    let c2 = NodeV { key: c.key, val: None, children: c.children, child_count: c.child_count };
    let c3 = prune_of(c2);
    let n2 = with_child(n, b, Some(c3), n.child_count);
    lemma_kids_wf_index(n.children, 0, b);
    assert(node_wf(c2));
    lemma_prune_of(c2);
    let bq = bucket_of(q[0]);
    lemma_bucket_of_bounds(q[0]);
    if bq != b {
        assert(n2.children[bq] == n.children[bq]);
        assert(lookup(n2, q) == lookup(n, q));
    } else {
        lemma_common_len(c.key, q);
        let cc = common_len(c.key, q) as int;
        if c3.key == c.key {
            // no collapse happened: same label, same children, value gone
            assert(c3 == c2);
            match key_match_of(c.key, q) {
                KeyMatch::Full => {
                    assert(q == c.key);
                    assert(false);
                },
                KeyMatch::NoMatch => {},
                KeyMatch::Partial(j) => {
                    if j < c.key.len() {
                    } else {
                        let q1 = q.skip(j as int);
                        assert(q1.len() > 0);
                        if q1 == c.key {
                            assert(q =~= Seq::empty() + c.key + c.key);
                            lemma_doubled_shape(q, Seq::empty(), c.key);
                            assert(false);
                        }
                        let bq1 = bucket_of(q1[0]);
                        lemma_bucket_of_bounds(q1[0]);
                        assert(c2.children == c.children);
                        assert(lookup(c2, q1) == lookup(c, q1));
                    }
                },
            }
            assert(lookup(n2, q) == lookup(n, q));
        } else {
            // the label grew by the sole grandchild's label
            assert(c2.child_count == 1 && c2.val is None);
            let fs = first_some(c2.children, 0);
            lemma_count_somes_one(c2.children, 0);
            lemma_kids_wf_index(c2.children, 0, fs);
            let g = c2.children[fs]->Some_0;
            assert(c3.key == c.key + g.key);
            assert(c3.val == g.val && c3.children == g.children);
            assert(g.key.len() > 0);
            assert(bucket_of(g.key[0]) == fs);
            let cklen = c.key.len() as int;
            assert(forall|x: int| 0 <= x < cklen ==> #[trigger] c3.key[x] == c.key[x]);
            if cc < cklen {
                lemma_common_len_is(c3.key, q, cc as nat);
                assert(lookup(n2, q) is None);
                assert(lookup(n, q) is None);
            } else {
                assert(cc == cklen);
                if q.len() == cklen {
                    assert(q =~= c.key);
                    assert(false);
                }
                assert(q.len() > cklen);
                lemma_common_len_is(c.key, q, cklen as nat);
                assert(key_match_of(c.key, q) == KeyMatch::Partial(c.key.len() as usize));
                let q1 = q.skip(cklen);
                assert(q1.len() > 0);
                assert(lookup(n, q) == lookup(c, q1));
                if q1 == c.key {
                    assert(q =~= Seq::empty() + c.key + c.key);
                    lemma_doubled_shape(q, Seq::empty(), c.key);
                    assert(false);
                }
                let b1 = bucket_of(q1[0]);
                lemma_bucket_of_bounds(q1[0]);
                assert(q1[0] == q[cklen]);
                if b1 != fs {
                    // only the grandchild's slot is occupied
                    assert(c.children[b1] is None);
                    assert(lookup(c, q1) is None);
                    assert(q[cklen] != g.key[0]);
                    lemma_common_len_is(c3.key, q, cklen as nat);
                    assert(key_match_of(c3.key, q) == KeyMatch::Partial(c.key.len() as usize));
                    assert(lookup(n2, q) is None);
                } else {
                    assert(c.children[b1] == Some(g));
                    lemma_common_len(g.key, q1);
                    let m = common_len(g.key, q1) as int;
                    assert(forall|x: int| 0 <= x < m ==> #[trigger] c3.key[cklen + x] == q[cklen
                        + x]);
                    if m == g.key.len() && m == q1.len() {
                        // the query is exactly the merged label
                        assert(q1 =~= g.key);
                        lemma_common_len_self(g.key);
                        assert(lookup(c, q1) == g.val);
                        assert(q =~= c3.key);
                        lemma_common_len_self(c3.key);
                        assert(lookup(n2, q) == c3.val);
                    } else if m == g.key.len() {
                        // the query runs past the merged label
                        assert(q1.len() > m);
                        assert(key_match_of(g.key, q1) == KeyMatch::Partial(g.key.len() as usize));
                        let q2 = q1.skip(m);
                        assert(q2.len() > 0);
                        assert(lookup(c, q1) == lookup(g, q2));
                        lemma_common_len_is(c3.key, q, (cklen + m) as nat);
                        assert(key_match_of(c3.key, q) == KeyMatch::Partial(c3.key.len() as usize));
                        assert(q.skip(c3.key.len() as int) =~= q2);
                        assert(lookup(n2, q) == lookup(c3, q2));
                        if q2 == c3.key {
                            assert(q =~= c.key.take(0) + (c.key + g.key) + (c.key + g.key));
                            assert(q =~= Seq::empty() + c3.key + c3.key);
                            lemma_doubled_shape(q, Seq::empty(), c3.key);
                            assert(false);
                        }
                        if q2 == g.key {
                            assert(q =~= c.key + g.key + g.key);
                            lemma_doubled_shape(q, c.key, g.key);
                            assert(false);
                        }
                        let bq2 = bucket_of(q2[0]);
                        lemma_bucket_of_bounds(q2[0]);
                        assert(c3.children == g.children);
                        assert(lookup(c3, q2) == lookup(g, q2));
                    } else {
                        // the query stops or diverges inside the grandchild's label
                        assert(m < g.key.len());
                        assert(key_match_of(g.key, q1) == KeyMatch::Partial(m as usize)
                            || key_match_of(g.key, q1) == KeyMatch::NoMatch);
                        assert(lookup(c, q1) is None);
                        lemma_common_len_is(c3.key, q, (cklen + m) as nat);
                        assert(cklen + m < c3.key.len());
                        assert(lookup(n2, q) is None);
                    }
                }
            }
        }
    }
}

} // verus!

verus! {

/// Frame law for removal: removing one key leaves every other
/// doubled-suffix-free key's lookup exactly as it was.
#[verifier::rlimit(100)]
pub proof fn lemma_remove_frame(n: NodeV, k: Seq<i64>, q: Seq<i64>)
    requires
        node_wf(n),
        k.len() > 0,
        k.len() <= usize::MAX,
        q.len() > 0,
        q.len() <= usize::MAX,
        square_free(k),
        square_free(q),
        q != k,
    ensures
        lookup(remove_of(n, k).0, q) == lookup(n, q),
    decreases n, 17int,
{
    let r = remove_of(n, k).0;
    if k == n.key {
        assert(r.key == n.key && r.children == n.children);
        if q != n.key {
            lemma_bucket_of_bounds(q[0]);
            assert(lookup(r, q) == lookup(n, q));
        }
    } else {
        let b = bucket_of(k[0]);
        lemma_bucket_of_bounds(k[0]);
        match n.children[b] {
            None => {},
            Some(c) => {
                lemma_kids_wf_index(n.children, 0, b);
                lemma_common_len(c.key, k);
                match key_match_of(c.key, k) {
                    KeyMatch::Full => {
                        assert(k == c.key);
                        if c.child_count == 0 {
                            assert(r == with_child(n, b, None, n.child_count - 1));
                            if q != n.key {
                                let bq = bucket_of(q[0]);
                                lemma_bucket_of_bounds(q[0]);
                                if bq == b {
                                    assert(r.children[b] is None);
                                    assert(lookup(r, q) is None);
                                    lemma_common_len(c.key, q);
                                    match key_match_of(c.key, q) {
                                        KeyMatch::Full => {
                                            assert(q == c.key);
                                            assert(false);
                                        },
                                        KeyMatch::NoMatch => {},
                                        KeyMatch::Partial(j) => {
                                            if j < c.key.len() {
                                            } else {
                                                let q1 = q.skip(j as int);
                                                assert(q1.len() > 0);
                                                if q1 == c.key {
                                                    assert(q =~= Seq::empty() + c.key + c.key);
                                                    lemma_doubled_shape(q, Seq::empty(), c.key);
                                                    assert(false);
                                                }
                                                assert(kid_count(c) == 0);
                                                lemma_count_somes_zero(c.children, 0);
                                                let bq1 = bucket_of(q1[0]);
                                                lemma_bucket_of_bounds(q1[0]);
                                                assert(c.children[bq1] is None);
                                                assert(lookup(c, q1) is None);
                                            }
                                        },
                                    }
                                    assert(lookup(n, q) is None);
                                } else {
                                    assert(r.children[bq] == n.children[bq]);
                                    assert(lookup(r, q) == lookup(n, q));
                                }
                            }
                        } else {
                            let c2 = NodeV { key: c.key, val: None, children: c.children, child_count: c.child_count };
                            assert(r == with_child(n, b, Some(prune_of(c2)), n.child_count));
                            if q != n.key {
                                if q == c.key {
                                    assert(q == k);
                                    assert(false);
                                }
                                lemma_prune_lookup_for(n, c, q);
                            }
                        }
                    },
                    KeyMatch::NoMatch => {},
                    KeyMatch::Partial(i) => {
                        if i < c.key.len() {
                        } else {
                            let k1 = k.skip(i as int);
                            assert(i == c.key.len());
                            assert(i < k.len());
                            assert(k1.len() > 0);
                            let rec = remove_of(c, k1);
                            lemma_remove_of(c, k1);
                            assert(r == with_child(n, b, Some(rec.0), n.child_count));
                            assert(rec.0.key == c.key);
                            if q != n.key {
                                let bq = bucket_of(q[0]);
                                lemma_bucket_of_bounds(q[0]);
                                if bq == b {
                                    lemma_common_len(c.key, q);
                                    match key_match_of(c.key, q) {
                                        KeyMatch::Full => {
                                            assert(q == c.key);
                                            if k1 == c.key {
                                                assert(k =~= Seq::empty() + c.key + c.key);
                                                lemma_doubled_shape(k, Seq::empty(), c.key);
                                                assert(false);
                                            }
                                            lemma_remove_val_preserved(c, k1);
                                            assert(lookup(r, q) == rec.0.val);
                                            assert(lookup(n, q) == c.val);
                                        },
                                        KeyMatch::NoMatch => {},
                                        KeyMatch::Partial(j) => {
                                            if j < c.key.len() {
                                            } else {
                                                assert(j == i);
                                                let q1 = q.skip(j as int);
                                                assert(q1.len() > 0);
                                                assert(forall|x: int|
                                                    0 <= x < i ==> #[trigger] c.key[x] == k[x]
                                                        && c.key[x] == q[x]);
                                                if q1 == k1 {
                                                    assert(q.len() == k.len());
                                                    assert forall|x: int|
                                                        0 <= x < q.len() implies q[x] == k[x] by {
                                                        if x < i {
                                                        } else {
                                                            assert(q[x] == q1[x - i]);
                                                            assert(k[x] == k1[x - i]);
                                                        }
                                                    }
                                                    assert(q =~= k);
                                                    assert(false);
                                                }
                                                lemma_square_free_skip(q, j as int);
                                                lemma_square_free_skip(k, i as int);
                                                lemma_remove_frame(c, k1, q1);
                                                assert(lookup(rec.0, q1) == lookup(c, q1));
                                            }
                                        },
                                    }
                                    assert(lookup(r, q) == lookup(n, q));
                                } else {
                                    assert(r.children[bq] == n.children[bq]);
                                    assert(lookup(r, q) == lookup(n, q));
                                }
                            }
                        }
                    },
                }
            },
        }
    }
}

} // verus!
