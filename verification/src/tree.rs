//! Frequency analysis and Huffman tree construction.
//!
//! The builder keeps a worklist of trees ordered by ascending frequency and
//! repeatedly merges the two lowest-frequency entries. Ties are broken
//! deterministically: the entry with the smallest worklist position wins, and
//! the worklist starts with the leaves in ascending byte order, with merged
//! trees appended at the end. The whole construction is therefore a pure
//! function of the frequency table.

use vstd::prelude::*;

verus! {

/// A node of the Huffman tree: a leaf carries a byte value and no children,
/// an internal node carries the summed frequency of its two children.
pub struct Node {
    pub freq: usize,
    pub char_val: Option<u8>,
    pub left: Option<Box<Node>>,
    pub right: Option<Box<Node>>,
}

impl Node {
    /// Assembles a node from its parts.
    pub fn new(freq: usize, char_val: Option<u8>, left: Option<Box<Node>>, right: Option<Box<Node>>)
        -> (n: Node)
        ensures
            n == (Node { freq, char_val, left, right }),
    {
        Node { freq, char_val, left, right }
    }

    /// A node is well-formed when leaves have no children and internal nodes
    /// have exactly two well-formed children.
    pub open spec fn wf(self) -> bool
        decreases self,
    {
        match self.char_val {
            Some(_) => self.left is None && self.right is None,
            None => {
                &&& self.left is Some
                &&& self.right is Some
                &&& (match self.left {
                    Some(l) => l.wf(),
                    None => true,
                })
                &&& (match self.right {
                    Some(r) => r.wf(),
                    None => true,
                })
            },
        }
    }

    /// The number of leaves below (and including) this node.
    pub open spec fn leaf_count(self) -> nat
        decreases self,
    {
        match self.char_val {
            Some(_) => 1,
            None => opt_leaf_count(self.left) + opt_leaf_count(self.right),
        }
    }

    /// The length of the longest root-to-leaf path below this node.
    pub open spec fn height(self) -> nat
        decreases self,
    {
        match self.char_val {
            Some(_) => 0,
            None => 1 + if opt_height(self.left) >= opt_height(self.right) {
                opt_height(self.left)
            } else {
                opt_height(self.right)
            },
        }
    }

    /// Whether some leaf below this node carries byte value `b`.
    pub open spec fn has_leaf(self, b: u8) -> bool
        decreases self,
    {
        match self.char_val {
            Some(c) => c == b,
            None => opt_has_leaf(self.left, b) || opt_has_leaf(self.right, b),
        }
    }
}

pub open spec fn opt_leaf_count(on: Option<Box<Node>>) -> nat
    decreases on,
{
    match on {
        None => 0,
        Some(n) => n.leaf_count(),
    }
}

pub open spec fn opt_height(on: Option<Box<Node>>) -> nat
    decreases on,
{
    match on {
        None => 0,
        Some(n) => n.height(),
    }
}

pub open spec fn opt_has_leaf(on: Option<Box<Node>>, b: u8) -> bool
    decreases on,
{
    match on {
        None => false,
        Some(n) => n.has_leaf(b),
    }
}

/// A well-formed tree has at least one leaf and is strictly deeper than tall:
/// every path is shorter than the number of leaves.
pub proof fn lemma_height_lt_leaf_count(n: Node)
    requires
        n.wf(),
    ensures
        n.leaf_count() >= 1,
        n.height() < n.leaf_count(),
    decreases n,
{
    if n.char_val is None {
        match n.left {
            Some(l) => {
                lemma_height_lt_leaf_count(*l);
            },
            None => {},
        }
        match n.right {
            Some(r) => {
                lemma_height_lt_leaf_count(*r);
            },
            None => {},
        }
    }
}

/// The number of occurrences of byte `b` in `d`.
pub open spec fn count_byte(d: Seq<u8>, b: u8) -> nat
    decreases d.len(),
{
    if d.len() == 0 {
        0
    } else {
        count_byte(d.drop_last(), b) + if d.last() == b {
            1nat
        } else {
            0nat
        }
    }
}

/// A byte occurs a positive number of times exactly when it occurs somewhere.
pub proof fn lemma_count_pos(d: Seq<u8>, b: u8)
    ensures
        (count_byte(d, b) > 0) == (exists|i: int| 0 <= i < d.len() && d[i] == b),
    decreases d.len(),
{
    if d.len() > 0 {
        lemma_count_pos(d.drop_last(), b);
        if d.last() == b {
            assert(d[d.len() - 1] == b);
        } else if count_byte(d, b) > 0 {
            let i = choose|i: int| 0 <= i < d.drop_last().len() && d.drop_last()[i] == b;
            assert(d[i] == b);
        } else if exists|i: int| 0 <= i < d.len() && d[i] == b {
            let i = choose|i: int| 0 <= i < d.len() && d[i] == b;
            assert(i < d.len() - 1);
            assert(d.drop_last()[i] == b);
        }
    }
}

/// No byte occurs more often than the buffer is long.
pub proof fn lemma_count_le_len(d: Seq<u8>, b: u8)
    ensures
        count_byte(d, b) <= d.len(),
    decreases d.len(),
{
    if d.len() > 0 {
        lemma_count_le_len(d.drop_last(), b);
    }
}

/// The sum of the occurrence counts of the byte values below `k`.
pub open spec fn total_counts(d: Seq<u8>, k: int) -> nat
    decreases k,
{
    if k <= 0 {
        0
    } else {
        total_counts(d, k - 1) + count_byte(d, (k - 1) as u8)
    }
}

proof fn lemma_total_counts_step(d: Seq<u8>, k: int)
    requires
        d.len() > 0,
        0 <= k <= 256,
    ensures
        total_counts(d, k) == total_counts(d.drop_last(), k) + if (d.last() as int) < k {
            1nat
        } else {
            0nat
        },
    decreases k,
{
    if k > 0 {
        lemma_total_counts_step(d, k - 1);
    }
}

proof fn lemma_total_counts_empty(d: Seq<u8>, k: int)
    requires
        d.len() == 0,
    ensures
        total_counts(d, k) == 0,
    decreases k,
{
    if k > 0 {
        lemma_total_counts_empty(d, k - 1);
    }
}

/// The occurrence counts of all 256 byte values sum to the buffer length.
pub proof fn lemma_total_counts_all(d: Seq<u8>)
    ensures
        total_counts(d, 256) == d.len(),
    decreases d.len(),
{
    if d.len() > 0 {
        lemma_total_counts_step(d, 256);
        lemma_total_counts_all(d.drop_last());
    } else {
        lemma_total_counts_empty(d, 256);
    }
}

/// The sum of a sequence of machine integers, as a mathematical number.
pub open spec fn sum_usizes(s: Seq<usize>) -> nat
    decreases s.len(),
{
    if s.len() == 0 {
        0
    } else {
        sum_usizes(s.drop_last()) + s.last() as nat
    }
}

/// A frequency table whose entries are the per-byte counts of `d` sums to the
/// length of `d`.
pub proof fn lemma_freq_table_sum(s: Seq<usize>, d: Seq<u8>, k: int)
    requires
        0 <= k <= 256,
        k <= s.len(),
        forall|b: int| 0 <= b < s.len() ==> s[b] == count_byte(d, b as u8),
    ensures
        sum_usizes(s.take(k)) == total_counts(d, k),
    decreases k,
{
    if k > 0 {
        lemma_freq_table_sum(s, d, k - 1);
        assert(s.take(k).drop_last() =~= s.take(k - 1));
        assert(s.take(k).last() == s[k - 1]);
    }
}

/// Scans a byte buffer and produces the table of occurrence counts, indexed
/// by byte value.
pub fn build_frequency_table(data: &[u8]) -> (freq: Vec<usize>)
    ensures
        freq@.len() == 256,
        forall|b: int| 0 <= b < 256 ==> freq@[b] == count_byte(data@, b as u8),
{
    let mut freq: Vec<usize> = Vec::new();
    let mut j: usize = 0;
    while j < 256
        invariant
            j <= 256,
            freq@.len() == j,
            forall|b: int| 0 <= b < j ==> freq@[b] == 0,
        decreases 256 - j,
    {
        freq.push(0);
        j = j + 1;
    }
    let n: usize = data.len();
    let mut i: usize = 0;
    proof {
        assert(data@.take(0) =~= Seq::<u8>::empty());
    }
    while i < n
        invariant
            i <= n,
            n == data@.len(),
            freq@.len() == 256,
            forall|b: int| 0 <= b < 256 ==> freq@[b] == count_byte(data@.take(i as int), b as u8),
        decreases n - i,
    {
        let b: usize = data[i] as usize;
        proof {
            lemma_count_le_len(data@.take(i as int), data@[i as int]);
            assert(data@.take(i + 1).drop_last() =~= data@.take(i as int));
            assert(data@.take(i + 1).last() == data@[i as int]);
        }
        let c: usize = freq[b];
        freq[b] = c + 1;
        i = i + 1;
    }
    proof {
        assert(data@.take(n as int) =~= data@);
    }
    freq
}

/// The merge of two trees: an internal node whose frequency is the sum.
pub open spec fn merge_nodes(a: Node, b: Node) -> Node {
    Node {
        freq: (a.freq + b.freq) as usize,
        char_val: None,
        left: Some(Box::new(a)),
        right: Some(Box::new(b)),
    }
}

/// The position of the first entry with minimal frequency.
pub open spec fn min_idx(ws: Seq<Node>) -> int
    decreases ws.len(),
{
    if ws.len() <= 1 {
        0
    } else {
        let m = min_idx(ws.drop_last());
        if ws.last().freq < ws[m].freq {
            ws.len() - 1
        } else {
            m
        }
    }
}

pub proof fn lemma_min_idx_in_range(ws: Seq<Node>)
    requires
        ws.len() > 0,
    ensures
        0 <= min_idx(ws) < ws.len(),
    decreases ws.len(),
{
    if ws.len() > 1 {
        lemma_min_idx_in_range(ws.drop_last());
    }
}

/// An index clamped into the valid range of a sequence.
pub open spec fn cidx(i: int, len: int) -> int {
    if 0 <= i < len {
        i
    } else {
        0
    }
}

/// The tree obtained by repeatedly merging the two lowest-frequency entries
/// of the worklist, until one remains.
pub open spec fn build_tree(ws: Seq<Node>) -> Node
    decreases ws.len(),
{
    if ws.len() == 0 {
        Node { freq: 0, char_val: None, left: None, right: None }
    } else if ws.len() == 1 {
        ws[0]
    } else {
        let i1 = cidx(min_idx(ws), ws.len() as int);
        let a = ws[i1];
        let ws1 = ws.remove(i1);
        let i2 = cidx(min_idx(ws1), ws1.len() as int);
        let b = ws1[i2];
        let ws2 = ws1.remove(i2);
        build_tree(ws2.push(merge_nodes(a, b)))
    }
}

/// The sum of the frequencies of the worklist entries.
pub open spec fn sum_freqs(ws: Seq<Node>) -> nat
    decreases ws.len(),
{
    if ws.len() == 0 {
        0
    } else {
        sum_freqs(ws.drop_last()) + ws.last().freq as nat
    }
}

/// The sum of the leaf counts of the worklist entries.
pub open spec fn sum_leaf_counts(ws: Seq<Node>) -> nat
    decreases ws.len(),
{
    if ws.len() == 0 {
        0
    } else {
        sum_leaf_counts(ws.drop_last()) + ws.last().leaf_count()
    }
}

/// Removing an entry removes exactly its contribution from the frequency sum.
pub proof fn lemma_sum_freqs_remove(ws: Seq<Node>, i: int)
    requires
        0 <= i < ws.len(),
    ensures
        sum_freqs(ws.remove(i)) + ws[i].freq == sum_freqs(ws),
    decreases ws.len(),
{
    if i == ws.len() - 1 {
        assert(ws.remove(i) =~= ws.drop_last());
    } else {
        lemma_sum_freqs_remove(ws.drop_last(), i);
        assert(ws.remove(i).drop_last() =~= ws.drop_last().remove(i));
        assert(ws.remove(i).last() == ws.last());
    }
}

/// Removing an entry removes exactly its contribution from the leaf-count sum.
pub proof fn lemma_sum_leaf_counts_remove(ws: Seq<Node>, i: int)
    requires
        0 <= i < ws.len(),
    ensures
        sum_leaf_counts(ws.remove(i)) + ws[i].leaf_count() == sum_leaf_counts(ws),
    decreases ws.len(),
{
    if i == ws.len() - 1 {
        assert(ws.remove(i) =~= ws.drop_last());
    } else {
        lemma_sum_leaf_counts_remove(ws.drop_last(), i);
        assert(ws.remove(i).drop_last() =~= ws.drop_last().remove(i));
        assert(ws.remove(i).last() == ws.last());
    }
}

/// Whether some entry of the worklist has a leaf carrying `b`.
pub open spec fn ws_has(ws: Seq<Node>, b: u8) -> bool {
    exists|i: int| 0 <= i < ws.len() && ws[i].has_leaf(b)
}

pub proof fn lemma_ws_has_remove(ws: Seq<Node>, i: int, b: u8)
    requires
        0 <= i < ws.len(),
    ensures
        ws_has(ws, b) == (ws_has(ws.remove(i), b) || ws[i].has_leaf(b)),
{
    let ws1 = ws.remove(i);
    if ws_has(ws, b) {
        let j = choose|j: int| 0 <= j < ws.len() && ws[j].has_leaf(b);
        if j < i {
            assert(ws1[j] == ws[j]);
        } else if j > i {
            assert(ws1[j - 1] == ws[j]);
        }
    }
    if ws_has(ws1, b) {
        let j = choose|j: int| 0 <= j < ws1.len() && ws1[j].has_leaf(b);
        if j < i {
            assert(ws[j] == ws1[j]);
        } else {
            assert(ws[j + 1] == ws1[j]);
        }
    }
    if ws[i].has_leaf(b) {
        assert(0 <= i < ws.len() && ws[i].has_leaf(b));
    }
}

pub proof fn lemma_ws_has_push(ws: Seq<Node>, n: Node, b: u8)
    ensures
        ws_has(ws.push(n), b) == (ws_has(ws, b) || n.has_leaf(b)),
{
    let ws2 = ws.push(n);
    if ws_has(ws, b) {
        let j = choose|j: int| 0 <= j < ws.len() && ws[j].has_leaf(b);
        assert(ws2[j].has_leaf(b));
    }
    if n.has_leaf(b) {
        assert(ws2[ws.len() as int].has_leaf(b));
    }
    if ws_has(ws2, b) {
        let j = choose|j: int| 0 <= j < ws2.len() && ws2[j].has_leaf(b);
        if j < ws.len() {
            assert(ws[j].has_leaf(b));
        }
    }
}

/// The merged tree of a worklist of well-formed trees is well-formed, keeps
/// every leaf of the worklist and no others, and has exactly the worklist's
/// total number of leaves.
pub proof fn lemma_build_tree_props(ws: Seq<Node>)
    requires
        ws.len() >= 1,
        forall|i: int| 0 <= i < ws.len() ==> (#[trigger] ws[i]).wf(),
    ensures
        build_tree(ws).wf(),
        build_tree(ws).leaf_count() == sum_leaf_counts(ws),
        forall|b: u8| #[trigger] build_tree(ws).has_leaf(b) == ws_has(ws, b),
    decreases ws.len(),
{
    if ws.len() == 1 {
        assert(sum_leaf_counts(ws) == sum_leaf_counts(ws.drop_last()) + ws[0].leaf_count());
        assert(ws.drop_last().len() == 0);
        assert(build_tree(ws) == ws[0]);
        assert forall|b: u8| #[trigger] build_tree(ws).has_leaf(b) == ws_has(ws, b) by {
            if ws[0].has_leaf(b) {
                assert(0 <= 0 < ws.len() && ws[0].has_leaf(b));
            }
        }
    } else {
        lemma_min_idx_in_range(ws);
        let i1 = min_idx(ws);
        let a = ws[i1];
        let ws1 = ws.remove(i1);
        lemma_min_idx_in_range(ws1);
        let i2 = min_idx(ws1);
        let b = ws1[i2];
        let ws2 = ws1.remove(i2);
        let m = merge_nodes(a, b);
        let ws3 = ws2.push(m);
        assert(build_tree(ws) == build_tree(ws3));
        assert(forall|j: int|
            0 <= j < ws1.len() ==> (#[trigger] ws1[j]) == (if j < i1 {
                ws[j]
            } else {
                ws[j + 1]
            }));
        assert(forall|j: int|
            0 <= j < ws2.len() ==> (#[trigger] ws2[j]) == (if j < i2 {
                ws1[j]
            } else {
                ws1[j + 1]
            }));
        assert(a.wf() && b.wf());
        assert(m.wf());
        assert(m.leaf_count() == a.leaf_count() + b.leaf_count());
        assert(forall|bb: u8| #[trigger] m.has_leaf(bb) == (a.has_leaf(bb) || b.has_leaf(bb)));
        assert(forall|j: int| 0 <= j < ws3.len() ==> (#[trigger] ws3[j]).wf());
        lemma_build_tree_props(ws3);
        lemma_sum_leaf_counts_remove(ws, i1);
        lemma_sum_leaf_counts_remove(ws1, i2);
        assert(sum_leaf_counts(ws3) == sum_leaf_counts(ws2) + m.leaf_count()) by {
            assert(ws3.drop_last() =~= ws2);
            assert(ws3.last() == m);
        }
        assert(sum_leaf_counts(ws3) == sum_leaf_counts(ws));
        assert forall|bb: u8| #[trigger] build_tree(ws).has_leaf(bb) == ws_has(ws, bb) by {
            lemma_ws_has_remove(ws, i1, bb);
            lemma_ws_has_remove(ws1, i2, bb);
            lemma_ws_has_push(ws2, m, bb);
        }
    }
}

/// The leaf for byte value `b` with frequency `f`.
pub open spec fn leaf_node(f: usize, b: u8) -> Node {
    Node { freq: f, char_val: Some(b), left: None, right: None }
}

/// The initial worklist: one leaf per byte value below `k` with a nonzero
/// count, in ascending byte order.
pub open spec fn init_ws(f: Seq<usize>, k: int) -> Seq<Node>
    decreases k,
{
    if k <= 0 {
        Seq::empty()
    } else {
        init_ws(f, k - 1) + if f[k - 1] > 0 {
            seq![leaf_node(f[k - 1], (k - 1) as u8)]
        } else {
            Seq::empty()
        }
    }
}

/// Basic shape facts about the initial worklist.
pub proof fn lemma_init_ws_props(f: Seq<usize>, k: int)
    requires
        0 <= k <= 256,
        k <= f.len(),
    ensures
        init_ws(f, k).len() <= k,
        sum_freqs(init_ws(f, k)) == sum_usizes(f.take(k)),
        sum_leaf_counts(init_ws(f, k)) == init_ws(f, k).len(),
        forall|i: int| 0 <= i < init_ws(f, k).len() ==> (#[trigger] init_ws(f, k)[i]).wf(),
        (init_ws(f, k).len() > 0) == (exists|b: int| 0 <= b < k && f[b] > 0),
    decreases k,
{
    if k > 0 {
        lemma_init_ws_props(f, k - 1);
        let prev = init_ws(f, k - 1);
        let cur = init_ws(f, k);
        assert(f.take(k).drop_last() =~= f.take(k - 1));
        assert(f.take(k).last() == f[k - 1]);
        if f[k - 1] > 0 {
            assert(cur =~= prev.push(leaf_node(f[k - 1], (k - 1) as u8)));
            assert(cur.drop_last() =~= prev);
            assert(cur.last() == leaf_node(f[k - 1], (k - 1) as u8));
            assert(sum_freqs(cur) == sum_freqs(prev) + f[k - 1]);
            assert(0 <= k - 1 < k && f[k - 1] > 0);
        } else {
            assert(cur =~= prev);
            assert(sum_usizes(f.take(k)) == sum_usizes(f.take(k - 1)));
            if exists|b: int| 0 <= b < k && f[b] > 0 {
                let b = choose|b: int| 0 <= b < k && f[b] > 0;
                assert(0 <= b < k - 1 && f[b] > 0);
            }
        }
    }
}

/// Which bytes the initial worklist has leaves for.
pub proof fn lemma_init_ws_has(f: Seq<usize>, k: int, b: u8)
    requires
        0 <= k <= 256,
        k <= f.len(),
    ensures
        ws_has(init_ws(f, k), b) == ((b as int) < k && f[b as int] > 0),
    decreases k,
{
    if k > 0 {
        lemma_init_ws_has(f, k - 1, b);
        let prev = init_ws(f, k - 1);
        let cur = init_ws(f, k);
        if f[k - 1] > 0 {
            assert(cur =~= prev.push(leaf_node(f[k - 1], (k - 1) as u8)));
            lemma_ws_has_push(prev, leaf_node(f[k - 1], (k - 1) as u8), b);
            assert(leaf_node(f[k - 1], (k - 1) as u8).has_leaf(b) == (b as int == k - 1));
        } else {
            assert(cur =~= prev);
        }
    }
}

/// Finds the position of the first minimal-frequency entry of the worklist.
fn min_node_idx(ws: &Vec<Node>) -> (m: usize)
    requires
        ws@.len() > 0,
    ensures
        m as int == min_idx(ws@),
        m < ws@.len(),
{
    let mut best: usize = 0;
    let mut j: usize = 1;
    proof {
        assert(ws@.take(1).len() == 1);
        assert(min_idx(ws@.take(1)) == 0);
    }
    while j < ws.len()
        invariant
            1 <= j <= ws@.len(),
            best < j,
            best as int == min_idx(ws@.take(j as int)),
        decreases ws@.len() - j,
    {
        proof {
            assert(ws@.take(j + 1).drop_last() =~= ws@.take(j as int));
            assert(ws@.take(j + 1).last() == ws@[j as int]);
            lemma_min_idx_in_range(ws@.take(j as int));
        }
        if ws[j].freq < ws[best].freq {
            best = j;
        }
        j = j + 1;
    }
    proof {
        assert(ws@.take(ws@.len() as int) =~= ws@);
    }
    best
}

/// Builds the Huffman tree for a 256-entry frequency table by priority-ordered
/// merging, or reports that the table is empty.
///
/// The frequency sum must fit in a machine integer; for a table produced by
/// `build_frequency_table` it equals the input length and always does.
pub fn build_huffman_tree(frequency: &Vec<usize>) -> (r: Option<Box<Node>>)
    requires
        frequency@.len() == 256,
        sum_usizes(frequency@) <= usize::MAX,
    ensures
        (match r {
            None => init_ws(frequency@, 256).len() == 0,
            Some(root) => init_ws(frequency@, 256).len() > 0 && *root == build_tree(
                init_ws(frequency@, 256),
            ),
        }),
{
    let mut ws: Vec<Node> = Vec::new();
    let mut b: usize = 0;
    while b < 256
        invariant
            b <= 256,
            frequency@.len() == 256,
            ws@ == init_ws(frequency@, b as int),
        decreases 256 - b,
    {
        let f: usize = frequency[b];
        if f > 0 {
            let leaf = Node::new(f, Some(b as u8), None, None);
            proof {
                assert(ws@.push(leaf) =~= init_ws(frequency@, b as int) + seq![
                    leaf_node(frequency@[b as int], b as u8),
                ]);
            }
            ws.push(leaf);
        } else {
            proof {
                assert(ws@ =~= init_ws(frequency@, b as int) + Seq::<Node>::empty());
            }
        }
        b = b + 1;
    }
    proof {
        lemma_init_ws_props(frequency@, 256);
        assert(frequency@.take(256) =~= frequency@);
    }
    if ws.len() == 0 {
        return None;
    }
    let ghost ws0 = ws@;
    while ws.len() > 1
        invariant
            ws@.len() >= 1,
            build_tree(ws@) == build_tree(ws0),
            sum_freqs(ws@) == sum_freqs(ws0),
            sum_freqs(ws0) <= usize::MAX,
        decreases ws@.len(),
    {
        let ghost before = ws@;
        let i1: usize = min_node_idx(&ws);
        let a: Node = ws.remove(i1);
        let i2: usize = min_node_idx(&ws);
        let bn: Node = ws.remove(i2);
        proof {
            lemma_sum_freqs_remove(before, i1 as int);
            lemma_sum_freqs_remove(before.remove(i1 as int), i2 as int);
        }
        let merged = Node::new(a.freq + bn.freq, None, Some(Box::new(a)), Some(Box::new(bn)));
        proof {
            let ws1 = before.remove(i1 as int);
            let ws2 = ws1.remove(i2 as int);
            lemma_min_idx_in_range(before);
            lemma_min_idx_in_range(ws1);
            assert(cidx(min_idx(before), before.len() as int) == i1 as int);
            assert(cidx(min_idx(ws1), ws1.len() as int) == i2 as int);
            assert(merged == merge_nodes(a, bn));
            assert(build_tree(before) == build_tree(ws2.push(merge_nodes(a, bn))));
        }
        ws.push(merged);
        proof {
            assert(sum_freqs(ws@) == sum_freqs(ws@.drop_last()) + merged.freq);
            assert(ws@.drop_last() =~= before.remove(i1 as int).remove(i2 as int));
        }
    }
    let root = ws.remove(0);
    proof {
        assert(build_tree(ws0) == root);
    }
    Some(Box::new(root))
}

} // verus!
