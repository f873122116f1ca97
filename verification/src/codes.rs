//! Code table generation: walking the Huffman tree and assigning each byte
//! value the bit string of its root-to-leaf path.
//!
//! The table is indexed by byte value; an empty bit string means the byte has
//! no code. When the tree is a single leaf the accumulated path is empty, and
//! the generator substitutes the fixed one-bit code `0` so that the byte
//! remains encodable.

use vstd::prelude::*;
use crate::tree::Node;
use crate::tree::opt_has_leaf;

verus! {

/// Whether `a` is a prefix of `b` (equality included).
pub open spec fn is_prefix_of(a: Seq<bool>, b: Seq<bool>) -> bool {
    a.len() <= b.len() && b.take(a.len() as int) == a
}

/// No code of the table is a prefix of the code of a different byte value.
pub open spec fn prefix_free(t: Seq<Seq<bool>>) -> bool {
    forall|b1: u8, b2: u8|
        b1 != b2 && #[trigger] t[b1 as int].len() > 0 && #[trigger] t[b2 as int].len() > 0
            ==> !is_prefix_of(t[b1 as int], t[b2 as int])
}

/// The table with no codes at all.
pub open spec fn blank_table() -> Seq<Seq<bool>> {
    Seq::new(256, |i: int| Seq::<bool>::empty())
}

/// The table obtained by assigning every leaf below `n` the code formed by
/// extending `prefix` with its path, left = 0 and right = 1; an empty path at
/// a leaf is replaced by the one-bit code `0`.
pub open spec fn insert_codes_node(t: Seq<Seq<bool>>, n: Node, prefix: Seq<bool>) -> Seq<Seq<bool>>
    decreases n,
{
    match n.char_val {
        Some(cv) => t.update(
            cv as int,
            if prefix.len() == 0 {
                seq![false]
            } else {
                prefix
            },
        ),
        None => insert_codes_opt(
            insert_codes_opt(t, n.left, prefix.push(false)),
            n.right,
            prefix.push(true),
        ),
    }
}

pub open spec fn insert_codes_opt(
    t: Seq<Seq<bool>>,
    on: Option<Box<Node>>,
    prefix: Seq<bool>,
) -> Seq<Seq<bool>>
    decreases on,
{
    match on {
        None => t,
        Some(nb) => insert_codes_node(t, *nb, prefix),
    }
}

/// The code table of a whole tree: codes assigned along paths from the root,
/// starting from the empty path and the empty table.
pub open spec fn table_of_tree(root: Node) -> Seq<Seq<bool>> {
    insert_codes_node(blank_table(), root, Seq::empty())
}

/// Whether `c` is the code that the walk starting at `n` with accumulated
/// path `prefix` assigns to some leaf carrying `b`.
pub open spec fn is_path_code(n: Node, prefix: Seq<bool>, b: u8, c: Seq<bool>) -> bool
    decreases n,
{
    match n.char_val {
        Some(cv) => cv == b && c == (if prefix.len() == 0 {
            seq![false]
        } else {
            prefix
        }),
        None => opt_is_path_code(n.left, prefix.push(false), b, c) || opt_is_path_code(
            n.right,
            prefix.push(true),
            b,
            c,
        ),
    }
}

pub open spec fn opt_is_path_code(on: Option<Box<Node>>, prefix: Seq<bool>, b: u8, c: Seq<bool>)
    -> bool
    decreases on,
{
    match on {
        None => false,
        Some(nb) => is_path_code(*nb, prefix, b, c),
    }
}

/// Inserting the codes of a subtree changes exactly the entries of the bytes
/// that have a leaf there, and changes them to path codes.
pub proof fn lemma_insert_props_node(t: Seq<Seq<bool>>, n: Node, prefix: Seq<bool>)
    requires
        t.len() == 256,
    ensures
        insert_codes_node(t, n, prefix).len() == 256,
        forall|b: u8|
            !n.has_leaf(b) ==> insert_codes_node(t, n, prefix)[b as int] == t[b as int],
        forall|b: u8|
            #[trigger] n.has_leaf(b) ==> is_path_code(
                n,
                prefix,
                b,
                insert_codes_node(t, n, prefix)[b as int],
            ),
    decreases n,
{
    match n.char_val {
        Some(cv) => {
        },
        None => {
            let p0 = prefix.push(false);
            let p1 = prefix.push(true);
            let t1 = insert_codes_opt(t, n.left, p0);
            lemma_insert_props_opt(t, n.left, p0);
            lemma_insert_props_opt(t1, n.right, p1);
            let r = insert_codes_node(t, n, prefix);
            assert(r == insert_codes_opt(t1, n.right, p1));
            assert forall|b: u8| #[trigger] n.has_leaf(b) implies is_path_code(
                n,
                prefix,
                b,
                r[b as int],
            ) by {
                if opt_has_leaf(n.right, b) {
                    assert(opt_is_path_code(n.right, p1, b, r[b as int]));
                } else {
                    assert(r[b as int] == t1[b as int]);
                    assert(opt_has_leaf(n.left, b));
                    assert(opt_is_path_code(n.left, p0, b, t1[b as int]));
                }
            }
        },
    }
}

pub proof fn lemma_insert_props_opt(t: Seq<Seq<bool>>, on: Option<Box<Node>>, prefix: Seq<bool>)
    requires
        t.len() == 256,
    ensures
        insert_codes_opt(t, on, prefix).len() == 256,
        forall|b: u8|
            !opt_has_leaf(on, b) ==> insert_codes_opt(t, on, prefix)[b as int] == t[b as int],
        forall|b: u8|
            #[trigger] opt_has_leaf(on, b) ==> opt_is_path_code(
                on,
                prefix,
                b,
                insert_codes_opt(t, on, prefix)[b as int],
            ),
    decreases on,
{
    match on {
        None => {
        },
        Some(nb) => {
            lemma_insert_props_node(t, *nb, prefix);
            assert forall|b: u8| #[trigger] opt_has_leaf(on, b) implies opt_is_path_code(
                on,
                prefix,
                b,
                insert_codes_opt(t, on, prefix)[b as int],
            ) by {
                assert(nb.has_leaf(b));
                assert(is_path_code(*nb, prefix, b, insert_codes_node(t, *nb, prefix)[b as int]));
            }
        },
    }
}

/// A path code extends the accumulated prefix and is bounded by the height of
/// the subtree below it.
pub proof fn lemma_path_code_shape(n: Node, prefix: Seq<bool>, b: u8, c: Seq<bool>)
    requires
        prefix.len() >= 1,
        is_path_code(n, prefix, b, c),
    ensures
        prefix.len() <= c.len(),
        c.take(prefix.len() as int) == prefix,
        c.len() <= prefix.len() + n.height(),
    decreases n,
{
    match n.char_val {
        Some(cv) => {
            assert(c == prefix);
            assert(c.take(prefix.len() as int) =~= prefix);
        },
        None => {
            let p0 = prefix.push(false);
            let p1 = prefix.push(true);
            if opt_is_path_code(n.left, p0, b, c) {
                match n.left {
                    Some(l) => {
                        lemma_path_code_shape(*l, p0, b, c);
                        assert(c.take(prefix.len() as int) =~= c.take(p0.len() as int).take(
                            prefix.len() as int,
                        ));
                        assert(p0.take(prefix.len() as int) =~= prefix);
                    },
                    None => {},
                }
            } else {
                match n.right {
                    Some(r) => {
                        lemma_path_code_shape(*r, p1, b, c);
                        assert(c.take(prefix.len() as int) =~= c.take(p1.len() as int).take(
                            prefix.len() as int,
                        ));
                        assert(p1.take(prefix.len() as int) =~= prefix);
                    },
                    None => {},
                }
            }
        },
    }
}

/// Path codes of distinct byte values are never prefixes of one another.
pub proof fn lemma_path_codes_prefix_free(
    n: Node,
    prefix: Seq<bool>,
    b1: u8,
    c1: Seq<bool>,
    b2: u8,
    c2: Seq<bool>,
)
    requires
        prefix.len() >= 1,
        b1 != b2,
        is_path_code(n, prefix, b1, c1),
        is_path_code(n, prefix, b2, c2),
    ensures
        !is_prefix_of(c1, c2),
    decreases n,
{
    match n.char_val {
        Some(cv) => {
            assert(false);
        },
        None => {
            let p0 = prefix.push(false);
            let p1 = prefix.push(true);
            let pl = prefix.len() as int;
            if opt_is_path_code(n.left, p0, b1, c1) && opt_is_path_code(n.left, p0, b2, c2) {
                match n.left {
                    Some(l) => {
                        lemma_path_codes_prefix_free(*l, p0, b1, c1, b2, c2);
                    },
                    None => {},
                }
            } else if opt_is_path_code(n.right, p1, b1, c1) && opt_is_path_code(
                n.right,
                p1,
                b2,
                c2,
            ) {
                match n.right {
                    Some(r) => {
                        lemma_path_codes_prefix_free(*r, p1, b1, c1, b2, c2);
                    },
                    None => {},
                }
            } else {
                let (q1, q2) = if opt_is_path_code(n.left, p0, b1, c1) {
                    (p0, p1)
                } else {
                    (p1, p0)
                };
                match n.left {
                    Some(l) => {
                        match n.right {
                            Some(r) => {
                                if opt_is_path_code(n.left, p0, b1, c1) {
                                    lemma_path_code_shape(*l, p0, b1, c1);
                                    lemma_path_code_shape(*r, p1, b2, c2);
                                } else {
                                    lemma_path_code_shape(*r, p1, b1, c1);
                                    lemma_path_code_shape(*l, p0, b2, c2);
                                }
                            },
                            None => {},
                        }
                    },
                    None => {},
                }
                assert(c1.take(pl + 1) == q1);
                assert(c2.take(pl + 1) == q2);
                if is_prefix_of(c1, c2) {
                    assert(c2.take(c1.len() as int) == c1);
                    assert(c1.take(pl + 1) =~= c2.take(c1.len() as int).take(pl + 1));
                    assert(c2.take(c1.len() as int).take(pl + 1) =~= c2.take(pl + 1));
                    assert(q1[pl] != q2[pl]);
                    assert(false);
                }
            }
        },
    }
}

/// The code table of a well-formed tree with at most 256 leaves: it has a
/// nonempty code exactly for the bytes carried by leaves, every code has at
/// most 255 bits, and the table is prefix-free.
pub proof fn lemma_code_table_props(root: Node)
    requires
        root.wf(),
        root.leaf_count() <= 256,
    ensures
        table_of_tree(root).len() == 256,
        forall|b: u8| (#[trigger] table_of_tree(root)[b as int].len() > 0) == root.has_leaf(b),
        forall|b: u8|
            root.has_leaf(b) ==> 1 <= #[trigger] table_of_tree(root)[b as int].len() <= 255,
        prefix_free(table_of_tree(root)),
{
    let t = table_of_tree(root);
    crate::tree::lemma_height_lt_leaf_count(root);
    match root.char_val {
        Some(cv) => {
            assert(t == blank_table().update(cv as int, seq![false]));
            assert(forall|b: u8| b != cv ==> t[b as int] =~= Seq::<bool>::empty());
            assert(t[cv as int].len() == 1);
            assert forall|b1: u8, b2: u8|
                b1 != b2 && #[trigger] t[b1 as int].len() > 0 && #[trigger] t[b2 as int].len()
                    > 0 implies !is_prefix_of(t[b1 as int], t[b2 as int]) by {
                assert(b1 == cv || b2 == cv);
                assert(false);
            }
        },
        None => {
            lemma_insert_props_node(blank_table(), root, Seq::empty());
            assert forall|b: u8| (#[trigger] t[b as int].len() > 0) == root.has_leaf(b) by {
                if root.has_leaf(b) {
                    assert(is_path_code(root, Seq::empty(), b, t[b as int]));
                    lemma_root_path_code_shape(root, b, t[b as int]);
                } else {
                    assert(t[b as int] == blank_table()[b as int]);
                }
            }
            assert forall|b: u8| root.has_leaf(b) implies 1 <= #[trigger] t[b as int].len()
                <= 255 by {
                assert(is_path_code(root, Seq::empty(), b, t[b as int]));
                lemma_root_path_code_shape(root, b, t[b as int]);
            }
            assert forall|b1: u8, b2: u8|
                b1 != b2 && #[trigger] t[b1 as int].len() > 0 && #[trigger] t[b2 as int].len()
                    > 0 implies !is_prefix_of(t[b1 as int], t[b2 as int]) by {
                assert(root.has_leaf(b1) && root.has_leaf(b2));
                lemma_root_prefix_free_pair(root, b1, t[b1 as int], b2, t[b2 as int]);
            }
        },
    }
}

/// Shape of a path code assigned from the root of an internal node: at least
/// one bit, at most the height of the tree.
proof fn lemma_root_path_code_shape(root: Node, b: u8, c: Seq<bool>)
    requires
        root.char_val is None,
        is_path_code(root, Seq::empty(), b, c),
    ensures
        1 <= c.len() <= root.height(),
{
    let p0 = Seq::empty().push(false);
    let p1 = Seq::empty().push(true);
    if opt_is_path_code(root.left, p0, b, c) {
        match root.left {
            Some(l) => {
                lemma_path_code_shape(*l, p0, b, c);
            },
            None => {},
        }
    } else {
        match root.right {
            Some(r) => {
                lemma_path_code_shape(*r, p1, b, c);
            },
            None => {},
        }
    }
}

/// Prefix-freeness of two root path codes of an internal node.
proof fn lemma_root_prefix_free_pair(root: Node, b1: u8, c1: Seq<bool>, b2: u8, c2: Seq<bool>)
    requires
        root.char_val is None,
        b1 != b2,
        is_path_code(root, Seq::empty(), b1, c1),
        is_path_code(root, Seq::empty(), b2, c2),
    ensures
        !is_prefix_of(c1, c2),
{
    let p0 = Seq::empty().push(false);
    let p1 = Seq::empty().push(true);
    if opt_is_path_code(root.left, p0, b1, c1) && opt_is_path_code(root.left, p0, b2, c2) {
        match root.left {
            Some(l) => {
                lemma_path_codes_prefix_free(*l, p0, b1, c1, b2, c2);
            },
            None => {},
        }
    } else if opt_is_path_code(root.right, p1, b1, c1) && opt_is_path_code(root.right, p1, b2, c2) {
        match root.right {
            Some(r) => {
                lemma_path_codes_prefix_free(*r, p1, b1, c1, b2, c2);
            },
            None => {},
        }
    } else {
        match root.left {
            Some(l) => {
                match root.right {
                    Some(r) => {
                        if opt_is_path_code(root.left, p0, b1, c1) {
                            lemma_path_code_shape(*l, p0, b1, c1);
                            lemma_path_code_shape(*r, p1, b2, c2);
                        } else {
                            lemma_path_code_shape(*r, p1, b1, c1);
                            lemma_path_code_shape(*l, p0, b2, c2);
                        }
                    },
                    None => {},
                }
            },
            None => {},
        }
        if is_prefix_of(c1, c2) {
            assert(c2.take(c1.len() as int) == c1);
            assert(c1.take(1) =~= c2.take(c1.len() as int).take(1));
            assert(c2.take(c1.len() as int).take(1) =~= c2.take(1));
            assert(c1[0] != c2[0]);
            assert(c1.take(1)[0] == c1[0]);
            assert(false);
        }
    }
}

/// A fresh code table with no codes assigned.
pub fn new_code_table() -> (codes: Vec<Vec<bool>>)
    ensures
        codes.deep_view() == blank_table(),
{
    let mut codes: Vec<Vec<bool>> = Vec::new();
    let mut j: usize = 0;
    while j < 256
        invariant
            j <= 256,
            codes@.len() == j,
            forall|i: int| 0 <= i < j ==> (#[trigger] codes@[i])@.len() == 0,
        decreases 256 - j,
    {
        codes.push(Vec::new());
        j = j + 1;
    }
    proof {
        assert(codes.deep_view() =~~= blank_table());
    }
    codes
}

/// Copies a bit string.
fn copy_bits(v: &Vec<bool>) -> (r: Vec<bool>)
    ensures
        r@ == v@,
{
    let mut r: Vec<bool> = Vec::new();
    let mut j: usize = 0;
    while j < v.len()
        invariant
            j <= v@.len(),
            r@ == v@.take(j as int),
        decreases v@.len() - j,
    {
        r.push(v[j]);
        proof {
            assert(v@.take(j + 1) =~= v@.take(j as int).push(v@[j as int]));
        }
        j = j + 1;
    }
    proof {
        assert(v@.take(v@.len() as int) =~= v@);
    }
    r
}

/// Walks the tree depth-first and records, for every leaf, the accumulated
/// path as that byte's code; an empty path (single-leaf tree) becomes the
/// one-bit code `0`.
pub fn generate_codes(node: &Option<Box<Node>>, prefix: Vec<bool>, codes: &mut Vec<Vec<bool>>)
    requires
        old(codes)@.len() == 256,
    ensures
        final(codes)@.len() == 256,
        final(codes).deep_view() == insert_codes_opt(old(codes).deep_view(), *node, prefix@),
    decreases *node,
{
    match node {
        None => {
        },
        Some(n) => {
            match n.char_val {
                Some(cv) => {
                    let code: Vec<bool> = if prefix.len() == 0 {
                        let mut v: Vec<bool> = Vec::new();
                        v.push(false);
                        proof {
                            assert(v@ =~= seq![false]);
                        }
                        v
                    } else {
                        prefix
                    };
                    codes[cv as usize] = code;
                    proof {
                        assert(codes.deep_view() =~~= insert_codes_opt(
                            old(codes).deep_view(),
                            *node,
                            prefix@,
                        ));
                    }
                },
                None => {
                    let mut pl: Vec<bool> = copy_bits(&prefix);
                    pl.push(false);
                    generate_codes(&n.left, pl, codes);
                    let mut pr: Vec<bool> = prefix;
                    pr.push(true);
                    generate_codes(&n.right, pr, codes);
                },
            }
        },
    }
}

} // verus!
