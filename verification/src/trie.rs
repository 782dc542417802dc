//! Longest-prefix-matching Patricia trie over both address families.
//!
//! The trie holds CIDRs only.  Each node carries a canonical prefix
//! value and length; a payload is present exactly when a stored CIDR
//! ends at the node.  The two families never share nodes: there is one
//! root for IPv4 and one for IPv6.
//!
//! The view of a root is the finite map from stored `(prefix bits,
//! prefix length)` pairs to their flags.  `insert` updates the map at
//! one key; `find_all_matches` returns exactly the stored CIDRs whose
//! prefix covers the queried address, from shortest prefix to longest.

use vstd::prelude::*;

use crate::addr::{Cidr, IpAddress};
use crate::bits::{
    bit_at, common_prefix_len, fits, get_bit, is_prefix_bits, lemma_prefix_bits_unique,
    lemma_prefix_eq_bit, lemma_prefix_eq_extend, lemma_prefix_eq_shorten, lemma_prefix_eq_zero,
    mask_prefix, prefix_eq,
};
use crate::flags::ReputationFlags;

verus! {

pub(crate) struct TrieNode {
    pub prefix_bits: u128,
    pub prefix_len: u8,
    pub payload: Option<ReputationFlags>,
    pub zero: Option<Box<TrieNode>>,
    pub one: Option<Box<TrieNode>>,
}

/// The stored entries of the subtree rooted at `n`.
pub(crate) open spec fn node_map(n: TrieNode) -> Map<(u128, u8), ReputationFlags>
    decreases n,
{
    let children = opt_map(n.zero).union_prefer_right(opt_map(n.one));
    match n.payload {
        Some(f) => children.insert((n.prefix_bits, n.prefix_len), f),
        None => children,
    }
}

/// The stored entries of an optional subtree.
pub(crate) open spec fn opt_map(o: Option<Box<TrieNode>>) -> Map<(u128, u8), ReputationFlags>
    decreases o,
{
    match o {
        None => Map::empty(),
        Some(b) => node_map(*b),
    }
}

/// A child in the given slot extends the parent's prefix by at least
/// one bit, the first extending bit naming the slot.
pub(crate) open spec fn child_ok(parent: TrieNode, o: Option<Box<TrieNode>>, bit: bool, total: int) -> bool
    decreases o,
{
    match o {
        None => true,
        Some(c) => {
            &&& (*c).prefix_len > parent.prefix_len
            &&& prefix_eq((*c).prefix_bits, parent.prefix_bits, parent.prefix_len as int, total)
            &&& bit_at((*c).prefix_bits, parent.prefix_len as int, total) == bit
            &&& node_wf(*c, total)
        },
    }
}

/// Structural invariant of a node: its prefix is canonical within the
/// family's address space, a node without a payload has a child, and
/// both child slots are consistent.
pub(crate) open spec fn node_wf(n: TrieNode, total: int) -> bool
    decreases n,
{
    &&& 0 < total <= 128
    &&& n.prefix_len as int <= total
    &&& is_prefix_bits(n.prefix_bits, n.prefix_len as int, total)
    &&& (n.payload is None ==> n.zero is Some || n.one is Some)
    &&& child_ok(n, n.zero, false, total)
    &&& child_ok(n, n.one, true, total)
}

pub(crate) open spec fn opt_wf(o: Option<Box<TrieNode>>, total: int) -> bool {
    match o {
        None => true,
        Some(b) => node_wf(*b, total),
    }
}

/// Every key of a subtree is canonical and extends the root's prefix.
pub(crate) proof fn lemma_subtree_keys(n: TrieNode, total: int)
    requires
        node_wf(n, total),
    ensures
        forall|k: (u128, u8)|
            #[trigger] node_map(n).contains_key(k) ==> {
                &&& k.1 as int <= total
                &&& is_prefix_bits(k.0, k.1 as int, total)
                &&& k.1 >= n.prefix_len
                &&& prefix_eq(k.0, n.prefix_bits, n.prefix_len as int, total)
            },
    decreases n,
{
    assert forall|k: (u128, u8)| #[trigger] node_map(n).contains_key(k) implies {
        &&& k.1 as int <= total
        &&& is_prefix_bits(k.0, k.1 as int, total)
        &&& k.1 >= n.prefix_len
        &&& prefix_eq(k.0, n.prefix_bits, n.prefix_len as int, total)
    } by {
        let children = opt_map(n.zero).union_prefer_right(opt_map(n.one));
        if n.payload is Some && k == (n.prefix_bits, n.prefix_len) {
        } else {
            assert(children.contains_key(k));
            if opt_map(n.one).contains_key(k) {
                let c = n.one->0;
                lemma_subtree_keys(*c, total);
                assert(node_map(*c).contains_key(k));
                lemma_prefix_eq_shorten(
                    k.0,
                    (*c).prefix_bits,
                    (*c).prefix_len as int,
                    n.prefix_len as int,
                    total,
                );
                assert(prefix_eq(k.0, n.prefix_bits, n.prefix_len as int, total));
            } else {
                assert(opt_map(n.zero).contains_key(k));
                let c = n.zero->0;
                lemma_subtree_keys(*c, total);
                assert(node_map(*c).contains_key(k));
                lemma_prefix_eq_shorten(
                    k.0,
                    (*c).prefix_bits,
                    (*c).prefix_len as int,
                    n.prefix_len as int,
                    total,
                );
                assert(prefix_eq(k.0, n.prefix_bits, n.prefix_len as int, total));
            }
        }
    }
}

/// Every key of the subtree under a child slot reads the slot's bit at
/// the parent's branching position.
pub(crate) proof fn lemma_child_keys_bit(n: TrieNode, o: Option<Box<TrieNode>>, bit: bool, total: int)
    requires
        node_wf(n, total),
        child_ok(n, o, bit, total),
    ensures
        forall|k: (u128, u8)|
            #[trigger] opt_map(o).contains_key(k) ==> k.1 > n.prefix_len && bit_at(
                k.0,
                n.prefix_len as int,
                total,
            ) == bit,
{
    if o is Some {
        let c = o->0;
        lemma_subtree_keys(*c, total);
        assert forall|k: (u128, u8)| #[trigger] opt_map(o).contains_key(k) implies k.1
            > n.prefix_len && bit_at(k.0, n.prefix_len as int, total) == bit by {
            assert(node_map(*c).contains_key(k));
            lemma_prefix_eq_shorten(
                k.0,
                (*c).prefix_bits,
                (*c).prefix_len as int,
                n.prefix_len as int + 1,
                total,
            );
            lemma_prefix_eq_bit(k.0, (*c).prefix_bits, n.prefix_len as int + 1, n.prefix_len as int, total);
        }
    }
}

/// How subtree membership decomposes at a well-formed node: a pair is
/// stored at the node itself or in exactly one child.
pub(crate) proof fn lemma_node_map_char(n: TrieNode, total: int)
    requires
        node_wf(n, total),
    ensures
        forall|k: (u128, u8), f: ReputationFlags|
            #[trigger] node_map(n).contains_pair(k, f) <==> {
                ||| (n.payload == Some(f) && k == (n.prefix_bits, n.prefix_len))
                ||| opt_map(n.zero).contains_pair(k, f)
                ||| opt_map(n.one).contains_pair(k, f)
            },
{
    lemma_child_keys_bit(n, n.zero, false, total);
    lemma_child_keys_bit(n, n.one, true, total);
    if n.zero is Some {
        lemma_subtree_keys(*n.zero->0, total);
    }
    if n.one is Some {
        lemma_subtree_keys(*n.one->0, total);
    }
    let children = opt_map(n.zero).union_prefer_right(opt_map(n.one));
    assert forall|k: (u128, u8), f: ReputationFlags| #[trigger] node_map(n).contains_pair(k, f)
        implies {
        ||| (n.payload == Some(f) && k == (n.prefix_bits, n.prefix_len))
        ||| opt_map(n.zero).contains_pair(k, f)
        ||| opt_map(n.one).contains_pair(k, f)
    } by {
        if n.payload is Some && k == (n.prefix_bits, n.prefix_len) {
            assert(!children.contains_key(k));
        }
    }
    assert forall|k: (u128, u8), f: ReputationFlags|
        {
            ||| (n.payload == Some(f) && k == (n.prefix_bits, n.prefix_len))
            ||| opt_map(n.zero).contains_pair(k, f)
            ||| opt_map(n.one).contains_pair(k, f)
        } implies #[trigger] node_map(n).contains_pair(k, f) by {
        if n.payload == Some(f) && k == (n.prefix_bits, n.prefix_len) {
        } else if opt_map(n.one).contains_pair(k, f) {
            assert(children.contains_pair(k, f));
            assert(k.1 > n.prefix_len);
        } else if opt_map(n.zero).contains_pair(k, f) {
            assert(!opt_map(n.one).contains_key(k));
            assert(children.contains_pair(k, f));
            assert(k.1 > n.prefix_len);
        }
    }
}

/// Two maps with the same pairs are equal.
proof fn lemma_map_ext_from_pairs(
    m1: Map<(u128, u8), ReputationFlags>,
    m2: Map<(u128, u8), ReputationFlags>,
)
    requires
        forall|k: (u128, u8), f: ReputationFlags| #[trigger]
            m1.contains_pair(k, f) ==> m2.contains_pair(k, f),
        forall|k: (u128, u8), f: ReputationFlags| #[trigger]
            m2.contains_pair(k, f) ==> m1.contains_pair(k, f),
    ensures
        m1 == m2,
{
    assert forall|k: (u128, u8)| #[trigger] m1.dom().contains(k) implies m2.dom().contains(k)
        && m1[k] == m2[k] by {
        assert(m1.contains_pair(k, m1[k]));
        assert(m2.contains_pair(k, m1[k]));
    }
    assert forall|k: (u128, u8)| #[trigger] m2.dom().contains(k) implies m1.dom().contains(k) by {
        assert(m2.contains_pair(k, m2[k]));
        assert(m1.contains_pair(k, m2[k]));
    }
    assert(m1.dom() =~= m2.dom());
    assert(m1 =~= m2);
}

/// The slot holds exactly this node.
pub(crate) open spec fn opt_holds(o: Option<Box<TrieNode>>, n: TrieNode) -> bool {
    match o {
        Some(c) => *c == n,
        None => false,
    }
}

/// Rebuilding a node with one child slot replaced by a subtree that
/// took the insertion keeps it well formed and inserts into its map.
proof fn lemma_case_descend(
    r: TrieNode,
    n0: TrieNode,
    ncv: TrieNode,
    cb: bool,
    bits: u128,
    len: u8,
    flags: ReputationFlags,
    total: int,
)
    requires
        0 < total <= 128,
        node_wf(n0, total),
        is_prefix_bits(bits, len as int, total),
        len as int <= total,
        (n0.prefix_len as int) < len as int,
        prefix_eq(n0.prefix_bits, bits, n0.prefix_len as int, total),
        bit_at(bits, n0.prefix_len as int, total) == cb,
        node_wf(ncv, total),
        node_map(ncv) == opt_map(
            if cb {
                n0.one
            } else {
                n0.zero
            },
        ).insert((bits, len), flags),
        prefix_eq(ncv.prefix_bits, bits, ncv.prefix_len as int, total),
        ncv.prefix_len <= len,
        (ncv.prefix_len as int) > n0.prefix_len as int,
        r.prefix_bits == n0.prefix_bits,
        r.prefix_len == n0.prefix_len,
        r.payload == n0.payload,
        cb ==> r.zero == n0.zero && opt_holds(r.one, ncv),
        !cb ==> r.one == n0.one && opt_holds(r.zero, ncv),
    ensures
        node_wf(r, total),
        node_map(r) == node_map(n0).insert((bits, len), flags),
{
    let nl = n0.prefix_len as int;
    lemma_prefix_eq_shorten(ncv.prefix_bits, bits, ncv.prefix_len as int, nl + 1, total);
    lemma_prefix_eq_bit(ncv.prefix_bits, bits, nl + 1, nl, total);
    lemma_prefix_eq_shorten(ncv.prefix_bits, bits, nl + 1, nl, total);
    assert(node_wf(r, total));
    lemma_node_map_char(r, total);
    lemma_node_map_char(n0, total);
    lemma_child_keys_bit(n0, n0.zero, false, total);
    lemma_child_keys_bit(n0, n0.one, true, total);
    let old_slot = if cb {
        n0.one
    } else {
        n0.zero
    };
    assert forall|k: (u128, u8), f: ReputationFlags| node_map(r).contains_pair(k, f) implies node_map(
        n0,
    ).insert((bits, len), flags).contains_pair(k, f) by {
        if r.payload == Some(f) && k == (r.prefix_bits, r.prefix_len) {
            assert(node_map(n0).contains_pair(k, f));
            assert(k != (bits, len));
        } else if cb {
            if opt_map(r.zero).contains_pair(k, f) {
                assert(node_map(n0).contains_pair(k, f));
                assert(bit_at(k.0, nl, total) == false);
                assert(k != (bits, len));
            } else {
                assert(opt_map(r.one).contains_pair(k, f));
                assert(node_map(ncv).contains_pair(k, f));
                if k != (bits, len) {
                    assert(opt_map(n0.one).contains_pair(k, f));
                    assert(node_map(n0).contains_pair(k, f));
                }
            }
        } else {
            if opt_map(r.one).contains_pair(k, f) {
                assert(node_map(n0).contains_pair(k, f));
                assert(bit_at(k.0, nl, total) == true);
                assert(k != (bits, len));
            } else {
                assert(opt_map(r.zero).contains_pair(k, f));
                assert(node_map(ncv).contains_pair(k, f));
                if k != (bits, len) {
                    assert(opt_map(n0.zero).contains_pair(k, f));
                    assert(node_map(n0).contains_pair(k, f));
                }
            }
        }
    }
    assert forall|k: (u128, u8), f: ReputationFlags|
        node_map(n0).insert((bits, len), flags).contains_pair(k, f) implies node_map(
        r,
    ).contains_pair(k, f) by {
        if k == (bits, len) {
            assert(node_map(ncv).contains_pair(k, f));
            if cb {
                assert(opt_map(r.one).contains_pair(k, f));
            } else {
                assert(opt_map(r.zero).contains_pair(k, f));
            }
        } else {
            assert(node_map(n0).contains_pair(k, f));
            if n0.payload == Some(f) && k == (n0.prefix_bits, n0.prefix_len) {
            } else if opt_map(old_slot).contains_pair(k, f) {
                assert(node_map(ncv).contains_pair(k, f));
                if cb {
                    assert(opt_map(r.one).contains_pair(k, f));
                } else {
                    assert(opt_map(r.zero).contains_pair(k, f));
                }
            } else {
                if cb {
                    assert(opt_map(n0.zero).contains_pair(k, f));
                    assert(opt_map(r.zero).contains_pair(k, f));
                } else {
                    assert(opt_map(n0.one).contains_pair(k, f));
                    assert(opt_map(r.one).contains_pair(k, f));
                }
            }
        }
    }
    lemma_map_ext_from_pairs(node_map(r), node_map(n0).insert((bits, len), flags));
}

/// A fresh parent at the divergence point, holding the old subtree in
/// one slot and the new key as its payload or as a fresh leaf, is well
/// formed and inserts into the old subtree's map.
proof fn lemma_case_split(
    r: TrieNode,
    n0: TrieNode,
    bits: u128,
    len: u8,
    flags: ReputationFlags,
    common: u8,
    total: int,
)
    requires
        0 < total <= 128,
        node_wf(n0, total),
        is_prefix_bits(bits, len as int, total),
        len as int <= total,
        common <= len,
        (common as int) < n0.prefix_len as int,
        r.prefix_len == common,
        is_prefix_bits(r.prefix_bits, common as int, total),
        prefix_eq(r.prefix_bits, bits, common as int, total),
        prefix_eq(n0.prefix_bits, bits, common as int, total),
        opt_holds(
            if bit_at(n0.prefix_bits, common as int, total) {
                r.one
            } else {
                r.zero
            },
            n0,
        ),
        common == len ==> r.payload == Some(flags) && r.prefix_bits == bits && (bit_at(
            n0.prefix_bits,
            common as int,
            total,
        ) ==> r.zero is None) && (!bit_at(n0.prefix_bits, common as int, total) ==> r.one is None),
        common < len ==> bit_at(bits, common as int, total) != bit_at(
            n0.prefix_bits,
            common as int,
            total,
        ) && r.payload is None && opt_holds(
            if bit_at(bits, common as int, total) {
                r.one
            } else {
                r.zero
            },
            (TrieNode {
                prefix_bits: bits,
                prefix_len: len,
                payload: Some(flags),
                zero: None,
                one: None,
            }),
        ),
    ensures
        node_wf(r, total),
        node_map(r) == node_map(n0).insert((bits, len), flags),
{
    let ob = bit_at(n0.prefix_bits, common as int, total);
    let leaf = TrieNode {
        prefix_bits: bits,
        prefix_len: len,
        payload: Some(flags),
        zero: None,
        one: None,
    };
    assert(node_map(leaf) =~= Map::<(u128, u8), ReputationFlags>::empty().insert(
        (bits, len),
        flags,
    ));
    assert(node_wf(leaf, total));
    assert(child_ok(r, if ob { r.one } else { r.zero }, ob, total));
    if common < len {
        let nb = bit_at(bits, common as int, total);
        assert(child_ok(r, if nb { r.one } else { r.zero }, nb, total));
    }
    assert(node_wf(r, total));
    lemma_node_map_char(r, total);
    lemma_subtree_keys(n0, total);
    assert forall|k: (u128, u8), f: ReputationFlags| node_map(r).contains_pair(k, f) implies node_map(
        n0,
    ).insert((bits, len), flags).contains_pair(k, f) by {
        if r.payload == Some(f) && k == (r.prefix_bits, r.prefix_len) {
            assert(common == len && k == (bits, len) && f == flags);
        } else if opt_map(if ob { r.one } else { r.zero }).contains_pair(k, f) {
            assert(node_map(n0).contains_pair(k, f));
            assert(node_map(n0).contains_key(k));
            if common < len {
                lemma_prefix_eq_shorten(
                    k.0,
                    n0.prefix_bits,
                    n0.prefix_len as int,
                    common as int + 1,
                    total,
                );
                lemma_prefix_eq_bit(k.0, n0.prefix_bits, common as int + 1, common as int, total);
                assert(k != (bits, len));
            } else {
                assert(k.1 > common);
                assert(k != (bits, len));
            }
        } else {
            assert(common < len);
            assert(opt_map(if bit_at(bits, common as int, total) { r.one } else { r.zero }).contains_pair(k, f));
            assert(node_map(leaf).contains_pair(k, f));
            assert(k == (bits, len) && f == flags);
        }
    }
    assert forall|k: (u128, u8), f: ReputationFlags|
        node_map(n0).insert((bits, len), flags).contains_pair(k, f) implies node_map(
        r,
    ).contains_pair(k, f) by {
        if k == (bits, len) {
            if common == len {
                assert(r.payload == Some(f) && k == (r.prefix_bits, r.prefix_len));
            } else {
                assert(node_map(leaf).contains_pair(k, f));
                assert(opt_map(if bit_at(bits, common as int, total) { r.one } else { r.zero }).contains_pair(k, f));
            }
        } else {
            assert(node_map(n0).contains_pair(k, f));
            assert(opt_map(if ob { r.one } else { r.zero }).contains_pair(k, f));
        }
    }
    lemma_map_ext_from_pairs(node_map(r), node_map(n0).insert((bits, len), flags));
}

/// Insert `(bits, len)` with `flags` into a subtree and return its new
/// root.  The new root's prefix is a prefix of the inserted key, and
/// never shorter than any prefix the old root's key shares with it.
fn insert_node(o: Option<Box<TrieNode>>, bits: u128, len: u8, total: u8, flags: ReputationFlags) -> (r: Box<
    TrieNode,
>)
    requires
        opt_wf(o, total as int),
        0 < total <= 128,
        len <= total,
        is_prefix_bits(bits, len as int, total as int),
    ensures
        node_wf(*r, total as int),
        node_map(*r) == opt_map(o).insert((bits, len), flags),
        prefix_eq((*r).prefix_bits, bits, (*r).prefix_len as int, total as int),
        (*r).prefix_len <= len,
        o is None ==> (*r).prefix_len == len,
        o matches Some(b) ==> forall|j: int|
            0 <= j <= (*b).prefix_len && j <= len && prefix_eq(
                (*b).prefix_bits,
                bits,
                j,
                total as int,
            ) ==> j <= (*r).prefix_len as int,
    decreases o,
{
    match o {
        None => {
            let r = Box::new(
                TrieNode {
                    prefix_bits: bits,
                    prefix_len: len,
                    payload: Some(flags),
                    zero: None,
                    one: None,
                },
            );
            proof {
                assert(node_map(*r) =~= opt_map(o).insert((bits, len), flags));
            }
            r
        },
        Some(b) => {
            let ghost n0 = *b;
            let n = *b;
            let min_len = if n.prefix_len < len {
                n.prefix_len
            } else {
                len
            };
            proof {
                lemma_subtree_keys(n0, total as int);
                lemma_node_map_char(n0, total as int);
            }
            let common = common_prefix_len(n.prefix_bits, bits, min_len, total);
            if common == n.prefix_len && common == len {
                // Same key: overwrite the payload.
                proof {
                    lemma_prefix_bits_unique(n.prefix_bits, bits, len as int, total as int);
                }
                let TrieNode { prefix_bits: nb, prefix_len: nl, payload: _, zero: nz, one: no_ } = n;
                let r = Box::new(
                    TrieNode { prefix_bits: nb, prefix_len: nl, payload: Some(flags), zero: nz, one: no_ },
                );
                proof {
                    lemma_node_map_char(*r, total as int);
                    assert(node_map(*r) =~= opt_map(o).insert((bits, len), flags)) by {
                        assert forall|k: (u128, u8), f: ReputationFlags|
                            node_map(*r).contains_pair(k, f) implies opt_map(o).insert(
                            (bits, len),
                            flags,
                        ).contains_pair(k, f) by {
                            if k != (bits, len) {
                                assert(node_map(n0).contains_pair(k, f));
                            }
                        }
                        assert forall|k: (u128, u8), f: ReputationFlags|
                            opt_map(o).insert((bits, len), flags).contains_pair(k, f) implies node_map(
                            *r,
                        ).contains_pair(k, f) by {
                            if k != (bits, len) {
                                assert(node_map(n0).contains_pair(k, f));
                            }
                        }
                    }
                }
                r
            } else if common == n.prefix_len {
                // The node's key is a proper prefix of the new key:
                // descend into the child slot named by the next bit.
                assert(common < len);
                let child_bit = get_bit(bits, n.prefix_len, total);
                let TrieNode { prefix_bits: nb, prefix_len: nl, payload: np, zero: nz, one: no_ } = n;
                proof {
                    if child_bit {
                        if no_ is Some {
                            let oc = *no_->0;
                            lemma_prefix_eq_extend(oc.prefix_bits, bits, nl as int, total as int);
                        }
                    } else {
                        if nz is Some {
                            let oc = *nz->0;
                            lemma_prefix_eq_extend(oc.prefix_bits, bits, nl as int, total as int);
                        }
                    }
                }
                let r = if child_bit {
                    let new_child = insert_node(no_, bits, len, total, flags);
                    proof {
                        assert((*new_child).prefix_len > nl);
                        lemma_case_descend(
                            TrieNode {
                                prefix_bits: nb,
                                prefix_len: nl,
                                payload: np,
                                zero: nz,
                                one: Some(new_child),
                            },
                            n0,
                            *new_child,
                            true,
                            bits,
                            len,
                            flags,
                            total as int,
                        );
                    }
                    Box::new(
                        TrieNode {
                            prefix_bits: nb,
                            prefix_len: nl,
                            payload: np,
                            zero: nz,
                            one: Some(new_child),
                        },
                    )
                } else {
                    let new_child = insert_node(nz, bits, len, total, flags);
                    proof {
                        assert((*new_child).prefix_len > nl);
                        lemma_case_descend(
                            TrieNode {
                                prefix_bits: nb,
                                prefix_len: nl,
                                payload: np,
                                zero: Some(new_child),
                                one: no_,
                            },
                            n0,
                            *new_child,
                            false,
                            bits,
                            len,
                            flags,
                            total as int,
                        );
                    }
                    Box::new(
                        TrieNode {
                            prefix_bits: nb,
                            prefix_len: nl,
                            payload: np,
                            zero: Some(new_child),
                            one: no_,
                        },
                    )
                };
                r
            } else {
                // The keys diverge before the node's prefix ends:
                // split with a fresh parent at the common length.
                assert(common < n.prefix_len);
                let cbits = mask_prefix(bits, common, total);
                let old_bit = get_bit(n.prefix_bits, common, total);
                let old_node = Box::new(n);
                proof {
                    assert forall|j: int|
                        0 <= j <= n0.prefix_len && j <= len && prefix_eq(
                            n0.prefix_bits,
                            bits,
                            j,
                            total as int,
                        ) implies j <= common as int by {
                        if j > common as int {
                            lemma_prefix_eq_shorten(n0.prefix_bits, bits, j, common as int + 1, total as int);
                            lemma_prefix_eq_bit(
                                n0.prefix_bits,
                                bits,
                                common as int + 1,
                                common as int,
                                total as int,
                            );
                        }
                    }
                }
                let r = if common == len {
                    // The new key is exactly the split point.
                    proof {
                        lemma_prefix_bits_unique(cbits, bits, common as int, total as int);
                    }
                    if old_bit {
                        let r = Box::new(
                            TrieNode {
                                prefix_bits: cbits,
                                prefix_len: common,
                                payload: Some(flags),
                                zero: None,
                                one: Some(old_node),
                            },
                        );
                        proof {
                            lemma_case_split(*r, n0, bits, len, flags, common, total as int);
                        }
                        r
                    } else {
                        let r = Box::new(
                            TrieNode {
                                prefix_bits: cbits,
                                prefix_len: common,
                                payload: Some(flags),
                                zero: Some(old_node),
                                one: None,
                            },
                        );
                        proof {
                            lemma_case_split(*r, n0, bits, len, flags, common, total as int);
                        }
                        r
                    }
                } else {
                    // Both keys continue past the split point, with
                    // opposite bits there.
                    let leaf = Box::new(
                        TrieNode {
                            prefix_bits: bits,
                            prefix_len: len,
                            payload: Some(flags),
                            zero: None,
                            one: None,
                        },
                    );
                    if old_bit {
                        let r = Box::new(
                            TrieNode {
                                prefix_bits: cbits,
                                prefix_len: common,
                                payload: None,
                                zero: Some(leaf),
                                one: Some(old_node),
                            },
                        );
                        proof {
                            lemma_case_split(*r, n0, bits, len, flags, common, total as int);
                        }
                        r
                    } else {
                        let r = Box::new(
                            TrieNode {
                                prefix_bits: cbits,
                                prefix_len: common,
                                payload: None,
                                zero: Some(old_node),
                                one: Some(leaf),
                            },
                        );
                        proof {
                            lemma_case_split(*r, n0, bits, len, flags, common, total as int);
                        }
                        r
                    }
                };
                r
            }
        },
    }
}

/// Height of a subtree, the termination measure of the lookup walk.
pub(crate) open spec fn node_height(n: TrieNode) -> nat
    decreases n,
{
    1 + if opt_height(n.zero) >= opt_height(n.one) {
        opt_height(n.zero)
    } else {
        opt_height(n.one)
    }
}

pub(crate) open spec fn opt_height(o: Option<Box<TrieNode>>) -> nat
    decreases o,
{
    match o {
        None => 0,
        Some(b) => node_height(*b),
    }
}

/// The CIDR a stored trie key denotes.
pub open spec fn spec_cidr_of_key(k: (u128, u8), v4: bool) -> Cidr {
    Cidr {
        addr: if v4 {
            IpAddress::V4(k.0 as u32)
        } else {
            IpAddress::V6(k.0)
        },
        prefix: k.1,
    }
}

/// A canonical trie key round-trips through its CIDR.
pub proof fn lemma_cidr_of_key(k: (u128, u8), v4: bool)
    requires
        is_prefix_bits(
            k.0,
            k.1 as int,
            if v4 {
                32int
            } else {
                128
            },
        ),
        k.1 as int <= if v4 {
            32int
        } else {
            128
        },
    ensures
        spec_cidr_of_key(k, v4).addr.spec_carrier() == k.0,
        spec_cidr_of_key(k, v4).addr.spec_is_v4() == v4,
        spec_cidr_of_key(k, v4).prefix == k.1,
        spec_cidr_of_key(k, v4).spec_canonical(),
{
    if v4 {
        let b = k.0;
        assert(b >> 32u128 == 0 ==> (b as u32) as u128 == b) by (bit_vector);
    }
}

/// Build the CIDR a stored trie key denotes.
fn cidr_of_key(bits: u128, len: u8, v4: bool) -> (c: Cidr)
    requires
        is_prefix_bits(
            bits,
            len as int,
            if v4 {
                32int
            } else {
                128
            },
        ),
        len as int <= if v4 {
            32int
        } else {
            128
        },
    ensures
        c == spec_cidr_of_key((bits, len), v4),
        c.addr.spec_carrier() == bits,
        c.addr.spec_is_v4() == v4,
        c.spec_canonical(),
{
    proof {
        lemma_cidr_of_key((bits, len), v4);
    }
    if v4 {
        proof {
            assert(bits >> 32u128 == 0 ==> bits < 0x1_0000_0000) by (bit_vector);
        }
        Cidr { addr: IpAddress::V4(bits as u32), prefix: len }
    } else {
        Cidr { addr: IpAddress::V6(bits), prefix: len }
    }
}

/// Walk a root towards `ip_bits`, collecting every stored CIDR whose
/// prefix covers it, shortest prefix first.
fn find_from(root: &Option<Box<TrieNode>>, ip_bits: u128, total: u8, v4: bool) -> (r: Vec<
    (Cidr, ReputationFlags),
>)
    requires
        opt_wf(*root, total as int),
        fits(ip_bits, total as int),
        total as int == if v4 {
            32int
        } else {
            128
        },
    ensures
        forall|i: int|
            0 <= i < r@.len() ==> {
                let c = (#[trigger] r@[i]).0;
                &&& c.spec_canonical()
                &&& c.addr.spec_is_v4() == v4
                &&& c.prefix as int <= total as int
                &&& opt_map(*root).contains_pair((c.addr.spec_carrier(), c.prefix), r@[i].1)
                &&& prefix_eq(c.addr.spec_carrier(), ip_bits, c.prefix as int, total as int)
            },
        forall|k: (u128, u8), f: ReputationFlags|
            #[trigger] opt_map(*root).contains_pair(k, f) && prefix_eq(
                k.0,
                ip_bits,
                k.1 as int,
                total as int,
            ) ==> exists|i: int|
                0 <= i < r@.len() && r@[i] == (spec_cidr_of_key(k, v4), f),
        forall|i1: int, i2: int|
            0 <= i1 < i2 < r@.len() ==> (#[trigger] r@[i1]).0.prefix < (#[trigger] r@[i2]).0.prefix,
{
    let mut res: Vec<(Cidr, ReputationFlags)> = Vec::new();
    let mut cur: &Option<Box<TrieNode>> = root;
    while cur.is_some()
        invariant
            opt_wf(*root, total as int),
            opt_wf(*cur, total as int),
            fits(ip_bits, total as int),
            total as int == if v4 {
                32int
            } else {
                128
            },
            forall|k: (u128, u8), f: ReputationFlags|
                #[trigger] opt_map(*cur).contains_pair(k, f) ==> opt_map(*root).contains_pair(k, f),
            forall|i: int|
                0 <= i < res@.len() ==> {
                    let c = (#[trigger] res@[i]).0;
                    &&& c.spec_canonical()
                    &&& c.addr.spec_is_v4() == v4
                    &&& c.prefix as int <= total as int
                    &&& opt_map(*root).contains_pair((c.addr.spec_carrier(), c.prefix), res@[i].1)
                    &&& prefix_eq(c.addr.spec_carrier(), ip_bits, c.prefix as int, total as int)
                },
            forall|k: (u128, u8), f: ReputationFlags|
                #[trigger] opt_map(*root).contains_pair(k, f) && prefix_eq(
                    k.0,
                    ip_bits,
                    k.1 as int,
                    total as int,
                ) ==> (exists|i: int|
                    0 <= i < res@.len() && res@[i] == (spec_cidr_of_key(k, v4), f)) || opt_map(
                    *cur,
                ).contains_pair(k, f),
            forall|i: int, k: (u128, u8)|
                0 <= i < res@.len() && #[trigger] opt_map(*cur).contains_key(k) ==> (
                #[trigger] res@[i]).0.prefix < k.1,
            forall|i1: int, i2: int|
                0 <= i1 < i2 < res@.len() ==> (#[trigger] res@[i1]).0.prefix < (
                #[trigger] res@[i2]).0.prefix,
        decreases opt_height(*cur),
    {
        if let Some(node) = cur {
            let ghost res0 = res@;
            proof {
                lemma_subtree_keys(**node, total as int);
                lemma_node_map_char(**node, total as int);
                lemma_child_keys_bit(**node, (**node).zero, false, total as int);
                lemma_child_keys_bit(**node, (**node).one, true, total as int);
            }
            let common = common_prefix_len(node.prefix_bits, ip_bits, node.prefix_len, total);
            if common < node.prefix_len {
                // The node's prefix already disagrees with the query:
                // nothing below can cover it.
                proof {
                    assert forall|k: (u128, u8), f: ReputationFlags|
                        #[trigger] opt_map(*root).contains_pair(k, f) && prefix_eq(
                            k.0,
                            ip_bits,
                            k.1 as int,
                            total as int,
                        ) implies exists|i: int|
                        0 <= i < res@.len() && res@[i] == (spec_cidr_of_key(k, v4), f) by {
                        if opt_map(*cur).contains_pair(k, f) {
                            assert(node_map(**node).contains_key(k));
                            lemma_prefix_eq_shorten(
                                k.0,
                                ip_bits,
                                k.1 as int,
                                (**node).prefix_len as int,
                                total as int,
                            );
                            lemma_prefix_eq_shorten(
                                k.0,
                                (**node).prefix_bits,
                                (**node).prefix_len as int,
                                common as int + 1,
                                total as int,
                            );
                            lemma_prefix_eq_shorten(
                                k.0,
                                ip_bits,
                                (**node).prefix_len as int,
                                common as int + 1,
                                total as int,
                            );
                            lemma_prefix_eq_bit(
                                (**node).prefix_bits,
                                ip_bits,
                                common as int + 1,
                                common as int,
                                total as int,
                            );
                            assert(false);
                        }
                    }
                }
                return res;
            }
            match &node.payload {
                Some(f) => {
                    let c = cidr_of_key(node.prefix_bits, node.prefix_len, v4);
                    res.push((c, *f));
                    proof {
                        let key = ((**node).prefix_bits, (**node).prefix_len);
                        assert(node_map(**node).contains_pair(key, *f));
                        assert(opt_map(*cur).contains_pair(key, *f));
                        assert(opt_map(*root).contains_pair(key, *f));
                        assert(opt_map(*cur).contains_key(key));
                        assert(forall|i: int|
                            0 <= i < res@.len() - 1 ==> (#[trigger] res@[i]).0.prefix < c.prefix);
                    }
                },
                None => {},
            }
            if node.prefix_len >= total {
                // The prefix fills the whole address space: no child
                // can be longer, so the walk is done.
                proof {
                    if (**node).zero is Some {
                        assert(node_wf(*(**node).zero->0, total as int));
                        assert(false);
                    }
                    if (**node).one is Some {
                        assert(node_wf(*(**node).one->0, total as int));
                        assert(false);
                    }
                    assert forall|k: (u128, u8), f: ReputationFlags|
                        #[trigger] opt_map(*root).contains_pair(k, f) && prefix_eq(
                            k.0,
                            ip_bits,
                            k.1 as int,
                            total as int,
                        ) implies exists|i: int|
                        0 <= i < res@.len() && res@[i] == (spec_cidr_of_key(k, v4), f) by {
                        if opt_map(*cur).contains_pair(k, f) {
                            assert((**node).payload == Some(f) && k == (
                                (**node).prefix_bits,
                                (**node).prefix_len,
                            ));
                            assert(res@[res@.len() - 1] == (spec_cidr_of_key(k, v4), f));
                        } else {
                            let i0 = choose|i: int|
                                0 <= i < res0.len() && res0[i] == (spec_cidr_of_key(k, v4), f);
                            assert(res@[i0] == res0[i0]);
                        }
                    }
                }
                return res;
            }
            let b = get_bit(ip_bits, node.prefix_len, total);
            let ghost prev = cur;
            cur = if b {
                &node.one
            } else {
                &node.zero
            };
            proof {
                assert forall|k: (u128, u8), f: ReputationFlags|
                    #[trigger] opt_map(*root).contains_pair(k, f) && prefix_eq(
                        k.0,
                        ip_bits,
                        k.1 as int,
                        total as int,
                    ) implies (exists|i: int|
                    0 <= i < res@.len() && res@[i] == (spec_cidr_of_key(k, v4), f)) || opt_map(
                    *cur,
                ).contains_pair(k, f) by {
                    if !opt_map(*prev).contains_pair(k, f) {
                        let i0 = choose|i: int|
                            0 <= i < res0.len() && res0[i] == (spec_cidr_of_key(k, v4), f);
                        assert(res@[i0] == res0[i0]);
                    } else {
                        if (**node).payload == Some(f) && k == (
                            (**node).prefix_bits,
                            (**node).prefix_len,
                        ) {
                            let c = spec_cidr_of_key(k, v4);
                            lemma_cidr_of_key(k, v4);
                            assert(res@[res@.len() - 1] == (c, f));
                        } else if opt_map(if b { (**node).zero } else { (**node).one }).contains_pair(
                            k,
                            f,
                        ) {
                            assert(node_map(**node).contains_key(k));
                            assert(opt_map(if b { (**node).zero } else { (**node).one }).contains_key(k));
                            lemma_prefix_eq_shorten(
                                k.0,
                                ip_bits,
                                k.1 as int,
                                (**node).prefix_len as int + 1,
                                total as int,
                            );
                            lemma_prefix_eq_bit(
                                k.0,
                                ip_bits,
                                (**node).prefix_len as int + 1,
                                (**node).prefix_len as int,
                                total as int,
                            );
                            assert(false);
                        } else {
                            assert(opt_map(*cur).contains_pair(k, f));
                        }
                    }
                }
                assert forall|k: (u128, u8), f: ReputationFlags|
                    #[trigger] opt_map(*cur).contains_pair(k, f) implies opt_map(
                    *root,
                ).contains_pair(k, f) by {
                    assert(node_map(**node).contains_pair(k, f));
                    assert(opt_map(*prev).contains_pair(k, f));
                }
                assert forall|i: int, k: (u128, u8)|
                    0 <= i < res@.len() && #[trigger] opt_map(*cur).contains_key(k) implies (
                #[trigger] res@[i]).0.prefix < k.1 by {
                    let fk = opt_map(*cur)[k];
                    assert(opt_map(*cur).contains_pair(k, fk));
                    if b {
                        assert(opt_map((**node).one).contains_key(k));
                    } else {
                        assert(opt_map((**node).zero).contains_key(k));
                    }
                    assert(k.1 > (**node).prefix_len);
                    assert(node_map(**node).contains_pair(k, fk));
                    assert(opt_map(*prev).contains_key(k));
                    if i < res0.len() {
                        assert(res@[i] == res0[i]);
                    }
                }
            }
        }
    }
    proof {
        assert(opt_map(*cur) =~= Map::<(u128, u8), ReputationFlags>::empty());
    }
    res
}

/// The in-memory Patricia trie over both address families.
pub struct IpTrie {
    v4_root: Option<Box<TrieNode>>,
    v6_root: Option<Box<TrieNode>>,
}

impl IpTrie {
    /// Both roots are structurally well formed.
    pub closed spec fn wf(self) -> bool {
        opt_wf(self.v4_root, 32) && opt_wf(self.v6_root, 128)
    }

    /// The stored IPv4 CIDRs: canonical prefix bits and length, to flags.
    pub closed spec fn v4_map(self) -> Map<(u128, u8), ReputationFlags> {
        opt_map(self.v4_root)
    }

    /// The stored IPv6 CIDRs.
    pub closed spec fn v6_map(self) -> Map<(u128, u8), ReputationFlags> {
        opt_map(self.v6_root)
    }

    /// The stored CIDRs of one family.
    pub open spec fn family_map(self, v4: bool) -> Map<(u128, u8), ReputationFlags> {
        if v4 {
            self.v4_map()
        } else {
            self.v6_map()
        }
    }

    /// An empty trie.
    pub fn new() -> (t: IpTrie)
        ensures
            t.wf(),
            t.v4_map() == Map::<(u128, u8), ReputationFlags>::empty(),
            t.v6_map() == Map::<(u128, u8), ReputationFlags>::empty(),
    {
        IpTrie { v4_root: None, v6_root: None }
    }

    /// Insert a network with its flags; an existing entry for the same
    /// canonical network is overwritten.
    pub fn insert(&mut self, network: &Cidr, flags: ReputationFlags)
        requires
            old(self).wf(),
            network.spec_wf(),
        ensures
            final(self).wf(),
            ({
                let c = network.spec_network();
                let key = (c.addr.spec_carrier(), c.prefix);
                if network.addr.spec_is_v4() {
                    &&& final(self).v4_map() == old(self).v4_map().insert(key, flags)
                    &&& final(self).v6_map() == old(self).v6_map()
                } else {
                    &&& final(self).v6_map() == old(self).v6_map().insert(key, flags)
                    &&& final(self).v4_map() == old(self).v4_map()
                }
            }),
    {
        let c = network.network();
        match &c.addr {
            IpAddress::V4(_) => {
                let carrier = c.addr.carrier();
                let root = self.v4_root.take();
                self.v4_root = Some(insert_node(root, carrier, c.prefix, 32, flags));
            },
            IpAddress::V6(_) => {
                let carrier = c.addr.carrier();
                let root = self.v6_root.take();
                self.v6_root = Some(insert_node(root, carrier, c.prefix, 128, flags));
            },
        }
    }

    /// Every stored CIDR whose prefix covers `ip`, shortest first.
    ///
    /// The result is sound and complete against the family's map: it
    /// holds exactly the stored pairs that cover the address, only
    /// from the queried family, in strictly ascending prefix length.
    pub fn find_all_matches(&self, ip: &IpAddress) -> (r: Vec<(Cidr, ReputationFlags)>)
        requires
            self.wf(),
        ensures
            forall|i: int|
                0 <= i < r@.len() ==> {
                    let c = (#[trigger] r@[i]).0;
                    &&& c.spec_canonical()
                    &&& c.addr.spec_is_v4() == ip.spec_is_v4()
                    &&& self.family_map(ip.spec_is_v4()).contains_pair(
                        (c.addr.spec_carrier(), c.prefix),
                        r@[i].1,
                    )
                    &&& c.spec_covers(*ip)
                },
            forall|k: (u128, u8), f: ReputationFlags|
                #[trigger] self.family_map(ip.spec_is_v4()).contains_pair(k, f) && prefix_eq(
                    k.0,
                    ip.spec_carrier(),
                    k.1 as int,
                    ip.spec_total_bits(),
                ) ==> exists|i: int|
                    0 <= i < r@.len() && r@[i] == (spec_cidr_of_key(k, ip.spec_is_v4()), f),
            forall|i1: int, i2: int|
                0 <= i1 < i2 < r@.len() ==> (#[trigger] r@[i1]).0.prefix < (
                #[trigger] r@[i2]).0.prefix,
    {
        let carrier = ip.carrier();
        match ip {
            IpAddress::V4(_) => find_from(&self.v4_root, carrier, 32, true),
            IpAddress::V6(_) => find_from(&self.v6_root, carrier, 128, false),
        }
    }
}

impl Default for IpTrie {
    /// An empty trie.
    fn default() -> (t: IpTrie)
        ensures
            t.wf(),
            t.v4_map() == Map::<(u128, u8), ReputationFlags>::empty(),
            t.v6_map() == Map::<(u128, u8), ReputationFlags>::empty(),
    {
        IpTrie::new()
    }
}

} // verus!
