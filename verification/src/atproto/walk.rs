//! Walking the blocks of a tree: what was written is found again, in order.

use vstd::prelude::*;
use vstd::utf8::{decode_utf8, encode_utf8, encode_utf8_decode_utf8, encode_utf8_valid_utf8, valid_utf8};

use crate::atproto::cid::cid_of;
use crate::atproto::mst::{
    in_order, key_layer, lead, leaf_entry, leaves_written, lemma_lead, maybe_tree, mst_written,
    top_layer, tree_written, Pair,
};
use crate::atproto::node::{
    entry_readable, law_node_roundtrip, node_bytes, node_parts, MstError, NodeEntry, NodeParts,
};

verus! {

/// What stands at content identifiers.
pub type Blocks = Map<Seq<u8>, Seq<u8>>;

// -- Walking ----------------------------------------------------------------------------------

/// The keys and values below a content identifier, in order, not deeper than
/// given; none where a block is missing or is not a node.
pub open spec fn walked(blocks: Blocks, cid: Seq<u8>, depth: nat) -> Option<Seq<Pair>>
    decreases depth, 0nat,
{
    if depth == 0 || !blocks.dom().contains(cid) {
        None
    } else {
        match node_parts(blocks[cid]) {
            Err(_) => None,
            Ok((left, entries)) => match (
                walked_below(blocks, left, (depth - 1) as nat),
                walked_entries(blocks, entries, Seq::empty(), (depth - 1) as nat),
            ) {
                (Some(a), Some(b)) => Some(a + b),
                _ => None,
            },
        }
    }
}

/// The keys and values of a tree that may be there.
pub open spec fn walked_below(blocks: Blocks, tree: Option<Seq<u8>>, depth: nat) -> Option<
    Seq<Pair>,
>
    decreases depth, 1nat,
{
    match tree {
        Some(cid) => walked(blocks, cid, depth),
        None => Some(Seq::empty()),
    }
}

/// The keys and values of entries and of the trees behind them, given the key
/// before them.
pub open spec fn walked_entries(
    blocks: Blocks,
    entries: Seq<NodeEntry>,
    prev: Seq<u8>,
    depth: nat,
) -> Option<Seq<Pair>>
    decreases depth, 2 + entries.len(),
{
    if entries.len() == 0 {
        Some(Seq::empty())
    } else {
        let e = entries[0];
        let key = prev.take(e.prefix_len as int) + e.key_suffix;
        match (
            walked_below(blocks, e.tree, depth),
            walked_entries(blocks, entries.drop_first(), key, depth),
        ) {
            (Some(a), Some(b)) => if valid_utf8(key) {
                Some(seq![(decode_utf8(key), e.value)] + a + b)
            } else {
                None
            },
            _ => None,
        }
    }
}

// -- The nodes of a tree ------------------------------------------------------------------------

/// The node of pairs at a layer.
pub open spec fn tree_node(pairs: Seq<Pair>, layer: nat) -> Seq<u8>
    decreases layer, 2 * pairs.len() + 1,
{
    let n = lead(pairs, layer);
    proof {
        lemma_lead(pairs, layer);
    }
    node_bytes(
        tree_below(pairs.take(n as int), layer),
        leaf_entries(pairs.skip(n as int), layer, Seq::empty()),
    )
}

/// The content identifier of the tree of pairs below a layer, if there is one.
pub open spec fn tree_below(pairs: Seq<Pair>, layer: nat) -> Option<Seq<u8>>
    decreases layer, 0nat,
{
    if pairs.len() > 0 && layer > 0 {
        Some(cid_of(tree_node(pairs, (layer - 1) as nat)))
    } else {
        None
    }
}

/// The entries of the keys of a layer.
pub open spec fn leaf_entries(pairs: Seq<Pair>, layer: nat, prev: Seq<u8>) -> Seq<NodeEntry>
    decreases layer, 2 * pairs.len(),
{
    if pairs.len() == 0 {
        Seq::empty()
    } else if key_layer(pairs[0].0) == layer {
        let rest = pairs.skip(1);
        let n = lead(rest, layer);
        proof {
            lemma_lead(rest, layer);
        }
        seq![leaf_entry(pairs[0], prev, tree_below(rest.take(n as int), layer))] + leaf_entries(
            rest.skip(n as int),
            layer,
            encode_utf8(pairs[0].0),
        )
    } else {
        leaf_entries(pairs.skip(1), layer, prev)
    }
}

/// Whether every node of the tree of pairs at a layer has no more entries than its
/// head can tell.
pub open spec fn tree_fits(pairs: Seq<Pair>, layer: nat) -> bool
    decreases layer, 2 * pairs.len() + 1,
{
    let n = lead(pairs, layer);
    proof {
        lemma_lead(pairs, layer);
    }
    &&& leaf_entries(pairs.skip(n as int), layer, Seq::empty()).len() < 65536
    &&& below_fits(pairs.take(n as int), layer)
    &&& leaves_fit(pairs.skip(n as int), layer)
}

/// Whether every node of the tree of pairs below a layer fits, if there is one.
pub open spec fn below_fits(pairs: Seq<Pair>, layer: nat) -> bool
    decreases layer, 0nat,
{
    pairs.len() > 0 && layer > 0 ==> tree_fits(pairs, (layer - 1) as nat)
}

/// Whether every node of the trees behind the keys of a layer fits.
pub open spec fn leaves_fit(pairs: Seq<Pair>, layer: nat) -> bool
    decreases layer, 2 * pairs.len(),
{
    if pairs.len() == 0 {
        true
    } else if key_layer(pairs[0].0) == layer {
        let rest = pairs.skip(1);
        let n = lead(rest, layer);
        proof {
            lemma_lead(rest, layer);
        }
        below_fits(rest.take(n as int), layer) && leaves_fit(rest.skip(n as int), layer)
    } else {
        leaves_fit(pairs.skip(1), layer)
    }
}

/// A tree of so few pairs fits.
pub proof fn law_small_tree_fits(pairs: Seq<Pair>, layer: nat)
    requires
        pairs.len() < 65536,
    ensures
        tree_fits(pairs, layer),
    decreases layer, 2 * pairs.len() + 1,
{
    let n = lead(pairs, layer) as int;
    lemma_lead(pairs, layer);
    lemma_entries_few(pairs.skip(n), layer, Seq::empty());
    lemma_small_below_fits(pairs.take(n), layer);
    lemma_small_leaves_fit(pairs.skip(n), layer);
}

proof fn lemma_small_below_fits(pairs: Seq<Pair>, layer: nat)
    requires
        pairs.len() < 65536,
    ensures
        below_fits(pairs, layer),
    decreases layer, 0nat,
{
    if pairs.len() > 0 && layer > 0 {
        law_small_tree_fits(pairs, (layer - 1) as nat);
    }
}

proof fn lemma_small_leaves_fit(pairs: Seq<Pair>, layer: nat)
    requires
        pairs.len() < 65536,
    ensures
        leaves_fit(pairs, layer),
    decreases layer, 2 * pairs.len(),
{
    if pairs.len() > 0 {
        if key_layer(pairs[0].0) == layer {
            let rest = pairs.skip(1);
            let n = lead(rest, layer) as int;
            lemma_lead(rest, layer);
            lemma_small_below_fits(rest.take(n), layer);
            lemma_small_leaves_fit(rest.skip(n), layer);
        } else {
            lemma_small_leaves_fit(pairs.skip(1), layer);
        }
    }
}

/// The keys of a layer have no more entries than there are pairs.
proof fn lemma_entries_few(pairs: Seq<Pair>, layer: nat, prev: Seq<u8>)
    ensures
        leaf_entries(pairs, layer, prev).len() <= pairs.len(),
    decreases pairs.len(),
{
    if pairs.len() > 0 {
        if key_layer(pairs[0].0) == layer {
            let rest = pairs.skip(1);
            let n = lead(rest, layer) as int;
            lemma_lead(rest, layer);
            lemma_entries_few(rest.skip(n), layer, encode_utf8(pairs[0].0));
        } else {
            lemma_entries_few(pairs.skip(1), layer, prev);
        }
    }
}

/// The nodes of the tree of pairs at a layer, as they are written.
pub open spec fn tree_nodes(pairs: Seq<Pair>, layer: nat) -> Seq<Seq<u8>>
    decreases layer, 2 * pairs.len() + 1,
{
    let n = lead(pairs, layer);
    proof {
        lemma_lead(pairs, layer);
    }
    (nodes_below(pairs.take(n as int), layer) + leaf_nodes(pairs.skip(n as int), layer)).push(
        tree_node(pairs, layer),
    )
}

/// The nodes of the tree of pairs below a layer, if there is one.
pub open spec fn nodes_below(pairs: Seq<Pair>, layer: nat) -> Seq<Seq<u8>>
    decreases layer, 0nat,
{
    if pairs.len() > 0 && layer > 0 {
        tree_nodes(pairs, (layer - 1) as nat)
    } else {
        Seq::empty()
    }
}

/// The nodes of the trees behind the keys of a layer.
pub open spec fn leaf_nodes(pairs: Seq<Pair>, layer: nat) -> Seq<Seq<u8>>
    decreases layer, 2 * pairs.len(),
{
    if pairs.len() == 0 {
        Seq::empty()
    } else if key_layer(pairs[0].0) == layer {
        let rest = pairs.skip(1);
        let n = lead(rest, layer);
        proof {
            lemma_lead(rest, layer);
        }
        nodes_below(rest.take(n as int), layer) + leaf_nodes(rest.skip(n as int), layer)
    } else {
        leaf_nodes(pairs.skip(1), layer)
    }
}

/// Blocks with nodes put in, one after the other.
pub open spec fn laid(blocks: Blocks, nodes: Seq<Seq<u8>>) -> Blocks
    decreases nodes.len(),
{
    if nodes.len() == 0 {
        blocks
    } else {
        laid(blocks, nodes.drop_last()).insert(cid_of(nodes.last()), nodes.last())
    }
}

proof fn lemma_laid_concat(blocks: Blocks, a: Seq<Seq<u8>>, b: Seq<Seq<u8>>)
    ensures
        laid(laid(blocks, a), b) == laid(blocks, a + b),
    decreases b.len(),
{
    if b.len() == 0 {
        assert(a + b =~= a);
    } else {
        lemma_laid_concat(blocks, a, b.drop_last());
        assert((a + b).drop_last() =~= a + b.drop_last());
        assert((a + b).last() == b.last());
    }
}

/// Writing a tree puts its nodes in.
proof fn lemma_tree_written(blocks: Blocks, pairs: Seq<Pair>, layer: nat)
    ensures
        tree_written(blocks, pairs, layer) == (
            laid(blocks, tree_nodes(pairs, layer)),
            cid_of(tree_node(pairs, layer)),
        ),
    decreases layer, 2 * pairs.len() + 1,
{
    let n = lead(pairs, layer) as int;
    lemma_lead(pairs, layer);
    lemma_below_written(blocks, pairs.take(n), layer);
    let first = laid(blocks, nodes_below(pairs.take(n), layer));
    lemma_leaves_written(first, pairs.skip(n), layer, Seq::empty());
    let a = nodes_below(pairs.take(n), layer);
    let b = leaf_nodes(pairs.skip(n), layer);
    lemma_laid_concat(blocks, a, b);
    let all = tree_nodes(pairs, layer);
    assert(all.drop_last() =~= a + b);
    assert(all.last() == tree_node(pairs, layer));
}

proof fn lemma_below_written(blocks: Blocks, pairs: Seq<Pair>, layer: nat)
    ensures
        maybe_tree(blocks, pairs, layer) == (
            laid(blocks, nodes_below(pairs, layer)),
            tree_below(pairs, layer),
        ),
    decreases layer, 0nat,
{
    if pairs.len() > 0 && layer > 0 {
        lemma_tree_written(blocks, pairs, (layer - 1) as nat);
    }
}

proof fn lemma_leaves_written(blocks: Blocks, pairs: Seq<Pair>, layer: nat, prev: Seq<u8>)
    ensures
        leaves_written(blocks, pairs, layer, prev) == (
            laid(blocks, leaf_nodes(pairs, layer)),
            leaf_entries(pairs, layer, prev),
        ),
    decreases layer, 2 * pairs.len(),
{
    if pairs.len() > 0 {
        if key_layer(pairs[0].0) == layer {
            let rest = pairs.skip(1);
            let n = lead(rest, layer) as int;
            lemma_lead(rest, layer);
            lemma_below_written(blocks, rest.take(n), layer);
            let a = nodes_below(rest.take(n), layer);
            let b = leaf_nodes(rest.skip(n), layer);
            lemma_leaves_written(laid(blocks, a), rest.skip(n), layer, encode_utf8(pairs[0].0));
            lemma_laid_concat(blocks, a, b);
        } else {
            lemma_leaves_written(blocks, pairs.skip(1), layer, prev);
        }
    }
}

// -- Finding what was written ---------------------------------------------------------------

/// Whether blocks hold nodes at their content identifiers, which have the length
/// of one.
pub open spec fn hold_nodes(blocks: Blocks, nodes: Seq<Seq<u8>>) -> bool {
    forall|i: int|
        0 <= i < nodes.len() ==> holds_node(blocks, #[trigger] nodes[i])
}

/// Whether blocks hold a node at its content identifier.
pub open spec fn holds_node(blocks: Blocks, node: Seq<u8>) -> bool {
    &&& blocks.dom().contains(cid_of(node))
    &&& blocks[cid_of(node)] == node
    &&& cid_of(node).len() == 36
}

/// Whether no two different nodes share a content identifier, and those have the
/// length of one.
pub open spec fn nodes_apart(nodes: Seq<Seq<u8>>) -> bool {
    &&& forall|i: int| 0 <= i < nodes.len() ==> cid_of(#[trigger] nodes[i]).len() == 36
    &&& forall|i: int, j: int|
        0 <= i < nodes.len() && 0 <= j < nodes.len() && cid_of(#[trigger] nodes[i]) == cid_of(
            #[trigger] nodes[j],
        ) ==> nodes[i] == nodes[j]
}

proof fn lemma_laid_holds(blocks: Blocks, nodes: Seq<Seq<u8>>, n: int)
    requires
        nodes_apart(nodes),
        0 <= n <= nodes.len(),
    ensures
        hold_nodes(laid(blocks, nodes.take(n)), nodes.take(n)),
    decreases n,
{
    if n > 0 {
        lemma_laid_holds(blocks, nodes, n - 1);
        let part = nodes.take(n);
        let before = nodes.take(n - 1);
        assert(part.drop_last() =~= before);
        assert(part.last() == nodes[n - 1]);
        assert forall|i: int| 0 <= i < n implies holds_node(
            laid(blocks, part),
            #[trigger] part[i],
        ) by {
            assert(part[i] == nodes[i]);
            if i < n - 1 {
                assert(before[i] == nodes[i]);
                assert(holds_node(laid(blocks, before), before[i]));
            }
        }
    }
}

/// Whether pairs can be written: their keys are not too long, and their values
/// have the length of content identifiers.
spec fn writable(pairs: Seq<Pair>) -> bool {
    forall|i: int|
        0 <= i < pairs.len() ==> encode_utf8((#[trigger] pairs[i]).0).len() <= 1024
            && pairs[i].1.len() == 36
}

/// Whether no key is above a layer.
spec fn within_layer(pairs: Seq<Pair>, layer: nat) -> bool {
    forall|i: int| 0 <= i < pairs.len() ==> key_layer((#[trigger] pairs[i]).0) <= layer
}

/// Whether all keys are below a layer.
spec fn below_layer(pairs: Seq<Pair>, layer: nat) -> bool {
    forall|i: int| 0 <= i < pairs.len() ==> key_layer((#[trigger] pairs[i]).0) < layer
}

proof fn lemma_lead_below(pairs: Seq<Pair>, layer: nat)
    ensures
        lead(pairs, layer) <= pairs.len(),
        below_layer(pairs.take(lead(pairs, layer) as int), layer),
        lead(pairs, layer) < pairs.len() ==> key_layer(pairs[lead(pairs, layer) as int].0) >= layer,
    decreases pairs.len(),
{
    if pairs.len() > 0 && key_layer(pairs[0].0) < layer {
        let rest = pairs.drop_first();
        lemma_lead_below(rest, layer);
        let n = lead(pairs, layer) as int;
        assert forall|i: int| 0 <= i < n implies key_layer((#[trigger] pairs.take(n)[i]).0)
            < layer by {
            if i > 0 {
                assert(pairs.take(n)[i] == rest.take(n - 1)[i - 1]);
            }
        }
    }
}

proof fn lemma_parts(pairs: Seq<Pair>, layer: nat, n: int)
    requires
        0 <= n <= pairs.len(),
        writable(pairs),
        within_layer(pairs, layer),
    ensures
        writable(pairs.take(n)),
        writable(pairs.skip(n)),
        within_layer(pairs.take(n), layer),
        within_layer(pairs.skip(n), layer),
        pairs.take(n) + pairs.skip(n) == pairs,
{
    assert(pairs.take(n) + pairs.skip(n) =~= pairs);
    assert forall|i: int| 0 <= i < pairs.take(n).len() implies pairs.take(n)[i] == pairs[i] by {}
    assert forall|i: int| 0 <= i < pairs.skip(n).len() implies pairs.skip(n)[i] == pairs[n + i] by {}
}

/// The entries of the keys of a layer can be read, and are no more than the keys.
proof fn lemma_entries_readable(blocks: Blocks, pairs: Seq<Pair>, layer: nat, prev: Seq<u8>)
    requires
        writable(pairs),
        hold_nodes(blocks, leaf_nodes(pairs, layer)),
    ensures
        leaf_entries(pairs, layer, prev).len() <= pairs.len(),
        forall|i: int|
            0 <= i < leaf_entries(pairs, layer, prev).len() ==> entry_readable(
                #[trigger] leaf_entries(pairs, layer, prev)[i],
            ),
    decreases pairs.len(),
{
    if pairs.len() > 0 {
        if key_layer(pairs[0].0) == layer {
            let rest = pairs.skip(1);
            let n = lead(rest, layer) as int;
            lemma_lead(rest, layer);
            let a = nodes_below(rest.take(n), layer);
            let b = leaf_nodes(rest.skip(n), layer);
            let all = leaf_nodes(pairs, layer);
            assert(all == a + b);
            assert(hold_nodes(blocks, b)) by {
                assert forall|i: int| 0 <= i < b.len() implies holds_node(blocks, #[trigger] b[i]) by {
                    assert(all[a.len() + i] == b[i]);
                }
            }
            assert(writable(rest.skip(n))) by {
                assert forall|i: int| 0 <= i < rest.skip(n).len() implies rest.skip(n)[i]
                    == pairs[1 + n + i] by {}
            }
            let key = encode_utf8(pairs[0].0);
            lemma_entries_readable(blocks, rest.skip(n), layer, key);
            let tree = tree_below(rest.take(n), layer);
            if tree is Some {
                let node = tree_node(rest.take(n), (layer - 1) as nat);
                assert(a.last() == node);
                assert(all[a.len() - 1] == node);
                assert(holds_node(blocks, all[a.len() - 1]));
            }
            let first = leaf_entry(pairs[0], prev, tree);
            crate::git::delta::lemma_common_len(prev, key);
            assert(pairs[0].1.len() == 36 && key.len() <= 1024);
            assert(entry_readable(first));
            let more = leaf_entries(rest.skip(n), layer, key);
            let entries = leaf_entries(pairs, layer, prev);
            assert(entries == seq![first] + more);
            assert forall|i: int| 0 <= i < entries.len() implies entry_readable(
                #[trigger] entries[i],
            ) by {
                if i > 0 {
                    assert(entries[i] == more[i - 1]);
                }
            }
        } else {
            assert(writable(pairs.skip(1))) by {
                assert forall|i: int| 0 <= i < pairs.skip(1).len() implies pairs.skip(1)[i]
                    == pairs[1 + i] by {}
            }
            lemma_entries_readable(blocks, pairs.skip(1), layer, prev);
        }
    }
}

/// A tree whose nodes are held is walked as its pairs.
proof fn lemma_tree_walked(blocks: Blocks, pairs: Seq<Pair>, layer: nat)
    requires
        writable(pairs),
        within_layer(pairs, layer),
        tree_fits(pairs, layer),
        hold_nodes(blocks, tree_nodes(pairs, layer)),
    ensures
        walked(blocks, cid_of(tree_node(pairs, layer)), layer + 1) == Some(pairs),
        cid_of(tree_node(pairs, layer)).len() == 36,
    decreases layer, 2 * pairs.len() + 1,
{
    let n = lead(pairs, layer) as int;
    lemma_lead_below(pairs, layer);
    lemma_parts(pairs, layer, n);
    let front = pairs.take(n);
    let back = pairs.skip(n);
    let a = nodes_below(front, layer);
    let b = leaf_nodes(back, layer);
    let all = tree_nodes(pairs, layer);
    let node = tree_node(pairs, layer);
    assert forall|i: int| 0 <= i < a.len() implies holds_node(blocks, #[trigger] a[i]) by {
        assert(all[i] == a[i]);
    }
    assert forall|i: int| 0 <= i < b.len() implies holds_node(blocks, #[trigger] b[i]) by {
        assert(all[a.len() + i] == b[i]);
    }
    assert(all[(a.len() + b.len()) as int] == node);
    assert(holds_node(blocks, all[(a.len() + b.len()) as int]));
    lemma_below_walked(blocks, front, layer);
    if back.len() > 0 {
        assert(back[0] == pairs[n]);
        assert(within_layer(back, layer));
        assert(key_layer(back[0].0) <= layer);
    }
    lemma_leaves_walked(blocks, back, layer, Seq::empty());
    lemma_entries_readable(blocks, back, layer, Seq::empty());
    let left = tree_below(front, layer);
    let entries = leaf_entries(back, layer, Seq::empty());
    law_node_roundtrip(left, entries);
    assert(node_parts(node) == Ok::<NodeParts, MstError>((left, entries)));
}

/// A tree that may be there is walked as its pairs.
proof fn lemma_below_walked(blocks: Blocks, pairs: Seq<Pair>, layer: nat)
    requires
        writable(pairs),
        below_layer(pairs, layer),
        below_fits(pairs, layer),
        hold_nodes(blocks, nodes_below(pairs, layer)),
    ensures
        walked_below(blocks, tree_below(pairs, layer), layer) == Some(pairs),
        tree_below(pairs, layer) matches Some(c) ==> c.len() == 36,
    decreases layer, 0nat,
{
    if pairs.len() > 0 {
        assert(key_layer(pairs[0].0) < layer);
        assert(within_layer(pairs, (layer - 1) as nat)) by {
            assert forall|i: int| 0 <= i < pairs.len() implies key_layer((#[trigger] pairs[i]).0)
                <= layer - 1 by {}
        }
        lemma_tree_walked(blocks, pairs, (layer - 1) as nat);
    } else {
        assert(pairs =~= Seq::<Pair>::empty());
    }
}

/// The entries of a layer and the trees behind them are walked as their pairs.
proof fn lemma_leaves_walked(blocks: Blocks, pairs: Seq<Pair>, layer: nat, prev: Seq<u8>)
    requires
        writable(pairs),
        within_layer(pairs, layer),
        pairs.len() > 0 ==> key_layer(pairs[0].0) == layer,
        leaves_fit(pairs, layer),
        hold_nodes(blocks, leaf_nodes(pairs, layer)),
    ensures
        walked_entries(blocks, leaf_entries(pairs, layer, prev), prev, layer) == Some(pairs),
    decreases layer, 2 * pairs.len(),
{
    if pairs.len() == 0 {
        assert(pairs =~= Seq::<Pair>::empty());
    } else {
        let rest = pairs.skip(1);
        lemma_parts(pairs, layer, 1);
        let n = lead(rest, layer) as int;
        lemma_lead_below(rest, layer);
        lemma_parts(rest, layer, n);
        let front = rest.take(n);
        let back = rest.skip(n);
        let a = nodes_below(front, layer);
        let b = leaf_nodes(back, layer);
        let all = leaf_nodes(pairs, layer);
        assert(all == a + b);
        assert forall|i: int| 0 <= i < a.len() implies holds_node(blocks, #[trigger] a[i]) by {
            assert(all[i] == a[i]);
        }
        assert forall|i: int| 0 <= i < b.len() implies holds_node(blocks, #[trigger] b[i]) by {
            assert(all[a.len() + i] == b[i]);
        }
        if back.len() > 0 {
            assert(back[0] == rest[n]);
            assert(key_layer(back[0].0) <= layer);
        }
        let key = encode_utf8(pairs[0].0);
        lemma_below_walked(blocks, front, layer);
        lemma_leaves_walked(blocks, back, layer, key);
        let tree = tree_below(front, layer);
        let first = leaf_entry(pairs[0], prev, tree);
        let more = leaf_entries(back, layer, key);
        let entries = leaf_entries(pairs, layer, prev);
        assert(entries == seq![first] + more);
        assert(entries[0] == first);
        assert(entries.drop_first() =~= more);
        let shared = crate::git::delta::common_len(prev, key) as int;
        crate::git::delta::lemma_common_len(prev, key);
        assert(prev.take(shared) + key.skip(shared) =~= key);
        encode_utf8_valid_utf8(pairs[0].0);
        encode_utf8_decode_utf8(pairs[0].0);
        assert(seq![pairs[0]] + front + back =~= pairs);
        assert((decode_utf8(key), first.value) == pairs[0]);
    }
}

proof fn lemma_top_layer(pairs: Seq<Pair>)
    ensures
        within_layer(pairs, top_layer(pairs)),
    decreases pairs.len(),
{
    if pairs.len() > 0 {
        let front = pairs.drop_last();
        lemma_top_layer(front);
        assert forall|i: int| 0 <= i < pairs.len() implies key_layer((#[trigger] pairs[i]).0)
            <= top_layer(pairs) by {
            if i < front.len() {
                assert(front[i] == pairs[i]);
            }
        }
    }
}

/// The nodes of a whole tree.
pub open spec fn mst_nodes(pairs: Seq<Pair>) -> Seq<Seq<u8>> {
    if pairs.len() == 0 {
        seq![node_bytes(None, Seq::empty())]
    } else {
        tree_nodes(pairs, top_layer(pairs))
    }
}

/// Walking the blocks of a tree from its root gives its keys and values back, in
/// order, unless a node has more entries than its head can tell or two different
/// nodes share a content identifier.
pub proof fn law_tree_walked(blocks: Blocks, pairs: Seq<Pair>)
    requires
        in_order(pairs),
        tree_fits(pairs, top_layer(pairs)),
        nodes_apart(mst_nodes(pairs)),
    ensures
        ({
            let (after, root) = mst_written(blocks, pairs);
            walked(after, root, top_layer(pairs) + 1) == Some(pairs)
        }),
{
    let (after, root) = mst_written(blocks, pairs);
    if pairs.len() == 0 {
        let none = Seq::<NodeEntry>::empty();
        law_node_roundtrip(None, none);
        assert(walked_entries(after, none, Seq::empty(), 0) == Some(Seq::<Pair>::empty()));
        assert(Seq::<Pair>::empty() + Seq::<Pair>::empty() =~= pairs);
        assert(top_layer(pairs) == 0);
    } else {
        let layer = top_layer(pairs);
        let nodes = tree_nodes(pairs, layer);
        lemma_tree_written(blocks, pairs, layer);
        lemma_laid_holds(blocks, nodes, nodes.len() as int);
        assert(nodes.take(nodes.len() as int) =~= nodes);
        lemma_top_layer(pairs);
        assert(writable(pairs)) by {
            assert forall|i: int| 0 <= i < pairs.len() implies encode_utf8(
                (#[trigger] pairs[i]).0,
            ).len() <= 1024 && pairs[i].1.len() == 36 by {}
        }
        lemma_tree_walked(after, pairs, layer);
    }
}

} // verus!
