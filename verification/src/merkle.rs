//! Binary Merkle trees over SHA-256: root, inclusion proof, verification.
//!
//! Leaves and inner nodes are hashed under different prefixes. A node without
//! a sibling is paired with itself.

use vstd::prelude::*;

use crate::bytes::{append_bytes, same_bytes};
use crate::digest::{sha256, sha256_of};

verus! {

/// The hash of a leaf.
pub open spec fn leaf_hash(data: Seq<u8>) -> Seq<u8> {
    sha256_of(seq![0u8] + data)
}

/// The hash of an inner node.
pub open spec fn node_hash(left: Seq<u8>, right: Seq<u8>) -> Seq<u8> {
    sha256_of(seq![1u8] + left + right)
}

/// The hashes of a row of the tree.
pub open spec fn row_view(row: Seq<[u8; 32]>) -> Seq<Seq<u8>> {
    Seq::new(row.len(), |i: int| row[i]@)
}

/// The bottom row of the tree.
pub open spec fn leaf_row(leaves: Seq<&[u8]>) -> Seq<Seq<u8>> {
    Seq::new(leaves.len(), |i: int| leaf_hash(leaves[i]@))
}

/// The sibling of node `i`: its neighbour in the pair, or itself.
pub open spec fn sibling(row: Seq<Seq<u8>>, i: int) -> Seq<u8> {
    if i % 2 == 1 {
        row[i - 1]
    } else if i + 1 < row.len() {
        row[i + 1]
    } else {
        row[i]
    }
}

/// The row above.
pub open spec fn row_above(row: Seq<Seq<u8>>) -> Seq<Seq<u8>> {
    Seq::new(
        ((row.len() + 1) / 2) as nat,
        |i: int| node_hash(row[2 * i], sibling(row, 2 * i)),
    )
}

/// The root above a row.
pub open spec fn root_above(row: Seq<Seq<u8>>) -> Seq<u8>
    decreases row.len(),
{
    if row.len() <= 1 {
        row[0]
    } else {
        root_above(row_above(row))
    }
}

/// The path from node `i` to the root: at each level the sibling's hash, and
/// whether the sibling is on the left.
pub open spec fn path_above(row: Seq<Seq<u8>>, i: int) -> Seq<(Seq<u8>, bool)>
    decreases row.len(),
{
    if row.len() <= 1 {
        Seq::empty()
    } else {
        seq![(sibling(row, i), i % 2 == 1)] + path_above(row_above(row), i / 2)
    }
}

/// The hash reached by walking a path.
pub open spec fn walk(start: Seq<u8>, path: Seq<(Seq<u8>, bool)>) -> Seq<u8>
    decreases path.len(),
{
    if path.len() == 0 {
        start
    } else {
        let (other, is_left) = path[0];
        walk(
            if is_left {
                node_hash(other, start)
            } else {
                node_hash(start, other)
            },
            path.drop_first(),
        )
    }
}

/// The hashes of an inclusion proof.
pub open spec fn path_view(path: Seq<([u8; 32], bool)>) -> Seq<(Seq<u8>, bool)> {
    Seq::new(path.len(), |i: int| (path[i].0@, path[i].1))
}

/// Walking the path of a node from its own hash leads to the root.
pub proof fn lemma_path_leads_to_root(row: Seq<Seq<u8>>, i: int)
    requires
        0 <= i < row.len(),
    ensures
        walk(row[i], path_above(row, i)) == root_above(row),
    decreases row.len(),
{
    if row.len() > 1 {
        let up = row_above(row);
        lemma_path_leads_to_root(up, i / 2);
        let path = path_above(row, i);
        assert(path.drop_first() =~= path_above(up, i / 2));
        assert(path[0] == (sibling(row, i), i % 2 == 1));
        assert(up[i / 2] == node_hash(row[2 * (i / 2)], sibling(row, 2 * (i / 2))));
    }
}

/// A proof made for a leaf verifies against the root of the same leaves.
pub proof fn law_proof_verifies(leaves: Seq<&[u8]>, i: int)
    requires
        0 <= i < leaves.len(),
    ensures
        walk(leaf_hash(leaves[i]@), path_above(leaf_row(leaves), i)) == root_above(leaf_row(leaves)),
{
    lemma_path_leads_to_root(leaf_row(leaves), i);
}

/// Hashes a leaf under the leaf prefix.
pub fn hash_leaf(data: &[u8]) -> (out: [u8; 32])
    ensures
        out@ == leaf_hash(data@),
{
    let mut input: Vec<u8> = Vec::new();
    input.push(0);
    append_bytes(&mut input, data);
    assert(input@ =~= seq![0u8] + data@);
    sha256(input.as_slice())
}

/// Hashes two child nodes under the node prefix.
pub fn hash_node(left: &[u8; 32], right: &[u8; 32]) -> (out: [u8; 32])
    ensures
        out@ == node_hash(left@, right@),
{
    let mut input: Vec<u8> = Vec::new();
    input.push(1);
    append_bytes(&mut input, left.as_slice());
    append_bytes(&mut input, right.as_slice());
    assert(input@ =~= seq![1u8] + left@ + right@);
    sha256(input.as_slice())
}

fn hash_leaves(leaves: &[&[u8]]) -> (row: Vec<[u8; 32]>)
    ensures
        row_view(row@) == leaf_row(leaves@),
        row@.len() == leaves@.len(),
{
    let mut row: Vec<[u8; 32]> = Vec::new();
    let mut i: usize = 0;
    while i < leaves.len()
        invariant
            i <= leaves@.len(),
            row@.len() == i,
            forall|k: int| 0 <= k < i ==> (#[trigger] row@[k])@ == leaf_hash(leaves@[k]@),
        decreases leaves@.len() - i,
    {
        row.push(hash_leaf(leaves[i]));
        i += 1;
    }
    assert(row_view(row@) =~= leaf_row(leaves@));
    row
}

fn pair_up(row: &Vec<[u8; 32]>) -> (up: Vec<[u8; 32]>)
    requires
        row@.len() > 1,
    ensures
        row_view(up@) == row_above(row_view(row@)),
        0 < up@.len() < row@.len(),
{
    let ghost view = row_view(row@);
    let mut up: Vec<[u8; 32]> = Vec::new();
    let half: usize = row.len() / 2 + row.len() % 2;
    let mut k: usize = 0;
    while k < half
        invariant
            1 < row@.len() <= usize::MAX,
            view == row_view(row@),
            half == (row@.len() + 1) / 2,
            k <= half,
            up@.len() == k,
            forall|j: int|
                0 <= j < k ==> (#[trigger] up@[j])@ == node_hash(view[2 * j], sibling(view, 2 * j)),
        decreases half - k,
    {
        let i: usize = 2 * k;
        if i + 1 < row.len() {
            up.push(hash_node(&row[i], &row[i + 1]));
        } else {
            up.push(hash_node(&row[i], &row[i]));
        }
        k += 1;
    }
    assert(row_view(up@) =~= row_above(view));
    up
}

/// The Merkle root of a list of leaves; none where there are no leaves.
pub fn merkle_root(leaves: &[&[u8]]) -> (out: Option<[u8; 32]>)
    ensures
        match out {
            Some(root) => leaves@.len() > 0 && root@ == root_above(leaf_row(leaves@)),
            None => leaves@.len() == 0,
        },
{
    if leaves.is_empty() {
        return None;
    }
    let mut row = hash_leaves(leaves);
    while row.len() > 1
        invariant
            row@.len() > 0,
            root_above(row_view(row@)) == root_above(leaf_row(leaves@)),
        decreases row@.len(),
    {
        row = pair_up(&row);
    }
    Some(row[0])
}

/// The inclusion proof for the leaf at `index`, from the leaf level to the
/// root; none where there is no such leaf.
pub fn merkle_proof(leaves: &[&[u8]], index: usize) -> (out: Option<Vec<([u8; 32], bool)>>)
    ensures
        match out {
            Some(path) => index < leaves@.len() && path_view(path@) == path_above(
                leaf_row(leaves@),
                index as int,
            ),
            None => index >= leaves@.len(),
        },
{
    if leaves.is_empty() || index >= leaves.len() {
        return None;
    }
    let mut row = hash_leaves(leaves);
    let mut path: Vec<([u8; 32], bool)> = Vec::new();
    let mut i: usize = index;
    let ghost whole = path_above(leaf_row(leaves@), index as int);
    assert(path_view(path@) + whole =~= whole);
    while row.len() > 1
        invariant
            i < row@.len(),
            path_view(path@) + path_above(row_view(row@), i as int) == whole,
        decreases row@.len(),
    {
        let other: [u8; 32] = if i % 2 == 1 {
            row[i - 1]
        } else if i + 1 < row.len() {
            row[i + 1]
        } else {
            row[i]
        };
        let is_left = i % 2 == 1;
        let ghost had = path_view(path@);
        let ghost view = row_view(row@);
        path.push((other, is_left));
        row = pair_up(&row);
        proof {
            let step = seq![(sibling(view, i as int), i as int % 2 == 1)];
            let rest = path_above(row_above(view), i as int / 2);
            assert(path_view(path@) =~= had + step);
            assert(had + (step + rest) =~= (had + step) + rest);
        }
        i = i / 2;
    }
    assert(path_view(path@) + Seq::<(Seq<u8>, bool)>::empty() =~= path_view(path@));
    Some(path)
}

/// Whether walking `proof` from a leaf leads to `root`.
pub fn merkle_verify(root: &[u8; 32], leaf_data: &[u8], proof: &[([u8; 32], bool)]) -> (ok: bool)
    ensures
        ok == (walk(leaf_hash(leaf_data@), path_view(proof@)) == root@),
{
    let mut current = hash_leaf(leaf_data);
    let mut i: usize = 0;
    let ghost path = path_view(proof@);
    assert(path.skip(0) =~= path);
    while i < proof.len()
        invariant
            i <= proof@.len(),
            path == path_view(proof@),
            walk(current@, path.skip(i as int)) == walk(leaf_hash(leaf_data@), path),
        decreases proof@.len() - i,
    {
        proof {
            assert(path.skip(i as int)[0] == path[i as int]);
            assert(path.skip(i as int).drop_first() =~= path.skip(i + 1));
        }
        if proof[i].1 {
            current = hash_node(&proof[i].0, &current);
        } else {
            current = hash_node(&current, &proof[i].0);
        }
        i += 1;
    }
    same_bytes(current.as_slice(), root.as_slice())
}

/// A leaf is hashed behind a zero byte, and two nodes behind a one byte, the left
/// one first; the last node of an odd row is paired with itself.
pub proof fn law_row_above(row: Seq<Seq<u8>>, i: int)
    requires
        0 <= i,
        2 * i < row.len(),
    ensures
        row_above(row).len() == (row.len() + 1) / 2,
        2 * i + 1 < row.len() ==> row_above(row)[i] == sha256_of(
            seq![1u8] + row[2 * i] + row[2 * i + 1],
        ),
        2 * i + 1 == row.len() ==> row_above(row)[i] == sha256_of(
            seq![1u8] + row[2 * i] + row[2 * i],
        ),
        row.len() > 1 ==> root_above(row) == root_above(row_above(row)),
{
}

} // verus!
