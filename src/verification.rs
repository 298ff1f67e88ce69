//! Recomputing a root from a bag of node hashes, and checking proofs
//! against a log's root.
use vstd::prelude::*;

use crate::digest::{hash_two_strings, node_hash};
use crate::geometry::{level_sizes, sizes_view, tree_height, tree_sizes};
use crate::position::{LogSize, LogTree, LogTreePosition, Record};
use crate::proof_map::ProofMap;

verus! {

/// Hash of the node `(level, index)` recomputed from the given node hashes
/// in a tree with the given level sizes: a hash in `nodes` for a complete
/// node is taken as it is; otherwise the node is the hash of its two
/// children, or its left child alone where the right one comes out empty;
/// a leaf with no hash is empty.
pub open spec fn root_at(
    nodes: Map<(nat, nat), Seq<char>>,
    sizes: Seq<nat>,
    level: nat,
    index: nat,
) -> Seq<char>
    decreases level,
{
    if level < sizes.len() && index < sizes[level as int] && nodes.contains_key((level, index)) {
        nodes[(level, index)]
    } else if level == 0 {
        Seq::empty()
    } else {
        let h1 = root_at(nodes, sizes, (level - 1) as nat, 2 * index);
        let h2 = root_at(nodes, sizes, (level - 1) as nat, 2 * index + 1);
        if h2.len() == 0 {
            h1
        } else {
            node_hash(h1, h2)
        }
    }
}

/// Root of a tree of size `n` recomputed from the given node hashes; empty
/// for the empty tree.
pub open spec fn compute_root(nodes: Map<(nat, nat), Seq<char>>, n: nat) -> Seq<char> {
    if n == 0 {
        Seq::empty()
    } else {
        root_at(nodes, level_sizes(n), (tree_height(n) - 1) as nat, 0)
    }
}

/// Whether the proofs, with the record's hash at its leaf, give the root of
/// a nonempty tree.
pub open spec fn inclusion_verified(
    tree_size: nat,
    tree_hash: Seq<char>,
    id: nat,
    hash: Seq<char>,
    proofs: Map<(nat, nat), Seq<char>>,
) -> bool {
    tree_size > 0 && tree_hash == compute_root(proofs.insert((0, id), hash), tree_size)
}

/// Whether the proofs give the tree's root.
pub open spec fn tree_verified(
    tree_size: nat,
    tree_hash: Seq<char>,
    proofs: Map<(nat, nat), Seq<char>>,
) -> bool {
    tree_size > 0 && tree_hash == compute_root(proofs, tree_size)
}

proof fn lemma_root_beyond(nodes: Map<(nat, nat), Seq<char>>, sizes: Seq<nat>, level: nat, index: nat)
    requires
        index > u64::MAX,
        forall|k: int| 0 <= k < sizes.len() ==> sizes[k] <= u64::MAX,
    ensures
        root_at(nodes, sizes, level, index).len() == 0,
    decreases level,
{
    if level > 0 {
        lemma_root_beyond(nodes, sizes, (level - 1) as nat, 2 * index);
        lemma_root_beyond(nodes, sizes, (level - 1) as nat, 2 * index + 1);
    }
}

/// Hash of the node at `position`, recomputed from the proofs.
fn calc_hash(position: LogTreePosition, proofs: &ProofMap, sizes: &Vec<LogSize>) -> (r: String)
    requires
        proofs.wf(),
        position.level < sizes.len(),
    ensures
        r@ == root_at(proofs@, sizes_view(sizes@), position.level as nat, position.index as nat),
    decreases position.level,
{
    let ghost sv = sizes_view(sizes@);
    assert(sv[position.level as int] == sizes@[position.level as int]);
    if position.index < sizes[position.level] {
        if let Some(h) = proofs.get(&position) {
            return h.clone();
        }
    }
    if position.level > 0 {
        if position.index > u64::MAX / 2 {
            proof {
                assert(forall|k: int| 0 <= k < sv.len() ==> sv[k] <= u64::MAX);
                lemma_root_beyond(
                    proofs@,
                    sv,
                    (position.level - 1) as nat,
                    2 * position.index as nat,
                );
                lemma_root_beyond(
                    proofs@,
                    sv,
                    (position.level - 1) as nat,
                    2 * position.index as nat + 1,
                );
            }
            return String::new();
        }
        let new_index = position.index * 2;
        let h1 = calc_hash(
            LogTreePosition { level: position.level - 1, index: new_index },
            proofs,
            sizes,
        );
        let h2 = calc_hash(
            LogTreePosition { level: position.level - 1, index: new_index + 1 },
            proofs,
            sizes,
        );
        if h2.as_str().is_empty() {
            return h1;
        }
        return hash_two_strings(h1.as_str(), h2.as_str());
    }
    String::new()
}

/// Whether the proofs, with the record's hash at its leaf, give the tree's
/// root (a record past the tree's last leaf plays no part in the root;
/// `check_record` refuses such ids).
pub fn verify(tree: &LogTree, record: &Record, proofs: &ProofMap) -> (r: bool)
    requires
        proofs.wf(),
    ensures
        r == inclusion_verified(
            tree.size as nat,
            tree.hash@,
            record.id as nat,
            record.hash@,
            proofs@,
        ),
{
    let sizes = tree_sizes(tree.size);
    if sizes.len() == 0 {
        return false;
    }
    let mut proofs2 = proofs.copy();
    proofs2.insert(LogTreePosition { level: 0, index: record.id }, record.hash.clone());
    let root = calc_hash(LogTreePosition { level: sizes.len() - 1, index: 0 }, &proofs2, &sizes);
    tree.hash == root
}

/// Whether the proofs give the tree's root.
pub fn verify_tree(tree: &LogTree, proofs: &ProofMap) -> (r: bool)
    requires
        proofs.wf(),
    ensures
        r == tree_verified(tree.size as nat, tree.hash@, proofs@),
{
    let sizes = tree_sizes(tree.size);
    if sizes.len() == 0 {
        return false;
    }
    let root = calc_hash(LogTreePosition { level: sizes.len() - 1, index: 0 }, proofs, &sizes);
    tree.hash == root
}

} // verus!
