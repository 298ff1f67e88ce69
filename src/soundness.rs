//! Why proofs verify: hashes taken from a log recompute its root wherever
//! the positions they sit at reach every leaf of the tree.
use vstd::prelude::*;

use crate::geometry::{
    bit_length, consistency_positions, first_odd_level, halve, inclusion_positions,
    lemma_below_pow2, lemma_bit_length_monotone, lemma_halve_div, lemma_next_multiple,
    lemma_sibling_included, level_sizes, option_set, sibling_proof, tree_height,
};
use vstd::arithmetic::power2::{lemma_pow2_pos, lemma_pow2_unfold, pow2};
use crate::levels::{
    leaf_nodes, lemma_halve_monotone, lemma_halve_positive, leaves_match, levels_wf, log_wf,
    stored_nodes,
};
use crate::client::advance_verified;
use crate::log::lemma_leaves_root;
use crate::records::{leaf_hash, LogEntry};
use crate::root::{lemma_complete_node, log_root};
use crate::verification::{compute_root, inclusion_verified, root_at, tree_verified};

verus! {

/// Whether hashes at the positions `keys` determine the node `(k, j)` of a
/// tree with the given level sizes: a complete node at one of the positions,
/// a leaf past the last one, or two children that are determined.
pub open spec fn covers(keys: Set<(nat, nat)>, sizes: Seq<nat>, k: nat, j: nat) -> bool
    decreases k,
{
    if k < sizes.len() && j < sizes[k as int] && keys.contains((k, j)) {
        true
    } else if k == 0 {
        sizes.len() == 0 || j >= sizes[0]
    } else {
        covers(keys, sizes, (k - 1) as nat, 2 * j) && covers(keys, sizes, (k - 1) as nat, 2 * j + 1)
    }
}

/// Whether the positions determine the root of a tree of `n` leaves.
pub open spec fn covers_tree(keys: Set<(nat, nat)>, n: nat) -> bool {
    n > 0 && covers(keys, level_sizes(n), (tree_height(n) - 1) as nat, 0)
}

/// Every hash in `nodes` at a position that is complete in the stored
/// levels is the stored one.
pub open spec fn agrees_with(nodes: Map<(nat, nat), Seq<char>>, levels: Seq<Seq<Seq<char>>>) -> bool {
    forall|p: (nat, nat)|
        #[trigger] nodes.contains_key(p) && p.0 < levels.len() && p.1 < levels[p.0 as int].len()
            ==> nodes[p] == levels[p.0 as int][p.1 as int]
}

/// Hashes that agree with the log and determine a node recompute it as the
/// leaves alone do.
pub proof fn lemma_covered_node(
    nodes: Map<(nat, nat), Seq<char>>,
    levels: Seq<Seq<Seq<char>>>,
    n: nat,
    k: nat,
    j: nat,
)
    requires
        levels_wf(levels, n),
        n > 0,
        agrees_with(nodes, levels),
        k < tree_height(n),
        covers(nodes.dom(), level_sizes(n), k, j),
    ensures
        root_at(nodes, level_sizes(n), k, j) == root_at(leaf_nodes(levels[0]), level_sizes(n), k, j),
    decreases k,
{
    let sizes = level_sizes(n);
    let m0 = leaf_nodes(levels[0]);
    lemma_halve_positive(n, 0);
    assert(sizes[k as int] == halve(n, k));
    if k < sizes.len() && j < sizes[k as int] && nodes.contains_key((k, j)) {
        lemma_halve_positive(n, k);
        assert(levels[k as int].len() == halve(n, k));
        lemma_complete_node(levels, n, k, j);
    } else if k == 0 {
        assert(sizes[0] == halve(n, 0));
    } else {
        lemma_covered_node(nodes, levels, n, (k - 1) as nat, 2 * j);
        lemma_covered_node(nodes, levels, n, (k - 1) as nat, 2 * j + 1);
    }
}

/// Hashes that agree with the log and determine its root recompute the
/// root of its records.
pub proof fn lemma_covered_root<T: LogEntry>(
    nodes: Map<(nat, nat), Seq<char>>,
    records: Seq<T>,
    levels: Seq<Seq<Seq<char>>>,
)
    requires
        log_wf(records, levels),
        agrees_with(nodes, levels),
        covers_tree(nodes.dom(), records.len()),
    ensures
        compute_root(nodes, records.len()) == log_root(records),
{
    let n = records.len();
    lemma_covered_node(nodes, levels, n, (tree_height(n) - 1) as nat, 0);
    lemma_leaves_root(records, levels);
}

/// Inclusion soundness: in a log of `n` records, the hashes that the log
/// returns for the inclusion positions of record `i`, with the leaf hash of
/// that record, give the log's latest root, wherever those positions reach
/// every leaf of the tree.
pub proof fn lemma_inclusion_sound<T: LogEntry>(
    records: Seq<T>,
    levels: Seq<Seq<Seq<char>>>,
    i: nat,
)
    requires
        log_wf(records, levels),
        i < records.len(),
        covers_tree(inclusion_positions(i, records.len()).insert((0, i)), records.len()),
    ensures
        inclusion_verified(
            records.len(),
            log_root(records),
            i,
            leaf_hash(records[i as int].encoding()),
            stored_nodes(levels).restrict(inclusion_positions(i, records.len())),
        ),
{
    let n = records.len();
    let p = inclusion_positions(i, n);
    let nodes = stored_nodes(levels).restrict(p).insert((0, i), leaf_hash(records[i as int].encoding()));
    lemma_halve_positive(n, 0);
    assert(levels[0].len() == halve(n, 0));
    assert(leaves_match(records, levels[0]));
    assert(levels[0][i as int] == leaf_hash(records[i as int].encoding()));
    assert(agrees_with(nodes, levels));
    assert(nodes.dom() =~= stored_nodes(levels).restrict(p).dom().insert((0, i)));
    lemma_dom_covers(p, stored_nodes(levels), levels, n, i);
    lemma_covered_root(nodes, records, levels);
}

proof fn lemma_dom_covers(
    p: Set<(nat, nat)>,
    stored: Map<(nat, nat), Seq<char>>,
    levels: Seq<Seq<Seq<char>>>,
    n: nat,
    i: nat,
)
    requires
        stored == stored_nodes(levels),
        levels_wf(levels, n),
        covers_tree(p.insert((0, i)), n),
    ensures
        covers_tree(stored.restrict(p).dom().insert((0, i)), n),
{
    lemma_covers_within(p.insert((0, i)), stored.restrict(p).dom().insert((0, i)), levels, n,
        (tree_height(n) - 1) as nat, 0);
}

/// Coverage only depends on the complete positions among the keys.
proof fn lemma_covers_within(
    a: Set<(nat, nat)>,
    b: Set<(nat, nat)>,
    levels: Seq<Seq<Seq<char>>>,
    n: nat,
    k: nat,
    j: nat,
)
    requires
        levels_wf(levels, n),
        covers(a, level_sizes(n), k, j),
        forall|q: (nat, nat)|
            #[trigger] a.contains(q) && q.0 < levels.len() && q.1 < levels[q.0 as int].len()
                ==> b.contains(q),
    ensures
        covers(b, level_sizes(n), k, j),
    decreases k,
{
    let sizes = level_sizes(n);
    if k < sizes.len() && j < sizes[k as int] && a.contains((k, j)) {
        assert(sizes[k as int] == halve(n, k));
        lemma_halve_positive(n, k);
        assert(levels[k as int].len() == halve(n, k));
        assert(b.contains((k, j)));
    } else if k > 0 {
        lemma_covers_within(a, b, levels, n, (k - 1) as nat, 2 * j);
        lemma_covers_within(a, b, levels, n, (k - 1) as nat, 2 * j + 1);
    }
}

/// The stored levels of the tree over the first `m` leaves of a larger tree.
pub open spec fn levels_prefix(levels: Seq<Seq<Seq<char>>>, m: nat) -> Seq<Seq<Seq<char>>> {
    Seq::new(bit_length(m), |k: int| levels[k].take(halve(m, k as nat) as int))
}

/// The first `m` records of a log have, as their tree, the beginning of
/// each level of the log's tree.
pub proof fn lemma_prefix_tree<T: LogEntry>(records: Seq<T>, levels: Seq<Seq<Seq<char>>>, m: nat)
    requires
        log_wf(records, levels),
        m <= records.len(),
    ensures
        log_wf(records.take(m as int), levels_prefix(levels, m)),
{
    let n = records.len();
    let lp = levels_prefix(levels, m);
    if bit_length(m) > 0 {
        lemma_halve_positive(m, (bit_length(m) - 1) as nat);
        lemma_halve_monotone(m, n, (bit_length(m) - 1) as nat);
        lemma_halve_positive(n, (bit_length(m) - 1) as nat);
    }
    assert forall|l: int| 0 <= l < lp.len() implies #[trigger] lp[l].len() == halve(m, l as nat) by {
        lemma_halve_monotone(m, n, l as nat);
    }
    assert forall|l: int, j: int|
        0 <= l && l + 1 < lp.len() && 0 <= j < lp[l + 1].len() implies #[trigger] lp[l + 1][j]
        == crate::digest::node_hash(lp[l][2 * j], lp[l][2 * j + 1]) by {
        lemma_halve_monotone(m, n, l as nat);
        lemma_halve_monotone(m, n, (l + 1) as nat);
        assert(halve(m, (l + 1) as nat) == halve(m, l as nat) / 2);
    }
    assert forall|l: int, j: int| 0 <= l < lp.len() && 0 <= j < lp[l].len() implies #[trigger] lp[l][j].len() > 0 by {
        lemma_halve_monotone(m, n, l as nat);
    }
    if lp.len() > 0 {
        lemma_halve_monotone(m, n, 0);
        assert forall|j: int| 0 <= j < lp[0].len() implies #[trigger] lp[0][j] == leaf_hash(
            records.take(m as int)[j].encoding(),
        ) by {
            assert(levels[0][j] == leaf_hash(records[j].encoding()));
        }
    }
}

/// Consistency, old side: in a log of `n` records, the hashes that the log
/// returns for the consistency positions between `m` and `n` give the root
/// of its first `m` records, for every `0 < m < n`.
pub proof fn lemma_consistency_old_root<T: LogEntry>(
    records: Seq<T>,
    levels: Seq<Seq<Seq<char>>>,
    m: nat,
)
    requires
        log_wf(records, levels),
        0 < m < records.len(),
    ensures
        tree_verified(
            m,
            log_root(records.take(m as int)),
            stored_nodes(levels).restrict(consistency_positions(m, records.len())),
        ),
{
    let n = records.len();
    let p = consistency_positions(m, n);
    let nodes = stored_nodes(levels).restrict(p);
    let lp = levels_prefix(levels, m);
    lemma_prefix_tree(records, levels, m);
    lemma_prefix_covered(p, m, n);
    assert forall|q: (nat, nat)|
        #[trigger] nodes.contains_key(q) && q.0 < lp.len() && q.1 < lp[q.0 as int].len() implies nodes[q]
        == lp[q.0 as int][q.1 as int] by {
        lemma_halve_monotone(m, n, q.0);
    }
    assert forall|q: (nat, nat)|
        #[trigger] p.contains(q) && q.0 < lp.len() && q.1 < lp[q.0 as int].len() implies nodes.dom().contains(q) by {
        lemma_halve_monotone(m, n, q.0);
        lemma_halve_positive(m, q.0);
        lemma_halve_positive(n, q.0);
    }
    lemma_covers_within(p, nodes.dom(), lp, m, (tree_height(m) - 1) as nat, 0);
    lemma_covered_root(nodes, records.take(m as int), lp);
}

/// Consistency: in a log of `n` records, the hashes that the log returns
/// for the consistency positions between `m` and `n` give both the root of
/// its first `m` records and its latest root, wherever those positions reach
/// every leaf of the tree of `n` records (they always reach every leaf of the
/// tree of `m` records).
pub proof fn lemma_consistency_sound<T: LogEntry>(
    records: Seq<T>,
    levels: Seq<Seq<Seq<char>>>,
    m: nat,
)
    requires
        log_wf(records, levels),
        0 < m < records.len(),
        covers_tree(consistency_positions(m, records.len()), records.len()),
    ensures
        advance_verified(
            m,
            log_root(records.take(m as int)),
            records.len(),
            log_root(records),
            stored_nodes(levels).restrict(consistency_positions(m, records.len())),
        ),
{
    let n = records.len();
    let p = consistency_positions(m, n);
    let nodes = stored_nodes(levels).restrict(p);
    lemma_consistency_old_root(records, levels, m);
    lemma_covers_within(p, nodes.dom(), levels, n, (tree_height(n) - 1) as nat, 0);
    lemma_covered_root(nodes, records, levels);
}

/// Append monotonicity: once a record is appended, the log holds one more
/// record, and the hashes it returns for the consistency positions between
/// the old and the new size prove the old root a prefix of the new one.
pub proof fn lemma_append_keeps_prefix<T: LogEntry>(
    old_records: Seq<T>,
    records: Seq<T>,
    levels: Seq<Seq<Seq<char>>>,
    record: T,
)
    requires
        log_wf(records, levels),
        records == old_records.push(record),
        old_records.len() > 0,
    ensures
        records.len() == old_records.len() + 1,
        advance_verified(
            old_records.len(),
            log_root(old_records),
            records.len(),
            log_root(records),
            stored_nodes(levels).restrict(consistency_positions(old_records.len(), records.len())),
        ),
{
    let n = records.len();
    lemma_new_leaf_in_consistency(n);
    lemma_sibling_included((n - 1) as nat, n, 0);
    lemma_last_leaf_covers(consistency_positions((n - 1) as nat, n), n);
    lemma_consistency_sound(records, levels, old_records.len());
    assert(records.take(old_records.len() as int) =~= old_records);
}

/// The consistency positions from `n - 1` to `n` hold the new leaf.
proof fn lemma_new_leaf_in_consistency(n: nat)
    requires
        n >= 2,
    ensures
        consistency_positions((n - 1) as nat, n).contains((0, (n - 1) as nat)),
        inclusion_positions((n - 1) as nat, n).subset_of(consistency_positions((n - 1) as nat, n)),
{
    let sizes = level_sizes(n);
    assert(sizes[0] == halve(n, 0));
    assert(bit_length((n - 1) as nat) >= 1);
    if n % 2 == 0 {
        lemma_sibling_included((n - 2) as nat, n, 0);
        assert(option_set(sibling_proof(sizes, 0, (n - 2) as nat)).contains((0, (n - 1) as nat)));
    } else {
        assert(first_odd_level(sizes, 0) == Some((0nat, (n - 1) as nat)));
    }
}

/// A node whose first leaf lies past the last one is determined by any keys.
proof fn lemma_vacant_covers(keys: Set<(nat, nat)>, n: nat, k: nat, j: nat)
    requires
        j * pow2(k) >= n,
    ensures
        covers(keys, level_sizes(n), k, j),
    decreases k,
{
    let sizes = level_sizes(n);
    let p = pow2(k);
    lemma_pow2_pos(k);
    lemma_halve_div(n, k);
    vstd::arithmetic::div_mod::lemma_div_is_ordered(n as int, (j * p) as int, p as int);
    vstd::arithmetic::div_mod::lemma_div_multiples_vanish(j as int, p as int);
    assert(j * p == p * j) by (nonlinear_arith);
    if k < sizes.len() {
        assert(sizes[k as int] == halve(n, k));
    }
    if k == 0 {
        if sizes.len() > 0 {
            assert(sizes[0] == halve(n, 0));
        }
    } else {
        lemma_pow2_unfold(k);
        assert(2 * j * pow2((k - 1) as nat) == j * pow2(k)) by (nonlinear_arith)
            requires
                pow2(k) == 2 * pow2((k - 1) as nat),
        ;
        assert((2 * j + 1) * pow2((k - 1) as nat) >= 2 * j * pow2((k - 1) as nat)) by (nonlinear_arith);
        lemma_vacant_covers(keys, n, (k - 1) as nat, 2 * j);
        lemma_vacant_covers(keys, n, (k - 1) as nat, 2 * j + 1);
    }
}

proof fn lemma_last_path_covered(keys: Set<(nat, nat)>, n: nat, l: nat)
    requires
        n > 0,
        l < tree_height(n),
        keys.contains((0, (n - 1) as nat)),
        inclusion_positions((n - 1) as nat, n).subset_of(keys),
    ensures
        covers(keys, level_sizes(n), l, halve((n - 1) as nat, l)),
    decreases l,
{
    let sizes = level_sizes(n);
    let t = (n - 1) as nat;
    assert(sizes[0] == halve(n, 0));
    if l > 0 {
        let k = (l - 1) as nat;
        let a = halve(t, k);
        lemma_last_path_covered(keys, n, k);
        assert(halve(t, l) == a / 2);
        lemma_sibling_included(t, n, k);
        lemma_next_multiple(t, k);
        lemma_halve_monotone(t, n, k);
        assert(sizes[k as int] == halve(n, k));
        let h = a / 2;
        if a % 2 == 1 {
            assert(option_set(sibling_proof(sizes, k, a)).contains((k, (a - 1) as nat)));
            assert(keys.contains((k, (a - 1) as nat)));
            assert(2 * h == a - 1);
            assert(covers(keys, sizes, k, 2 * h));
            assert(covers(keys, sizes, k, 2 * h + 1));
        } else {
            lemma_vacant_covers(keys, n, k, a + 1);
            assert(covers(keys, sizes, k, 2 * h));
            assert(covers(keys, sizes, k, 2 * h + 1));
        }
    } else {
        assert(keys.contains((0, t)));
    }
}

/// The inclusion positions of the last record, with its leaf, determine
/// the root of the tree.
pub proof fn lemma_last_leaf_covers(keys: Set<(nat, nat)>, n: nat)
    requires
        n > 0,
        keys.contains((0, (n - 1) as nat)),
        inclusion_positions((n - 1) as nat, n).subset_of(keys),
    ensures
        covers_tree(keys, n),
{
    let top = (tree_height(n) - 1) as nat;
    lemma_last_path_covered(keys, n, top);
    lemma_below_pow2((n - 1) as nat);
    lemma_halve_div((n - 1) as nat, top);
    lemma_pow2_pos(top);
    vstd::arithmetic::div_mod::lemma_basic_div((n - 1) as int, pow2(top) as int);
}

proof fn lemma_prefix_path_covered(keys: Set<(nat, nat)>, m: nat, n: nat, l: nat)
    requires
        0 < m < n,
        l < tree_height(m),
        inclusion_positions(m, n).subset_of(keys),
    ensures
        covers(keys, level_sizes(m), l, halve(m, l)),
    decreases l,
{
    let sizes = level_sizes(m);
    lemma_bit_length_monotone((m - 1) as nat, (n - 1) as nat);
    if l == 0 {
        assert(sizes[0] == halve(m, 0));
    } else {
        let k = (l - 1) as nat;
        let a = halve(m, k);
        lemma_prefix_path_covered(keys, m, n, k);
        assert(halve(m, l) == a / 2);
        lemma_sibling_included(m, n, k);
        lemma_next_multiple(m, k);
        assert(sizes[k as int] == halve(m, k));
        let h = a / 2;
        if a % 2 == 1 {
            assert(option_set(sibling_proof(level_sizes(n), k, a)).contains((k, (a - 1) as nat)));
            assert(keys.contains((k, (a - 1) as nat)));
            assert(2 * h == a - 1);
            assert(covers(keys, sizes, k, 2 * h));
            assert(covers(keys, sizes, k, 2 * h + 1));
        } else {
            lemma_vacant_covers(keys, m, k, a + 1);
            assert(covers(keys, sizes, k, 2 * h));
            assert(covers(keys, sizes, k, 2 * h + 1));
        }
    }
}

/// The inclusion positions of leaf `m` in a larger tree determine the root
/// of the tree of the first `m` leaves.
pub proof fn lemma_prefix_covered(keys: Set<(nat, nat)>, m: nat, n: nat)
    requires
        0 < m < n,
        inclusion_positions(m, n).subset_of(keys),
    ensures
        covers_tree(keys, m),
{
    let top = (tree_height(m) - 1) as nat;
    let sizes = level_sizes(m);
    lemma_prefix_path_covered(keys, m, n, top);
    lemma_below_pow2((m - 1) as nat);
    lemma_halve_div(m, top);
    lemma_pow2_pos(top);
    vstd::arithmetic::div_mod::lemma_div_is_ordered(m as int, pow2(top) as int, pow2(top) as int);
    vstd::arithmetic::div_mod::lemma_div_by_self(pow2(top) as int);
    assert(sizes[top as int] == halve(m, top));
    if halve(m, top) == 1 {
        lemma_bit_length_monotone((m - 1) as nat, (n - 1) as nat);
        lemma_sibling_included(m, n, top);
        assert(option_set(sibling_proof(level_sizes(n), top, 1)).contains((top, 0)));
    }
}

} // verus!
