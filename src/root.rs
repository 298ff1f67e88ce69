//! The root of a log: recomputed from its leaves, or folded from the
//! rightmost node of each level with an odd node count.
use vstd::prelude::*;

use crate::digest::node_hash;
use crate::geometry::{
    bit_length, halve, lemma_below_pow2, lemma_halve_div, level_sizes, tree_height,
};
use crate::levels::{leaf_nodes, lemma_halve_positive, levels_wf, log_wf};
use crate::records::{leaf_hash, LogEntry};
use crate::verification::{compute_root, root_at};

use vstd::arithmetic::power2::{lemma_pow2_pos, lemma_pow2_unfold, pow2};

verus! {

/// The leaf hashes of the records, in order.
pub open spec fn leaf_hashes<T: LogEntry>(records: Seq<T>) -> Seq<Seq<char>> {
    records.map_values(|r: T| leaf_hash(r.encoding()))
}

/// Root of the tree over the records: recomputed from their leaf hashes
/// alone; empty for no records.
pub open spec fn log_root<T: LogEntry>(records: Seq<T>) -> Seq<char> {
    compute_root(leaf_nodes(leaf_hashes(records)), records.len())
}

/// The rightmost nodes of the levels below `k` whose node count (in a tree
/// of `n` leaves) is odd, folded from the lowest: each one is hashed with
/// what the levels below it gave, or taken alone where they gave nothing.
pub open spec fn frontier_fold(levels: Seq<Seq<Seq<char>>>, n: nat, k: nat) -> Seq<char>
    decreases k,
{
    if k == 0 {
        Seq::empty()
    } else {
        let l = (k - 1) as nat;
        let below = frontier_fold(levels, n, l);
        if halve(n, l) % 2 == 1 {
            let f = levels[l as int][halve(n, l) - 1];
            if below.len() == 0 {
                f
            } else {
                node_hash(f, below)
            }
        } else {
            below
        }
    }
}

/// A node whose first leaf is past the last one recomputes to nothing.
proof fn lemma_vacant(nodes: Map<(nat, nat), Seq<char>>, n: nat, k: nat, j: nat)
    requires
        j * pow2(k) >= n,
    ensures
        root_at(nodes, level_sizes(n), k, j).len() == 0,
    decreases k,
{
    let sizes = level_sizes(n);
    let p = pow2(k);
    lemma_pow2_pos(k);
    lemma_halve_div(n, k);
    vstd::arithmetic::div_mod::lemma_div_is_ordered(n as int, (j * p) as int, p as int);
    vstd::arithmetic::div_mod::lemma_div_multiples_vanish(j as int, p as int);
    assert((p * j) / p == j);
    assert(j * p == p * j) by (nonlinear_arith);
    assert(halve(n, k) <= j);
    if k < sizes.len() {
        assert(sizes[k as int] == halve(n, k));
    }
    if k > 0 {
        lemma_pow2_unfold(k);
        assert(2 * j * pow2((k - 1) as nat) == j * pow2(k)) by (nonlinear_arith)
            requires
                pow2(k) == 2 * pow2((k - 1) as nat),
        ;
        assert((2 * j + 1) * pow2((k - 1) as nat) >= 2 * j * pow2((k - 1) as nat)) by (nonlinear_arith);
        lemma_vacant(nodes, n, (k - 1) as nat, 2 * j);
        lemma_vacant(nodes, n, (k - 1) as nat, 2 * j + 1);
    }
}

/// A complete node recomputes, from the leaves, to its stored hash.
pub proof fn lemma_complete_node(levels: Seq<Seq<Seq<char>>>, n: nat, k: nat, j: nat)
    requires
        levels_wf(levels, n),
        k < levels.len(),
        j < levels[k as int].len(),
    ensures
        root_at(leaf_nodes(levels[0]), level_sizes(n), k, j) == levels[k as int][j as int],
    decreases k,
{
    let sizes = level_sizes(n);
    lemma_halve_positive(n, 0);
    crate::levels::lemma_bit_length_height(n);
    if k == 0 {
        assert(sizes[0] == halve(n, 0));
    } else {
        assert(levels[k as int].len() == halve(n, k));
        assert(halve(n, k) == halve(n, (k - 1) as nat) / 2);
        assert(levels[k - 1].len() == halve(n, (k - 1) as nat));
        lemma_complete_node(levels, n, (k - 1) as nat, 2 * j);
        lemma_complete_node(levels, n, (k - 1) as nat, 2 * j + 1);
        assert(levels[k - 1][2 * j as int + 1].len() > 0);
        assert(levels[(k - 1) + 1][j as int] == node_hash(
            levels[k - 1][2 * j as int],
            levels[k - 1][2 * j as int + 1],
        ));
    }
}

/// The fold of the levels below `k` is the hash of the node that holds the
/// leaves past the complete nodes of level `k`.
proof fn lemma_fold_partial(levels: Seq<Seq<Seq<char>>>, n: nat, k: nat)
    requires
        levels_wf(levels, n),
        n > 0,
        k < tree_height(n),
    ensures
        frontier_fold(levels, n, k) == root_at(leaf_nodes(levels[0]), level_sizes(n), k, halve(n, k)),
    decreases k,
{
    let sizes = level_sizes(n);
    let m0 = leaf_nodes(levels[0]);
    lemma_halve_positive(n, 0);
    crate::levels::lemma_bit_length_height(n);
    if k == 0 {
        assert(sizes[0] == halve(n, 0));
    } else {
        let l = (k - 1) as nat;
        lemma_fold_partial(levels, n, l);
        assert(halve(n, k) == halve(n, l) / 2);
        assert(!m0.contains_key((k, halve(n, k))));
        if halve(n, l) % 2 == 1 {
            lemma_halve_positive(n, l);
            assert(levels[l as int].len() == halve(n, l));
            lemma_complete_node(levels, n, l, (halve(n, l) - 1) as nat);
            assert(2 * halve(n, k) == halve(n, l) - 1);
        } else {
            assert(2 * halve(n, k) == halve(n, l));
            lemma_halve_div(n, l);
            lemma_pow2_pos(l);
            vstd::arithmetic::div_mod::lemma_fundamental_div_mod(n as int, pow2(l) as int);
            vstd::arithmetic::div_mod::lemma_mod_bound(n as int, pow2(l) as int);
            let h = halve(n, l);
            let p = pow2(l);
            let rem = n % p;
            assert(n == p * h + rem);
            assert(rem < p);
            assert((h + 1) * p >= n) by (nonlinear_arith)
                requires
                    n == p * h + rem,
                    rem < p,
            ;
            lemma_vacant(m0, n, l, halve(n, l) + 1);
        }
    }
}

/// Folding the rightmost odd nodes of all levels gives the root recomputed
/// from the leaves.
pub proof fn lemma_fold_is_root(levels: Seq<Seq<Seq<char>>>, n: nat)
    requires
        levels_wf(levels, n),
        n > 0,
    ensures
        frontier_fold(levels, n, tree_height(n)) == compute_root(leaf_nodes(levels[0]), n),
{
    let sizes = level_sizes(n);
    let m0 = leaf_nodes(levels[0]);
    let top = (tree_height(n) - 1) as nat;
    lemma_fold_partial(levels, n, top);
    crate::levels::lemma_bit_length_height(n);
    lemma_below_pow2((n - 1) as nat);
    lemma_halve_div(n, top);
    lemma_pow2_pos(top);
    vstd::arithmetic::div_mod::lemma_div_is_ordered(n as int, pow2(top) as int, pow2(top) as int);
    vstd::arithmetic::div_mod::lemma_div_by_self(pow2(top) as int);
    if halve(n, top) == 1 {
        lemma_halve_positive(n, top);
        assert(levels[top as int].len() == halve(n, top));
        lemma_complete_node(levels, n, top, 0);
        lemma_vacant(m0, n, top, 1);
    } else {
        assert(halve(n, top) == 0);
    }
}

/// Append determinism: two logs that hold records with the same encodings
/// store the same hashes, and have the same root at every size.
pub proof fn lemma_same_records_same_tree<T: LogEntry>(
    records1: Seq<T>,
    levels1: Seq<Seq<Seq<char>>>,
    records2: Seq<T>,
    levels2: Seq<Seq<Seq<char>>>,
)
    requires
        log_wf(records1, levels1),
        log_wf(records2, levels2),
        records1.len() == records2.len(),
        forall|i: int| 0 <= i < records1.len() ==> #[trigger] records1[i].encoding() == records2[i].encoding(),
    ensures
        levels1 == levels2,
        forall|m: int| 0 <= m <= records1.len() ==> #[trigger] log_root(records1.take(m)) == log_root(records2.take(m)),
{
    let n = records1.len();
    assert forall|k: int, j: int| 0 <= k < levels1.len() && 0 <= j < levels1[k].len() implies #[trigger] levels1[k][j]
        == levels2[k][j] by {
        lemma_same_node(records1, levels1, records2, levels2, k as nat, j as nat);
    }
    assert forall|k: int| 0 <= k < levels1.len() implies #[trigger] levels1[k] == levels2[k] by {
        assert(levels1[k] =~= levels2[k]);
    }
    assert(levels1 =~= levels2);
    assert forall|m: int| 0 <= m <= records1.len() implies #[trigger] log_root(records1.take(m)) == log_root(
        records2.take(m),
    ) by {
        assert(leaf_hashes(records1.take(m)) =~= leaf_hashes(records2.take(m)));
    }
}

proof fn lemma_same_node<T: LogEntry>(
    records1: Seq<T>,
    levels1: Seq<Seq<Seq<char>>>,
    records2: Seq<T>,
    levels2: Seq<Seq<Seq<char>>>,
    k: nat,
    j: nat,
)
    requires
        log_wf(records1, levels1),
        log_wf(records2, levels2),
        records1.len() == records2.len(),
        forall|i: int| 0 <= i < records1.len() ==> #[trigger] records1[i].encoding() == records2[i].encoding(),
        k < levels1.len(),
        j < levels1[k as int].len(),
    ensures
        levels1[k as int][j as int] == levels2[k as int][j as int],
    decreases k,
{
    let n = records1.len();
    lemma_halve_positive(n, 0);
    assert(levels1[0].len() == halve(n, 0));
    if k > 0 {
        assert(levels1[k as int].len() == halve(n, k));
        assert(halve(n, k) == halve(n, (k - 1) as nat) / 2);
        assert(levels1[k - 1].len() == halve(n, (k - 1) as nat));
        lemma_same_node(records1, levels1, records2, levels2, (k - 1) as nat, 2 * j);
        lemma_same_node(records1, levels1, records2, levels2, (k - 1) as nat, 2 * j + 1);
        assert(levels1[(k - 1) + 1][j as int] == node_hash(
            levels1[k - 1][2 * j as int],
            levels1[k - 1][2 * j as int + 1],
        ));
        assert(levels2[(k - 1) + 1][j as int] == node_hash(
            levels2[k - 1][2 * j as int],
            levels2[k - 1][2 * j as int + 1],
        ));
    }
}

} // verus!
