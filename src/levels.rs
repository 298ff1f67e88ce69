//! The stored levels of a log's tree and the invariant that ties them to
//! the records: each complete node holds the hash of its two children.
use vstd::prelude::*;

use crate::digest::node_hash;
use crate::geometry::{bit_length, halve, tree_height};
use crate::records::{leaf_hash, LogEntry};

verus! {

/// Stored levels of a tree in which the levels below `k` hold the nodes of
/// a tree of `n + 1` leaves and the others those of a tree of `n` leaves:
/// as many levels as hold a node, `n >> l` nodes at level `l` (`(n + 1) >> l`
/// below `k`), no empty hash, and each node above level 0 the hash of its
/// two children.
pub open spec fn levels_growing(levels: Seq<Seq<Seq<char>>>, n: nat, k: nat) -> bool {
    &&& levels.len() == if k > bit_length(n) {
        k
    } else {
        bit_length(n)
    }
    &&& forall|l: int|
        0 <= l < levels.len() ==> #[trigger] levels[l].len() == halve(
            if l < k {
                n + 1
            } else {
                n
            },
            l as nat,
        )
    &&& forall|l: int, j: int|
        0 <= l < levels.len() && 0 <= j < levels[l].len() ==> #[trigger] levels[l][j].len() > 0
    &&& forall|l: int, j: int|
        0 <= l && l + 1 < levels.len() && 0 <= j < levels[l + 1].len() ==> #[trigger] levels[l
            + 1][j] == node_hash(levels[l][2 * j], levels[l][2 * j + 1])
}

/// Stored levels of the tree over `n` leaves.
pub open spec fn levels_wf(levels: Seq<Seq<Seq<char>>>, n: nat) -> bool {
    levels_growing(levels, n, 0)
}

/// Level 0 holds the leaf hashes of the records, in order.
pub open spec fn leaves_match<T: LogEntry>(records: Seq<T>, leaves: Seq<Seq<char>>) -> bool {
    forall|j: int| 0 <= j < leaves.len() ==> #[trigger] leaves[j] == leaf_hash(records[j].encoding())
}

/// The levels hold the tree over the records' leaf hashes.
pub open spec fn log_wf<T: LogEntry>(records: Seq<T>, levels: Seq<Seq<Seq<char>>>) -> bool {
    &&& levels_wf(levels, records.len())
    &&& levels.len() > 0 ==> leaves_match(records, levels[0])
}

/// Each level of `b` starts with the level of `a`: `b` grew from `a` by
/// appends only.
pub open spec fn levels_extend(a: Seq<Seq<Seq<char>>>, b: Seq<Seq<Seq<char>>>) -> bool {
    &&& a.len() <= b.len()
    &&& forall|l: int|
        0 <= l < a.len() ==> #[trigger] b[l].len() >= a[l].len() && b[l].subrange(0, a[l].len() as int)
            == a[l]
}

/// The stored nodes as a map from position to hash.
pub open spec fn stored_nodes(levels: Seq<Seq<Seq<char>>>) -> Map<(nat, nat), Seq<char>> {
    Map::new(
        |p: (nat, nat)| p.0 < levels.len() && p.1 < levels[p.0 as int].len(),
        |p: (nat, nat)| levels[p.0 as int][p.1 as int],
    )
}

/// The leaves as a map from level-0 position to hash.
pub open spec fn leaf_nodes(leaves: Seq<Seq<char>>) -> Map<(nat, nat), Seq<char>> {
    Map::new(|p: (nat, nat)| p.0 == 0 && p.1 < leaves.len(), |p: (nat, nat)| leaves[p.1 as int])
}

pub proof fn lemma_halve_shift(x: nat, l: nat)
    ensures
        halve(x, l + 1) == halve(x / 2, l),
    decreases l,
{
    assert(halve(x, l + 1) == halve(x, l) / 2);
    if l > 0 {
        lemma_halve_shift(x, (l - 1) as nat);
        assert(halve(x / 2, l) == halve(x / 2, (l - 1) as nat) / 2);
    }
}

/// A level holds a node exactly below the bit length of the leaf count.
pub proof fn lemma_halve_positive(x: nat, l: nat)
    ensures
        halve(x, l) >= 1 <==> l < bit_length(x),
    decreases x,
{
    if l > 0 {
        lemma_halve_shift(x, (l - 1) as nat);
        if x > 0 {
            lemma_halve_positive(x / 2, (l - 1) as nat);
        } else {
            lemma_halve_zero(l);
        }
    }
}

pub proof fn lemma_halve_zero(l: nat)
    ensures
        halve(0, l) == 0,
    decreases l,
{
    if l > 0 {
        lemma_halve_zero((l - 1) as nat);
    }
}

pub proof fn lemma_halve_monotone(a: nat, b: nat, l: nat)
    requires
        a <= b,
    ensures
        halve(a, l) <= halve(b, l),
    decreases l,
{
    if l > 0 {
        lemma_halve_monotone(a, b, (l - 1) as nat);
    }
}

pub proof fn lemma_halve_same_above(a: nat, b: nat, l: nat, m: nat)
    requires
        halve(a, l) == halve(b, l),
        l <= m,
    ensures
        halve(a, m) == halve(b, m),
    decreases m,
{
    if m > l {
        lemma_halve_same_above(a, b, l, (m - 1) as nat);
    }
}

/// The stored levels fit below the height of the tree.
pub proof fn lemma_bit_length_height(n: nat)
    ensures
        bit_length(n) <= tree_height(n),
    decreases n,
{
    if n >= 2 {
        lemma_bit_length_height(n / 2);
        if n % 2 == 1 {
            assert((n - 1) as nat / 2 == n / 2);
        } else {
            assert(((n / 2) - 1) as nat == (n - 1) as nat / 2);
        }
    }
}

/// A `u64` has at most 64 binary digits.
pub proof fn lemma_bit_length_u64(x: nat)
    requires
        x <= u64::MAX,
    ensures
        bit_length(x) <= 64,
{
    vstd::arithmetic::power2::lemma2_to64();
    lemma_bit_length_bound(x, 64);
}

proof fn lemma_bit_length_bound(x: nat, k: nat)
    requires
        x < vstd::arithmetic::power2::pow2(k),
    ensures
        bit_length(x) <= k,
    decreases k,
{
    vstd::arithmetic::power2::lemma_pow2_pos(k);
    if k > 0 && x > 0 {
        vstd::arithmetic::power2::lemma_pow2_unfold(k);
        lemma_bit_length_bound(x / 2, (k - 1) as nat);
    }
    if k == 0 {
        assert(vstd::arithmetic::power2::pow2(0) == 1) by {
            vstd::arithmetic::power2::lemma_pow2(0);
            reveal(vstd::arithmetic::power::pow);
        }
    }
}

} // verus!
