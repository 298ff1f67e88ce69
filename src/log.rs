//! The log server: a store of records and node hashes (the backend
//! primitives), and the operations built on them.
use vstd::prelude::*;

use crate::digest::{hash_two_strings, node_hash};
use crate::error::LogError;
use crate::geometry::{
    bit_length, halve, level_sizes, position_set, position_views, sizes_view, tree_height,
    tree_sizes,
};
use crate::levels::{
    leaf_nodes, lemma_bit_length_height, lemma_bit_length_u64, lemma_halve_positive,
    lemma_halve_same_above, lemma_halve_zero, leaves_match, levels_extend, levels_growing,
    levels_wf, log_wf, stored_nodes,
};
use crate::position::{LogTree, LogTreePosition};
use crate::proof_map::ProofMap;
use crate::root::{frontier_fold, leaf_hashes, lemma_fold_is_root, log_root};
use crate::position::{LogHeight, LogSize, Record};
use crate::verification::compute_root;
use crate::records::{hash, leaf_hash, LogEntry};

verus! {

/// The levels after `hash` is appended at `level` (a new level when `level`
/// is the number of levels).
pub open spec fn push_at(levels: Seq<Seq<Seq<char>>>, level: nat, hash: Seq<char>) -> Seq<
    Seq<Seq<char>>,
> {
    if level < levels.len() {
        levels.update(level as int, levels[level as int].push(hash))
    } else {
        levels.push(seq![hash])
    }
}

/// The state of an append of leaf number `n` when `hash` is the next node to
/// store, at `level`: the levels below already hold the tree over `n + 1`
/// leaves, a node appears at `level`, and `hash` is its hash.
pub open spec fn push_pending<T: LogEntry>(
    records: Seq<T>,
    levels: Seq<Seq<Seq<char>>>,
    n: nat,
    level: nat,
    hash: Seq<char>,
) -> bool {
    &&& records.len() == n + 1
    &&& levels_growing(levels, n, level)
    &&& levels.len() > 0 ==> leaves_match(records, levels[0])
    &&& halve(n + 1, level) == halve(n, level) + 1
    &&& hash.len() > 0
    &&& level == 0 ==> hash == leaf_hash(records[n as int].encoding())
    &&& level > 0 ==> hash == node_hash(
        levels[level - 1][2 * halve(n, level) as int],
        levels[level - 1][2 * halve(n, level) as int + 1],
    )
}

proof fn lemma_extend_trans(a: Seq<Seq<Seq<char>>>, b: Seq<Seq<Seq<char>>>, c: Seq<Seq<Seq<char>>>)
    requires
        levels_extend(a, b),
        levels_extend(b, c),
    ensures
        levels_extend(a, c),
{
    assert forall|l: int| 0 <= l < a.len() implies #[trigger] c[l].len() >= a[l].len()
        && c[l].subrange(0, a[l].len() as int) == a[l] by {
        assert(b[l].len() >= a[l].len());
        assert(c[l].subrange(0, b[l].len() as int) == b[l]);
        assert(c[l].subrange(0, a[l].len() as int) =~= b[l].subrange(0, a[l].len() as int));
    }
}

/// Storing the pending hash keeps the levels a tree, now with one more
/// level holding `n + 1` leaves.
proof fn lemma_push_step<T: LogEntry>(
    records: Seq<T>,
    before: Seq<Seq<Seq<char>>>,
    n: nat,
    k: nat,
    h: Seq<char>,
)
    requires
        push_pending(records, before, n, k, h),
    ensures
        k <= before.len(),
        halve(n, k) == if k < before.len() {
            before[k as int].len()
        } else {
            0
        },
        levels_growing(push_at(before, k, h), n, k + 1),
        leaves_match(records, push_at(before, k, h)[0]),
        levels_extend(before, push_at(before, k, h)),
        push_at(before, k, h)[k as int].len() == halve(n, k) + 1,
        push_at(before, k, h)[k as int][halve(n, k) as int] == h,
{
    lemma_halve_positive(n, k);
    let after = push_at(before, k, h);
    let hid = halve(n, k);
    assert(after.len() == if k + 1 > bit_length(n) {
        k + 1
    } else {
        bit_length(n)
    });
    assert forall|l: int| 0 <= l < after.len() implies #[trigger] after[l].len() == halve(
        if l < k + 1 {
            n + 1
        } else {
            n
        },
        l as nat,
    ) by {
        if l != k {
            assert(after[l] == before[l]);
        }
    }
    assert forall|l: int, j: int| 0 <= l < after.len() && 0 <= j < after[l].len() implies #[trigger] after[l][j].len() > 0 by {
        if l != k {
            assert(after[l] == before[l]);
        } else if j < hid {
            assert(after[l][j] == before[l][j]);
        }
    }
    assert forall|l: int, j: int|
        0 <= l && l + 1 < after.len() && 0 <= j < after[l + 1].len() implies #[trigger] after[l
        + 1][j] == node_hash(after[l][2 * j], after[l][2 * j + 1]) by {
        if l + 1 == k {
            assert(after[l] == before[l]);
            if j < hid {
                assert(after[l + 1][j] == before[l + 1][j]);
            }
        } else if l == k {
            assert(after[l + 1] == before[l + 1]);
            assert(halve(n, k + 1) == halve(n, k) / 2);
            assert(after[l][2 * j] == before[l][2 * j]);
            assert(after[l][2 * j + 1] == before[l][2 * j + 1]);
        } else {
            assert(after[l] == before[l]);
            assert(after[l + 1] == before[l + 1]);
        }
    }
    assert forall|j: int| 0 <= j < after[0].len() implies #[trigger] after[0][j] == leaf_hash(
        records[j].encoding(),
    ) by {
        if k != 0 {
            assert(after[0] == before[0]);
        } else if j < hid {
            assert(after[0][j] == before[0][j]);
        }
    }
    assert forall|l: int| 0 <= l < before.len() implies #[trigger] after[l].len() >= before[l].len()
        && after[l].subrange(0, before[l].len() as int) == before[l] by {
        if l == k {
            assert(after[l].subrange(0, before[l].len() as int) =~= before[l]);
        }
    }
}

/// Where the new node is a right child, its parent is the next pending node.
proof fn lemma_next_pending<T: LogEntry>(
    records: Seq<T>,
    before: Seq<Seq<Seq<char>>>,
    n: nat,
    k: nat,
    h: Seq<char>,
    parent: Seq<char>,
)
    requires
        push_pending(records, before, n, k, h),
        halve(n, k) % 2 == 1,
        n + 1 <= u64::MAX,
        parent == node_hash(push_at(before, k, h)[k as int][halve(n, k) - 1], h),
        parent.len() > 0,
    ensures
        k + 1 < 64,
        push_pending(records, push_at(before, k, h), n, k + 1, parent),
{
    lemma_push_step(records, before, n, k, h);
    let after = push_at(before, k, h);
    assert(halve(n + 1, k + 1) == halve(n + 1, k) / 2);
    assert(halve(n, k + 1) == halve(n, k) / 2);
    lemma_halve_positive(n + 1, k + 1);
    lemma_bit_length_u64(n + 1);
    assert(2 * halve(n, k + 1) == halve(n, k) - 1);
    assert(halve(n + 1, k + 1) == halve(n, k + 1) + 1);
    assert(after[k as int][2 * halve(n, k + 1) as int] == after[k as int][halve(n, k) - 1]);
    assert(after[k as int][2 * halve(n, k + 1) as int + 1] == h);
}

proof fn lemma_extend_refl(a: Seq<Seq<Seq<char>>>)
    ensures
        levels_extend(a, a),
{
    assert forall|l: int| 0 <= l < a.len() implies #[trigger] a[l].len() >= a[l].len()
        && a[l].subrange(0, a[l].len() as int) == a[l] by {
        assert(a[l].subrange(0, a[l].len() as int) =~= a[l]);
    }
}

/// Where the new node is a left child, the levels hold the tree over `n + 1`
/// leaves.
proof fn lemma_push_done<T: LogEntry>(
    records: Seq<T>,
    before: Seq<Seq<Seq<char>>>,
    n: nat,
    k: nat,
    h: Seq<char>,
)
    requires
        push_pending(records, before, n, k, h),
        halve(n, k) % 2 == 0,
    ensures
        log_wf(records, push_at(before, k, h)),
{
    lemma_push_step(records, before, n, k, h);
    let after = push_at(before, k, h);
    assert(halve(n + 1, k + 1) == halve(n + 1, k) / 2);
    assert(halve(n, k + 1) == halve(n, k) / 2);
    assert forall|l: int| 0 <= l < after.len() implies #[trigger] after[l].len() == halve(
        n + 1,
        l as nat,
    ) by {
        if l > k {
            lemma_halve_same_above(n, n + 1, k + 1, l as nat);
        }
    }
    lemma_halve_positive(n + 1, k);
    lemma_halve_positive(n, k + 1);
    lemma_halve_positive(n + 1, k + 1);
    lemma_halve_positive(n, k);
    if bit_length(n) > k + 1 {
        lemma_halve_positive(n, (bit_length(n) - 1) as nat);
        lemma_halve_positive(n, bit_length(n));
        lemma_halve_positive(n + 1, (bit_length(n) - 1) as nat);
        lemma_halve_positive(n + 1, bit_length(n));
        lemma_halve_same_above(n, n + 1, k + 1, (bit_length(n) - 1) as nat);
        lemma_halve_same_above(n, n + 1, k + 1, bit_length(n));
    }
    assert(after.len() == bit_length(n + 1));
    assert(levels_growing(after, n + 1, 0));
}

/// Under the invariant, a position lies inside the tree exactly when the
/// levels store a hash for it.
pub proof fn lemma_inside_is_stored<T: LogEntry>(
    records: Seq<T>,
    levels: Seq<Seq<Seq<char>>>,
    p: (nat, nat),
)
    requires
        log_wf(records, levels),
    ensures
        (p.0 < tree_height(records.len()) && p.1 < halve(records.len(), p.0)) <==> stored_nodes(
            levels,
        ).contains_key(p),
{
    let n = records.len();
    lemma_halve_positive(n, p.0);
    lemma_bit_length_height(n);
    if p.0 < levels.len() {
        assert(levels[p.0 as int].len() == halve(n, p.0));
    }
}

/// Under the invariant, the root recomputed from the stored leaves is the
/// root of the records.
pub proof fn lemma_leaves_root<T: LogEntry>(records: Seq<T>, levels: Seq<Seq<Seq<char>>>)
    requires
        log_wf(records, levels),
        records.len() > 0,
    ensures
        levels[0] == leaf_hashes(records),
        compute_root(leaf_nodes(levels[0]), records.len()) == log_root(records),
        frontier_fold(levels, records.len(), tree_height(records.len())) == log_root(records),
{
    lemma_halve_positive(records.len(), 0);
    assert(levels[0].len() == halve(records.len(), 0));
    assert(levels[0] =~= leaf_hashes(records));
    lemma_fold_is_root(levels, records.len());
}

/// A store of records and of the hashes of the tree over them; the log
/// operations are built on its primitives.
pub trait TransparentLog<T: LogEntry> {
    /// The records, in order.
    spec fn records(&self) -> Seq<T>;

    /// The stored hashes, level by level.
    spec fn levels(&self) -> Seq<Seq<Seq<char>>>;

    /// Whether the store's primitives cannot fail (as in memory).
    spec fn infallible(&self) -> bool;

    /// The errors that reading from the store can return.
    spec fn read_errors(&self) -> Set<LogError>;

    /// Number of records.
    fn size(&self) -> (r: Result<LogSize, LogError>)
        ensures
            r matches Ok(n) ==> n == self.records().len(),
            r matches Err(e) ==> self.read_errors().contains(e),
            self.infallible() ==> r is Ok,
    ;

    /// The record with the given id, if the log holds one.
    fn get(&self, id: LogSize) -> (r: Result<Option<T>, LogError>)
        ensures
            r matches Ok(o) ==> (id < self.records().len() ==> o == Some(self.records()[id as int]))
                && (id >= self.records().len() ==> o is None),
            r matches Err(e) ==> self.read_errors().contains(e),
            self.infallible() ==> r is Ok,
    ;

    /// Adds a record; returns its id, the number of records before it.
    fn add(&mut self, record: T) -> (r: Result<LogSize, LogError>)
        requires
            old(self).records().len() < u64::MAX,
        ensures
            r matches Ok(id) ==> {
                &&& id == old(self).records().len()
                &&& final(self).records() == old(self).records().push(record)
                &&& final(self).levels() == old(self).levels()
            },
            old(self).infallible() ==> r is Ok,
            final(self).infallible() == old(self).infallible(),
    ;

    /// Appends a hash at a level; returns its index in the level.
    fn add_hash(&mut self, level: LogHeight, hash: String) -> (r: Result<LogSize, LogError>)
        requires
            level <= old(self).levels().len(),
        ensures
            r matches Ok(idx) ==> {
                &&& final(self).records() == old(self).records()
                &&& final(self).levels() == push_at(old(self).levels(), level as nat, hash@)
                &&& level < old(self).levels().len() ==> idx == old(self).levels()[level as int].len()
                &&& level == old(self).levels().len() ==> idx == 0
            },
            old(self).infallible() ==> r is Ok,
            final(self).infallible() == old(self).infallible(),
    ;

    /// The hash stored at a level and index.
    fn get_hash(&self, level: LogHeight, index: LogSize) -> (r: Result<String, LogError>)
        ensures
            r matches Ok(h) ==> level < self.levels().len() && index < self.levels()[level as int].len()
                && h@ == self.levels()[level as int][index as int],
            r matches Err(e) ==> self.read_errors().contains(e),
            self.infallible() && level < self.levels().len() && index < self.levels()[level
                as int].len() ==> r is Ok,
    ;

    /// Stores the hash of a new node at `level`, and the hashes of the nodes
    /// that it completes above it; returns its index in the level.
    fn push_hash(&mut self, level: LogHeight, hash: String) -> (r: Result<LogSize, LogError>)
        requires
            old(self).records().len() <= u64::MAX,
            push_pending(
                old(self).records(),
                old(self).levels(),
                (old(self).records().len() - 1) as nat,
                level as nat,
                hash@,
            ),
        ensures
            r matches Ok(_) ==> {
                &&& log_wf(final(self).records(), final(self).levels())
                &&& final(self).records() == old(self).records()
                &&& levels_extend(old(self).levels(), final(self).levels())
            },
            r matches Ok(idx) ==> idx == if level < old(self).levels().len() {
                old(self).levels()[level as int].len()
            } else {
                0
            },
            old(self).infallible() ==> r is Ok,
            final(self).infallible() == old(self).infallible(),
    {
        let ghost n = (self.records().len() - 1) as nat;
        let ghost level0 = level as nat;
        let ghost expected: nat = if level < self.levels().len() {
            self.levels()[level as int].len()
        } else {
            0
        };
        let ghost start = self.levels();
        let mut level = level;
        let mut hash = hash;
        let mut first: LogSize = 0;
        let mut at_start = true;
        proof {
            lemma_extend_refl(start);
        }
        loop
            invariant_except_break
                push_pending(self.records(), self.levels(), n, level as nat, hash@),
            invariant
                self.records().len() == n + 1,
                self.records() == old(self).records(),
                start == old(self).levels(),
                self.infallible() == old(self).infallible(),
                at_start ==> level as nat == level0 && self.levels() == start,
                !at_start ==> first == expected,
                expected == if level0 < start.len() {
                    start[level0 as int].len()
                } else {
                    0
                },
                n + 1 <= u64::MAX,
                levels_extend(start, self.levels()),
            ensures
                log_wf(self.records(), self.levels()),
                first == expected,
            decreases 64 - level,
        {
            let ghost before = self.levels();
            proof {
                lemma_bit_length_u64(n + 1);
                lemma_halve_positive(n + 1, level as nat);
                lemma_halve_positive(n, level as nat);
            }
            let hid = self.add_hash(level, hash.clone())?;
            proof {
                lemma_push_step(self.records(), before, n, level as nat, hash@);
                lemma_extend_trans(start, before, self.levels());
            }
            if at_start {
                first = hid;
                at_start = false;
            }
            if hid % 2 == 1 {
                assert(hid - 1 < self.levels()[level as int].len());
                let left = self.get_hash(level, hid - 1)?;
                let parent = hash_two_strings(left.as_str(), hash.as_str());
                proof {
                    lemma_next_pending(self.records(), before, n, level as nat, hash@, parent@);
                }
                level = level + 1;
                hash = parent;
            } else {
                proof {
                    lemma_push_done(self.records(), before, n, level as nat, hash@);
                }
                break;
            }
        }
        Ok(first)
    }

    /// Appends a record: stores it and the hashes of the nodes that it
    /// completes; returns its id and leaf hash.
    fn append(&mut self, record: T) -> (r: Result<Record, LogError>)
        requires
            log_wf(old(self).records(), old(self).levels()),
            old(self).records().len() < u64::MAX,
        ensures
            r matches Ok(rec) ==> {
                &&& log_wf(final(self).records(), final(self).levels())
                &&& final(self).records() == old(self).records().push(record)
                &&& rec.id == old(self).records().len()
                &&& rec.hash@ == leaf_hash(record.encoding())
                &&& levels_extend(old(self).levels(), final(self).levels())
            },
            r is Err && old(self).infallible() ==> final(self).records() == old(self).records()
                && final(self).levels() == old(self).levels(),
            old(self).infallible() && record.encodable() ==> r is Ok,
            final(self).infallible() == old(self).infallible(),
    {
        let h = hash(&record)?;
        let id = self.add(record)?;
        proof {
            lemma_halve_zero(0);
        }
        self.push_hash(0, h.clone())?;
        Ok(Record { id, hash: h })
    }

    /// The size of the log and its root, folded from the rightmost node of
    /// each level whose node count is odd.
    fn latest(&self) -> (r: Result<LogTree, LogError>)
        requires
            log_wf(self.records(), self.levels()),
        ensures
            r matches Ok(t) ==> t.size == self.records().len() && t.hash@ == log_root(self.records()),
            r matches Err(e) ==> self.read_errors().contains(e),
            self.infallible() ==> r is Ok,
    {
        let n = self.size()?;
        let sizes = tree_sizes(n);
        let ghost sv = sizes_view(sizes@);
        let mut acc = String::new();
        let mut k: usize = 0;
        while k < sizes.len()
            invariant
                n == self.records().len(),
                log_wf(self.records(), self.levels()),
                sv == sizes_view(sizes@),
                sv == level_sizes(n as nat),
                0 <= k <= sizes.len(),
                acc@ == frontier_fold(self.levels(), n as nat, k as nat),
            decreases sizes.len() - k,
        {
            assert(sv.len() == sizes@.len());
            assert(level_sizes(n as nat)[k as int] == halve(n as nat, k as nat));
            assert(sv[k as int] == sizes@[k as int]);
            if sizes[k] % 2 == 1 {
                proof {
                    lemma_halve_positive(n as nat, k as nat);
                    assert(self.levels()[k as int].len() == halve(n as nat, k as nat));
                }
                let f = self.get_hash(k, sizes[k] - 1)?;
                if acc.as_str().is_empty() {
                    acc = f;
                } else {
                    acc = hash_two_strings(f.as_str(), acc.as_str());
                }
            }
            k = k + 1;
        }
        proof {
            assert(sv.len() == sizes@.len());
            assert(level_sizes(n as nat).len() == tree_height(n as nat));
            assert(k == tree_height(n as nat));
            if n > 0 {
                lemma_leaves_root(self.records(), self.levels());
            }
        }
        Ok(LogTree { size: n, hash: acc })
    }

    /// The stored hashes at those of the positions that lie inside the tree.
    fn proofs(&self, positions: &Vec<LogTreePosition>) -> (r: Result<ProofMap, LogError>)
        requires
            log_wf(self.records(), self.levels()),
        ensures
            r matches Ok(m) ==> m.wf() && m@ == stored_nodes(self.levels()).restrict(
                position_set(positions@),
            ),
            r matches Err(e) ==> self.read_errors().contains(e),
            self.infallible() ==> r is Ok,
    {
        let n = self.size()?;
        let sizes = tree_sizes(n);
        let ghost sv = sizes_view(sizes@);
        let ghost stored = stored_nodes(self.levels());
        let mut m = ProofMap::new();
        let mut i: usize = 0;
        while i < positions.len()
            invariant
                n == self.records().len(),
                log_wf(self.records(), self.levels()),
                stored == stored_nodes(self.levels()),
                sv == sizes_view(sizes@),
                sv == level_sizes(n as nat),
                0 <= i <= positions.len(),
                m.wf(),
                m@ == stored.restrict(position_views(positions@).subrange(0, i as int).to_set()),
            decreases positions.len() - i,
        {
            let p = positions[i];
            let ghost before = position_views(positions@).subrange(0, i as int);
            assert(position_views(positions@).subrange(0, i + 1) =~= before.push(p@));
            proof {
                before.lemma_push_to_set_commute(p@);
                lemma_inside_is_stored(self.records(), self.levels(), p@);
            }
            assert(sv.len() == sizes@.len());
            if p.level < sizes.len() && p.index < sizes[p.level] {
                assert(level_sizes(n as nat)[p.level as int] == halve(n as nat, p.level as nat));
                assert(sv[p.level as int] == sizes@[p.level as int]);
                let h = self.get_hash(p.level, p.index)?;
                m.insert(p, h);
                assert(m@ =~= stored.restrict(before.push(p@).to_set()));
            } else {
                proof {
                    if p.level < sizes.len() {
                        assert(level_sizes(n as nat)[p.level as int] == halve(
                            n as nat,
                            p.level as nat,
                        ));
                        assert(sv[p.level as int] == sizes@[p.level as int]);
                    }
                }
                assert(m@ =~= stored.restrict(before.push(p@).to_set()));
            }
            i = i + 1;
        }
        assert(position_views(positions@).subrange(0, i as int) =~= position_views(positions@));
        Ok(m)
    }
}

} // verus!
