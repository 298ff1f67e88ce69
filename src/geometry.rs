//! Pure functions over tree sizes: how many nodes each level holds, and
//! which node positions prove inclusion of a record or that one tree is a
//! prefix of another.
use vstd::prelude::*;

use crate::error::LogError;
use vstd::arithmetic::power2::{lemma_pow2_pos, lemma_pow2_unfold, pow2};
use crate::position::{LogHeight, LogSize, LogTreePosition};

verus! {

/// `x` halved `k` times, rounding down (`x >> k`).
pub open spec fn halve(x: nat, k: nat) -> nat
    decreases k,
{
    if k == 0 {
        x
    } else {
        halve(x, (k - 1) as nat) / 2
    }
}

/// Number of binary digits of `x` (0 for 0).
pub open spec fn bit_length(x: nat) -> nat
    decreases x,
{
    if x == 0 {
        0
    } else {
        1 + bit_length(x / 2)
    }
}

/// Number of levels of a tree over `n` leaves: 0 for the empty tree,
/// otherwise one more than the number of halvings that bring `n` down to one
/// leaf, rounding up (`1 + ceil(log2(n))`).
pub open spec fn tree_height(n: nat) -> nat {
    if n == 0 {
        0
    } else {
        1 + bit_length((n - 1) as nat)
    }
}

/// Node count at each level of a tree over `n` leaves: level `k` holds
/// `n >> k` complete nodes.
pub open spec fn level_sizes(n: nat) -> Seq<nat> {
    Seq::new(tree_height(n), |k: int| halve(n, k as nat))
}

/// The values of a vector of sizes, as natural numbers.
pub open spec fn sizes_view(v: Seq<u64>) -> Seq<nat> {
    v.map_values(|x: u64| x as nat)
}

/// Size of each level of the tree for a log of the given size.
pub fn tree_sizes(size: u64) -> (r: Vec<u64>)
    ensures
        sizes_view(r@) == level_sizes(size as nat),
{
    let mut v: Vec<u64> = Vec::new();
    if size > 0 {
        let mut sz: u64 = size;
        let mut rem: u64 = size - 1;
        v.push(sz);
        while rem > 0
            invariant
                1 <= v.len(),
                sz as nat == halve(size as nat, (v.len() - 1) as nat),
                rem as nat == halve((size - 1) as nat, (v.len() - 1) as nat),
                v.len() + bit_length(rem as nat) == tree_height(size as nat),
                forall|k: int| 0 <= k < v.len() ==> v@[k] as nat == halve(size as nat, k as nat),
            decreases rem,
        {
            sz = sz / 2;
            rem = rem / 2;
            v.push(sz);
        }
        assert(bit_length(rem as nat) == 0);
    }
    assert(sizes_view(v@) =~= level_sizes(size as nat));
    v
}


/// Looking below the missing node `(level, index)`, the first node
/// `(l, index * 2^(level - l))`, `l` going down from `level - 1`, that is
/// complete in a tree with the given level sizes.
pub open spec fn descend(sizes: Seq<nat>, level: nat, index: nat) -> Option<(nat, nat)>
    decreases level,
{
    if level == 0 || sizes.len() < level {
        None
    } else if index * 2 < sizes[level - 1] {
        Some(((level - 1) as nat, index * 2))
    } else {
        descend(sizes, (level - 1) as nat, index * 2)
    }
}

/// The position that an inclusion proof holds for the path node
/// `(level, index)`: its left sibling, its right sibling, or, where the right
/// sibling is not complete, the first complete node below it.
pub open spec fn sibling_proof(sizes: Seq<nat>, level: nat, index: nat) -> Option<(nat, nat)> {
    if index % 2 == 1 {
        Some((level, (index - 1) as nat))
    } else if index + 1 < sizes[level as int] {
        Some((level, index + 1))
    } else {
        descend(sizes, level, index + 1)
    }
}

/// The positions that an inclusion proof holds for the path node
/// `(level, index)` and all the path nodes above it.
pub open spec fn inclusion_from(sizes: Seq<nat>, level: nat, index: nat) -> Set<(nat, nat)>
    decreases sizes.len() - level,
{
    let here = option_set(sibling_proof(sizes, level, index));
    if level + 1 < sizes.len() {
        here + inclusion_from(sizes, level + 1, index / 2)
    } else {
        here
    }
}

/// Positions whose hashes, with the leaf `i`, give the root of a tree of
/// size `n`.
pub open spec fn inclusion_positions(i: nat, n: nat) -> Set<(nat, nat)> {
    if n == 0 {
        Set::empty()
    } else {
        inclusion_from(level_sizes(n), 0, i)
    }
}

/// The views of a sequence of positions.
pub open spec fn position_views(v: Seq<LogTreePosition>) -> Seq<(nat, nat)> {
    v.map_values(|p: LogTreePosition| p@)
}

/// The positions that a vector of positions holds.
pub open spec fn position_set(v: Seq<LogTreePosition>) -> Set<(nat, nat)> {
    position_views(v).to_set()
}

/// A vector of positions with no position twice.
pub open spec fn distinct_positions(v: Seq<LogTreePosition>) -> bool {
    position_views(v).no_duplicates()
}

/// The set that holds the position if there is one.
pub open spec fn option_set(o: Option<(nat, nat)>) -> Set<(nat, nat)> {
    match o {
        Some(p) => set![p],
        None => Set::empty(),
    }
}

/// Adds a position to a vector of distinct positions, unless it is there.
fn insert_position(v: &mut Vec<LogTreePosition>, p: LogTreePosition)
    requires
        distinct_positions(old(v)@),
    ensures
        distinct_positions(final(v)@),
        position_set(final(v)@) == position_set(old(v)@).insert(p@),
{
    let ghost pv = p@;
    let mut found = false;
    let mut i: usize = 0;
    while i < v.len() && !found
        invariant
            0 <= i <= v.len(),
            pv == p@,
            found ==> position_views(v@).contains(pv),
            !found ==> forall|k: int| 0 <= k < i ==> v@[k]@ != pv,
        decreases v.len() - i,
    {
        if v[i].level == p.level && v[i].index == p.index {
            assert(position_views(v@)[i as int] == pv);
            found = true;
        }
        i = i + 1;
    }
    if found {
        assert(position_set(v@) =~= position_set(v@).insert(pv));
    } else {
        let ghost before = v@;
        v.push(p);
        assert(position_views(v@) =~= position_views(before).push(pv));
        assert(!position_views(before).contains(pv));
        proof {
            position_views(before).lemma_push_to_set_commute(pv);
        }
        assert(position_set(v@) =~= position_set(before).insert(pv));
    }
}

/// Each level size is half the one below it, rounding down.
pub open spec fn halving(sizes: Seq<nat>) -> bool {
    forall|k: int| 0 <= k && k + 1 < sizes.len() ==> #[trigger] sizes[k + 1] == sizes[k] / 2
}

proof fn lemma_descend_beyond(sizes: Seq<nat>, level: nat, index: nat)
    requires
        index * 2 > u64::MAX,
        forall|k: int| 0 <= k < sizes.len() ==> sizes[k] <= u64::MAX,
    ensures
        descend(sizes, level, index) is None,
    decreases level,
{
    if level > 0 && sizes.len() >= level {
        lemma_descend_beyond(sizes, (level - 1) as nat, index * 2);
    }
}

/// One level of an inclusion proof: adds the position that proves the path
/// node `(level, index)`, then goes on with the levels above it.
fn proof_step(
    level: LogHeight,
    index: LogSize,
    size: LogSize,
    sizes: &Vec<LogSize>,
    proof: &mut Vec<LogTreePosition>,
)
    requires
        level < sizes.len(),
        size == sizes@[level as int],
        halving(sizes_view(sizes@)),
        distinct_positions(old(proof)@),
    ensures
        distinct_positions(final(proof)@),
        position_set(final(proof)@) == position_set(old(proof)@) + inclusion_from(
            sizes_view(sizes@),
            level as nat,
            index as nat,
        ),
    decreases sizes.len() - level,
{
    let ghost sv = sizes_view(sizes@);
    let ghost start = position_set(proof@);
    assert(sv[level as int] == size);
    if index % 2 == 0 {
        if index + 1 < size {
            insert_position(proof, LogTreePosition { level, index: index + 1 });
        } else {
            let mut new_level: LogHeight = level;
            let mut new_index: LogSize = index + 1;
            assert(forall|k: int| 0 <= k < sv.len() ==> sv[k] <= u64::MAX);
            loop
                invariant_except_break
                    position_set(proof@) == start,
                    descend(sv, level as nat, index as nat + 1) == descend(
                        sv,
                        new_level as nat,
                        new_index as nat,
                    ),
                invariant
                    new_level <= level < sizes.len(),
                    sv == sizes_view(sizes@),
                    forall|k: int| 0 <= k < sv.len() ==> sv[k] <= u64::MAX,
                    distinct_positions(proof@),
                ensures
                    position_set(proof@) == start + option_set(
                        descend(sv, level as nat, index as nat + 1),
                    ),
                decreases new_level,
            {
                if new_level == 0 {
                    assert(position_set(proof@) =~= start + option_set(
                        descend(sv, level as nat, index as nat + 1),
                    ));
                    break;
                }
                if new_index > u64::MAX / 2 {
                    proof {
                        lemma_descend_beyond(sv, new_level as nat, new_index as nat);
                    }
                    assert(position_set(proof@) =~= start + option_set(
                        descend(sv, level as nat, index as nat + 1),
                    ));
                    break;
                }
                new_level = new_level - 1;
                new_index = new_index * 2;
                if new_index < sizes[new_level] {
                    insert_position(proof, LogTreePosition { level: new_level, index: new_index });
                    assert(position_set(proof@) =~= start + option_set(
                        descend(sv, level as nat, index as nat + 1),
                    ));
                    break;
                }
            }
        }
    } else {
        insert_position(proof, LogTreePosition { level, index: index - 1 });
    }
    assert(position_set(proof@) =~= start + option_set(sibling_proof(sv, level as nat, index as nat)));
    if level < sizes.len() - 1 {
        assert(sv[level + 1] == sv[level as int] / 2);
        proof_step(level + 1, index / 2, size / 2, sizes, proof);
        assert(position_set(proof@) =~= start + inclusion_from(sv, level as nat, index as nat));
    }
}

/// Positions whose hashes, with the record at `index`, suffice to recompute
/// the root of a log of the given size.
pub fn proof_positions(index: LogSize, size: LogSize) -> (r: Vec<LogTreePosition>)
    ensures
        distinct_positions(r@),
        position_set(r@) == inclusion_positions(index as nat, size as nat),
{
    let sizes = tree_sizes(size);
    let mut proof: Vec<LogTreePosition> = Vec::new();
    assert(position_set(proof@) =~= Set::empty());
    if sizes.len() == 0 {
        return proof;
    }
    assert(halving(sizes_view(sizes@)));
    assert(sizes_view(sizes@).len() == sizes@.len());
    assert(tree_height(size as nat) > 0);
    assert(size > 0);
    assert(level_sizes(size as nat)[0] == halve(size as nat, 0));
    assert(sizes_view(sizes@)[0] == size);
    proof_step(0, index, size, &sizes, &mut proof);
    assert(position_set(proof@) =~= inclusion_positions(index as nat, size as nat));
    proof
}


/// The first level below the top whose node count is odd, from level `k`
/// up, as the position of its last node.
pub open spec fn first_odd_level(sizes: Seq<nat>, k: nat) -> Option<(nat, nat)>
    decreases sizes.len() - k,
{
    if k + 1 >= sizes.len() {
        None
    } else if sizes[k as int] % 2 == 1 {
        Some((k, (sizes[k as int] - 1) as nat))
    } else {
        first_odd_level(sizes, k + 1)
    }
}

/// Positions whose hashes show that the tree of size `m` is a prefix of the
/// tree of size `n` (for `0 < m < n`).
pub open spec fn consistency_positions(m: nat, n: nat) -> Set<(nat, nat)> {
    inclusion_positions(m, n) + inclusion_positions((m - 1) as nat, n) + option_set(
        first_odd_level(level_sizes(n), 0),
    )
}

/// Positions needed to show that a tree of `size1` records is a prefix of a
/// tree of `size2` records; `Precondition` unless `0 < size1 < size2`.
pub fn prefix_proof_positions(size1: LogSize, size2: LogSize) -> (r: Result<
    Vec<LogTreePosition>,
    LogError,
>)
    ensures
        r is Err <==> !(0 < size1 < size2),
        r is Err ==> r == Err::<Vec<LogTreePosition>, LogError>(LogError::Precondition),
        r matches Ok(v) ==> distinct_positions(v@) && position_set(v@) == consistency_positions(
            size1 as nat,
            size2 as nat,
        ),
{
    if size1 == 0 || size1 >= size2 {
        return Err(LogError::Precondition);
    }
    let mut proof = proof_positions(size1, size2);
    let other = proof_positions(size1 - 1, size2);
    let ghost first = position_set(proof@);
    let mut i: usize = 0;
    while i < other.len()
        invariant
            0 < size1 < size2,
            first == inclusion_positions(size1 as nat, size2 as nat),
            position_set(other@) == inclusion_positions((size1 - 1) as nat, size2 as nat),
            0 <= i <= other.len(),
            distinct_positions(proof@),
            position_set(proof@) == first + position_views(other@).subrange(0, i as int).to_set(),
        decreases other.len() - i,
    {
        insert_position(&mut proof, other[i]);
        assert(position_views(other@).subrange(0, i + 1) =~= position_views(other@).subrange(
            0,
            i as int,
        ).push(other@[i as int]@));
        proof {
            position_views(other@).subrange(0, i as int).lemma_push_to_set_commute(other@[i as int]@);
        }
        assert(position_set(proof@) =~= first + position_views(other@).subrange(0, i + 1).to_set());
        i = i + 1;
    }
    assert(position_views(other@).subrange(0, i as int) =~= position_views(other@));
    let sizes = tree_sizes(size2);
    let ghost sv = sizes_view(sizes@);
    let ghost middle = position_set(proof@);
    let m = sizes.len() - 1;
    let mut ix: usize = 0;
    while ix < m
        invariant
            0 < size1 < size2,
            middle == inclusion_positions(size1 as nat, size2 as nat) + inclusion_positions(
                (size1 - 1) as nat,
                size2 as nat,
            ),
            sv == level_sizes(size2 as nat),
            m + 1 == sizes.len(),
            sv == sizes_view(sizes@),
            0 <= ix <= m,
            distinct_positions(proof@),
            position_set(proof@) == middle,
            first_odd_level(sv, 0) == first_odd_level(sv, ix as nat),
        decreases m - ix,
    {
        if sizes[ix] % 2 == 1 {
            assert(sv[ix as int] == sizes@[ix as int]);
            insert_position(&mut proof, LogTreePosition { level: ix, index: sizes[ix] - 1 });
            assert(position_set(proof@) =~= middle + option_set(first_odd_level(sv, 0)));
            return Ok(proof);
        }
        ix = ix + 1;
    }
    assert(position_set(proof@) =~= middle + option_set(first_odd_level(sv, 0)));
    Ok(proof)
}

/// Halving `k` times divides by `2^k`.
pub proof fn lemma_halve_div(x: nat, k: nat)
    ensures
        halve(x, k) == x / pow2(k),
    decreases k,
{
    lemma_pow2_pos(k);
    if k > 0 {
        let p = pow2((k - 1) as nat);
        lemma_halve_div(x, (k - 1) as nat);
        lemma_pow2_unfold(k);
        lemma_pow2_pos((k - 1) as nat);
        vstd::arithmetic::div_mod::lemma_div_denominator(x as int, p as int, 2);
        assert(halve(x, k) == halve(x, (k - 1) as nat) / 2);
        assert(p * 2 == pow2(k));
    } else {
        vstd::arithmetic::power2::lemma_pow2(0);
        vstd::arithmetic::power::lemma_pow0(2);
    }
}

/// A number is below two to the power of its bit length.
pub proof fn lemma_below_pow2(x: nat)
    ensures
        x < pow2(bit_length(x)),
    decreases x,
{
    lemma_pow2_pos(bit_length(x));
    if x > 0 {
        lemma_below_pow2(x / 2);
        lemma_pow2_unfold(bit_length(x));
    }
}

/// A number of at least one is at least two to the power of one less than
/// its bit length.
pub proof fn lemma_above_pow2(x: nat)
    requires
        x >= 1,
    ensures
        pow2((bit_length(x) - 1) as nat) <= x,
    decreases x,
{
    if x >= 2 {
        lemma_above_pow2(x / 2);
        assert(bit_length(x) == 1 + bit_length(x / 2));
        assert(bit_length(x / 2) >= 1);
        lemma_pow2_unfold(bit_length(x / 2));
        assert(pow2(bit_length(x / 2)) == 2 * pow2((bit_length(x / 2) - 1) as nat));
    } else {
        assert(bit_length(x) == 1 + bit_length(x / 2));
        assert(bit_length(0) == 0);
        vstd::arithmetic::power2::lemma_pow2(0);
        vstd::arithmetic::power::lemma_pow0(2);
    }
}

/// Level sizes: none for the empty log; otherwise the log size first, each
/// next one half the one before it, rounding down, and as many levels as it
/// takes for `2^(levels - 1)` to reach the log size.
pub proof fn lemma_level_sizes(n: nat)
    ensures
        n == 0 ==> level_sizes(n).len() == 0,
        n > 0 ==> level_sizes(n).len() > 0 && level_sizes(n)[0] == n,
        forall|k: int|
            0 <= k && k + 1 < level_sizes(n).len() ==> #[trigger] level_sizes(n)[k + 1] == level_sizes(
                n,
            )[k] / 2,
        n > 0 ==> n <= pow2((level_sizes(n).len() - 1) as nat),
        n > 1 ==> pow2((level_sizes(n).len() - 2) as nat) < n,
{
    let s = level_sizes(n);
    if n > 0 {
        assert(s[0] == halve(n, 0));
        lemma_below_pow2((n - 1) as nat);
    }
    if n > 1 {
        lemma_above_pow2((n - 1) as nat);
    }
    assert forall|k: int| 0 <= k && k + 1 < s.len() implies #[trigger] s[k + 1] == s[k] / 2 by {
        assert(halve(n, (k + 1) as nat) == halve(n, k as nat) / 2);
    }
}

proof fn lemma_descend_none(sizes: Seq<nat>, level: nat, index: nat)
    requires
        forall|l: int| 0 <= l < level && l < sizes.len() ==> sizes[l] <= index * pow2((level - l) as nat),
    ensures
        descend(sizes, level, index) is None,
    decreases level,
{
    if level > 0 && sizes.len() >= level {
        lemma_pow2_unfold(1);
        vstd::arithmetic::power2::lemma_pow2(0);
        vstd::arithmetic::power::lemma_pow0(2);
        assert(sizes[level - 1] <= index * pow2(1));
        assert forall|l: int| 0 <= l < level - 1 && l < sizes.len() implies sizes[l] <= (index * 2)
            * pow2((level - 1 - l) as nat) by {
            lemma_pow2_unfold((level - l) as nat);
            assert(index * pow2((level - l) as nat) == (index * 2) * pow2((level - 1 - l) as nat))
                by (nonlinear_arith)
                requires
                    pow2((level - l) as nat) == 2 * pow2((level - 1 - l) as nat),
            ;
        }
        lemma_descend_none(sizes, (level - 1) as nat, index * 2);
    }
}

/// At the top level of a tree, an inclusion proof of a record of the tree
/// holds nothing.
proof fn lemma_top_level_empty(i: nat, n: nat)
    requires
        i < n,
    ensures
        sibling_proof(level_sizes(n), (tree_height(n) - 1) as nat, halve(i, (tree_height(n) - 1) as nat))
            is None,
{
    let sizes = level_sizes(n);
    let top = (tree_height(n) - 1) as nat;
    lemma_level_sizes(n);
    lemma_halve_div(i, top);
    lemma_halve_div(n, top);
    lemma_pow2_pos(top);
    vstd::arithmetic::div_mod::lemma_div_is_ordered(n as int, pow2(top) as int, pow2(top) as int);
    vstd::arithmetic::div_mod::lemma_div_by_self(pow2(top) as int);
    vstd::arithmetic::div_mod::lemma_basic_div(i as int, pow2(top) as int);
    assert(sizes[top as int] == halve(n, top));
    assert forall|l: int| 0 <= l < top && l < sizes.len() implies sizes[l] <= 1 * pow2((top - l) as nat) by {
        let d = (top - l) as nat;
        lemma_halve_div(n, l as nat);
        lemma_pow2_pos(l as nat);
        lemma_pow2_pos(d);
        vstd::arithmetic::power2::lemma_pow2_adds(l as nat, d);
        assert(sizes[l] == halve(n, l as nat));
        vstd::arithmetic::div_mod::lemma_div_is_ordered(n as int, (pow2(l as nat) * pow2(d)) as int, pow2(l as nat) as int);
        vstd::arithmetic::div_mod::lemma_div_multiples_vanish(pow2(d) as int, pow2(l as nat) as int);
        assert(pow2(d) * pow2(l as nat) == pow2(l as nat) * pow2(d)) by (nonlinear_arith);
    }
    lemma_descend_none(sizes, top, 1);
}

proof fn lemma_inclusion_from_size(i: nat, n: nat, l: nat)
    requires
        i < n,
        l < tree_height(n),
    ensures
        inclusion_from(level_sizes(n), l, halve(i, l)).finite(),
        inclusion_from(level_sizes(n), l, halve(i, l)).len() <= tree_height(n) - 1 - l,
    decreases tree_height(n) - l,
{
    let sizes = level_sizes(n);
    let here = option_set(sibling_proof(sizes, l, halve(i, l)));
    assert(here.finite() && here.len() <= 1) by {
        match sibling_proof(sizes, l, halve(i, l)) {
            Some(p) => {
                assert(set![p].len() == 1);
            },
            None => {},
        }
    }
    if l + 1 < sizes.len() {
        assert(halve(i, l + 1) == halve(i, l) / 2);
        lemma_inclusion_from_size(i, n, l + 1);
        let rest = inclusion_from(sizes, l + 1, halve(i, l) / 2);
        vstd::set_lib::lemma_len_union(here, rest);
    } else {
        lemma_top_level_empty(i, n);
    }
}

/// Inclusion minimality: an inclusion proof for a record of a log of `n`
/// records holds at most `ceil(log2(n))` positions.
pub proof fn lemma_inclusion_size(i: nat, n: nat)
    requires
        i < n,
    ensures
        inclusion_positions(i, n).finite(),
        inclusion_positions(i, n).len() <= bit_length((n - 1) as nat),
{
    lemma_inclusion_from_size(i, n, 0);
}

/// The next multiple of `2^k` above `x`'s rounded-down one lies past `x`.
pub proof fn lemma_next_multiple(x: nat, k: nat)
    ensures
        (halve(x, k) + 1) * pow2(k) > x,
{
    let h = halve(x, k);
    let p = pow2(k);
    lemma_halve_div(x, k);
    lemma_pow2_pos(k);
    vstd::arithmetic::div_mod::lemma_fundamental_div_mod(x as int, p as int);
    vstd::arithmetic::div_mod::lemma_mod_bound(x as int, p as int);
    let rem = x % p;
    assert(x == p * h + rem);
    assert((h + 1) * p > x) by (nonlinear_arith)
        requires
            x == p * h + rem,
            rem < p,
    ;
}

/// Each level's sibling proof of the path of leaf `i` is among its
/// inclusion positions.
pub proof fn lemma_sibling_included(i: nat, n: nat, l: nat)
    requires
        l < tree_height(n),
    ensures
        option_set(sibling_proof(level_sizes(n), l, halve(i, l))).subset_of(inclusion_positions(i, n)),
{
    lemma_sibling_from(i, n, 0, l);
}

proof fn lemma_sibling_from(i: nat, n: nat, l0: nat, l: nat)
    requires
        l0 <= l < tree_height(n),
    ensures
        option_set(sibling_proof(level_sizes(n), l, halve(i, l))).subset_of(
            inclusion_from(level_sizes(n), l0, halve(i, l0)),
        ),
    decreases l - l0,
{
    if l0 < l {
        assert(halve(i, l0 + 1) == halve(i, l0) / 2);
        lemma_sibling_from(i, n, l0 + 1, l);
    }
}

/// The bit length grows with the number.
pub proof fn lemma_bit_length_monotone(x: nat, y: nat)
    requires
        x <= y,
    ensures
        bit_length(x) <= bit_length(y),
{
    if bit_length(x) > 0 {
        crate::levels::lemma_halve_positive(x, (bit_length(x) - 1) as nat);
        crate::levels::lemma_halve_monotone(x, y, (bit_length(x) - 1) as nat);
        crate::levels::lemma_halve_positive(y, (bit_length(x) - 1) as nat);
    }
}

} // verus!
