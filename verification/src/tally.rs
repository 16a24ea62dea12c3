//! Sums of counters kept in ordered count maps, and the facts about them that the
//! leaderboard needs: how a sum changes when one counter moves, and how a sum of
//! per-group counters relates to the size of the grouped set.
use vstd::prelude::*;

verus! {

broadcast use vstd::set::group_set_axioms, vstd::set_lib::group_set_lib_default;

/// Adds one counter to a running total.
pub open spec fn add_count(m: Map<i64, usize>) -> spec_fn(nat, i64) -> nat {
    |acc: nat, k: i64| acc + m[k] as nat
}

/// Sum of the counters of `m` at the keys in `keys`.
pub open spec fn tally(m: Map<i64, usize>, keys: Set<i64>) -> nat {
    keys.fold(0nat, add_count(m))
}

/// Sum of all counters of `m`.
pub open spec fn total(m: Map<i64, usize>) -> nat {
    tally(m, m.dom())
}

pub proof fn lemma_add_count_commutes(m: Map<i64, usize>)
    ensures
        vstd::set::fold::is_fun_commutative(add_count(m)),
{
    assert forall|a1: i64, a2: i64, b: nat|
        #[trigger] add_count(m)(add_count(m)(b, a2), a1) == add_count(m)(add_count(m)(b, a1), a2) by {}
}

pub proof fn lemma_tally_empty(m: Map<i64, usize>)
    ensures
        tally(m, Set::empty()) == 0,
{
    vstd::set::fold::lemma_fold_empty(0nat, add_count(m));
}

pub proof fn lemma_tally_insert(m: Map<i64, usize>, keys: Set<i64>, k: i64)
    requires
        keys.finite(),
        !keys.contains(k),
    ensures
        tally(m, keys.insert(k)) == tally(m, keys) + m[k],
{
    lemma_add_count_commutes(m);
    vstd::set::fold::lemma_fold_insert(keys, 0nat, add_count(m), k);
}

pub proof fn lemma_tally_remove(m: Map<i64, usize>, keys: Set<i64>, k: i64)
    requires
        keys.finite(),
        keys.contains(k),
    ensures
        tally(m, keys) == tally(m, keys.remove(k)) + m[k],
{
    assert(keys.remove(k).insert(k) =~= keys);
    lemma_tally_insert(m, keys.remove(k), k);
}

/// The sum only depends on the counters at the summed keys.
pub proof fn lemma_tally_agree(m1: Map<i64, usize>, m2: Map<i64, usize>, keys: Set<i64>)
    requires
        keys.finite(),
        forall|k: i64| keys.contains(k) ==> m1[k] == m2[k],
    ensures
        tally(m1, keys) == tally(m2, keys),
    decreases keys.len(),
{
    if keys.len() == 0 {
        assert(keys =~= Set::empty());
        lemma_tally_empty(m1);
        lemma_tally_empty(m2);
    } else {
        let k = keys.choose();
        lemma_tally_remove(m1, keys, k);
        lemma_tally_remove(m2, keys, k);
        lemma_tally_agree(m1, m2, keys.remove(k));
    }
}

/// Summing over fewer keys gives no more.
pub proof fn lemma_tally_subset(m: Map<i64, usize>, small: Set<i64>, big: Set<i64>)
    requires
        big.finite(),
        small.subset_of(big),
    ensures
        tally(m, small) <= tally(m, big),
    decreases big.len(),
{
    if big.len() == 0 {
        assert(small =~= Set::empty());
        assert(big =~= Set::empty());
    } else {
        let k = big.choose();
        lemma_tally_remove(m, big, k);
        if small.contains(k) {
            lemma_tally_remove(m, small, k);
            lemma_tally_subset(m, small.remove(k), big.remove(k));
        } else {
            lemma_tally_subset(m, small, big.remove(k));
        }
    }
}

/// One counter is at most the sum of all of them.
pub proof fn lemma_count_le_total(m: Map<i64, usize>, k: i64)
    requires
        m.dom().finite(),
        m.dom().contains(k),
    ensures
        m[k] <= total(m),
{
    lemma_tally_empty(m);
    lemma_tally_insert(m, Set::empty(), k);
    assert(Set::<i64>::empty().insert(k).subset_of(m.dom()));
    lemma_tally_subset(m, Set::empty().insert(k), m.dom());
}

/// Sum of the counters listed in a sequence of entries.
pub open spec fn entries_sum(entries: Seq<(i64, usize)>) -> nat
    decreases entries.len(),
{
    if entries.len() == 0 {
        0
    } else {
        entries_sum(entries.drop_last()) + entries.last().1 as nat
    }
}

/// The keys of a sequence of entries.
pub open spec fn entry_keys(entries: Seq<(i64, usize)>) -> Set<i64> {
    Set::new(|k: i64| exists|i: int| 0 <= i < entries.len() && entries[i].0 == k)
}

/// Entries with distinct keys that agree with `m` sum to the tally of their keys.
pub proof fn lemma_entries_sum_is_tally(m: Map<i64, usize>, entries: Seq<(i64, usize)>)
    requires
        forall|i: int, j: int| 0 <= i < j < entries.len() ==> entries[i].0 != entries[j].0,
        forall|i: int| 0 <= i < entries.len() ==> m[entries[i].0] == entries[i].1,
    ensures
        entry_keys(entries).finite(),
        entries_sum(entries) == tally(m, entry_keys(entries)),
    decreases entries.len(),
{
    if entries.len() == 0 {
        assert(entry_keys(entries) =~= Set::empty());
        lemma_tally_empty(m);
    } else {
        let prefix = entries.drop_last();
        lemma_entries_sum_is_tally(m, prefix);
        let last = entries.last();
        assert(entry_keys(entries) =~= entry_keys(prefix).insert(last.0)) by {
            assert forall|k: i64| entry_keys(entries).contains(k) implies
                entry_keys(prefix).insert(last.0).contains(k) by {
                let i = choose|i: int| 0 <= i < entries.len() && entries[i].0 == k;
                if i < entries.len() - 1 {
                    assert(prefix[i].0 == k);
                }
            }
            assert forall|k: i64| entry_keys(prefix).insert(last.0).contains(k) implies
                entry_keys(entries).contains(k) by {
                if k == last.0 {
                    assert(entries[entries.len() - 1].0 == k);
                } else {
                    let i = choose|i: int| 0 <= i < prefix.len() && prefix[i].0 == k;
                    assert(entries[i].0 == k);
                }
            }
        }
        assert(!entry_keys(prefix).contains(last.0)) by {
            if entry_keys(prefix).contains(last.0) {
                let i = choose|i: int| 0 <= i < prefix.len() && prefix[i].0 == last.0;
                assert(entries[i].0 == entries[entries.len() - 1].0);
            }
        }
        lemma_tally_insert(m, entry_keys(prefix), last.0);
    }
}

/// Members whose group is `k`.
pub open spec fn group_members<A>(members: Set<A>, group: spec_fn(A) -> i64, k: i64) -> Set<A> {
    members.filter(|a: A| group(a) == k)
}

/// Members whose group is one of `keys`.
pub open spec fn members_in_groups<A>(members: Set<A>, group: spec_fn(A) -> i64, keys: Set<i64>) -> Set<A> {
    members.filter(|a: A| keys.contains(group(a)))
}

/// When each key's counter is the number of members of a group, and groups at distinct
/// keys are disjoint, the sum of the counters over a set of keys is the size of the
/// union of those groups.
pub proof fn lemma_tally_counts_groups<A>(
    m: Map<i64, usize>,
    keys: Set<i64>,
    members: Set<A>,
    group: spec_fn(A) -> i64,
)
    requires
        keys.finite(),
        members.finite(),
        forall|k: i64| keys.contains(k) ==> m[k] == #[trigger] group_members(members, group, k).len(),
    ensures
        tally(m, keys) == members_in_groups(members, group, keys).len(),
    decreases keys.len(),
{
    if keys.len() == 0 {
        assert(keys =~= Set::empty());
        lemma_tally_empty(m);
        assert(members_in_groups(members, group, keys) =~= Set::empty());
    } else {
        let k = keys.choose();
        let rest = keys.remove(k);
        lemma_tally_remove(m, keys, k);
        lemma_tally_counts_groups(m, rest, members, group);
        let in_rest = members_in_groups(members, group, rest);
        let at_k = group_members(members, group, k);
        assert(members_in_groups(members, group, keys) =~= in_rest.union(at_k));
        assert(in_rest.disjoint(at_k));
        vstd::set_lib::lemma_set_disjoint_lens(in_rest, at_k);
    }
}

} // verus!
