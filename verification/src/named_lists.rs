//! Ranked lists gathered by name: the lists of one page, ordered by name, where the
//! rows of lists that share a name are joined in the order the lists came.
use crate::text::{
    lemma_text_le_antisymmetric, lemma_text_le_total, lemma_text_le_transitive, same_text, text_less, text_lt,
};
use crate::top_lists::{name_of, numbered_row, rows_with_names, value_rows, with_name, ListKind, NamedRows, RankType};
use vstd::prelude::*;

verus! {

/// The rows of the first `n` lists named `name`, joined in order.
pub open spec fn rows_named(lists: Seq<NamedRows>, name: Seq<char>, n: int) -> Seq<RankType>
    decreases n,
{
    if n <= 0 {
        Seq::empty()
    } else if lists[n - 1].name@ == name {
        rows_named(lists, name, n - 1) + lists[n - 1].rows@
    } else {
        rows_named(lists, name, n - 1)
    }
}

/// One of the first `n` lists is named `name`.
pub open spec fn has_name(lists: Seq<NamedRows>, name: Seq<char>, n: int) -> bool {
    exists|j: int| 0 <= j < n && (#[trigger] lists[j]).name@ == name
}

/// `out` gathers the first `n` lists by name: its names increase strictly, are those
/// of the first `n` lists, and each comes with the rows of the lists of that name,
/// joined in order.
pub open spec fn gathered(out: Seq<NamedRows>, lists: Seq<NamedRows>, n: int) -> bool {
    &&& forall|i: int, j: int| 0 <= i < j < out.len() ==> text_lt(#[trigger] out[i].name@, #[trigger] out[j].name@)
    &&& forall|k: int| 0 <= k < out.len() ==> has_name(lists, #[trigger] out[k].name@, n)
    &&& forall|j: int| 0 <= j < n ==> exists|k: int| 0 <= k < out.len() && (#[trigger] out[k]).name@ == (#[trigger] lists[j]).name@
    &&& forall|k: int| 0 <= k < out.len() ==> (#[trigger] out[k]).rows@ == rows_named(lists, out[k].name@, n)
}

proof fn lemma_rows_named_none(lists: Seq<NamedRows>, name: Seq<char>, n: int)
    requires
        !has_name(lists, name, n),
    ensures
        rows_named(lists, name, n) == Seq::<RankType>::empty(),
    decreases n,
{
    if n > 0 {
        assert(lists[n - 1].name@ != name);
        assert(!has_name(lists, name, n - 1)) by {
            if has_name(lists, name, n - 1) {
                let j = choose|j: int| 0 <= j < n - 1 && (#[trigger] lists[j]).name@ == name;
                assert(lists[j].name@ == name);
            }
        }
        lemma_rows_named_none(lists, name, n - 1);
    }
}

/// The lists gathered by name (see `gathered`): the lists come out ordered by name,
/// and the rows of lists sharing a name are joined, in the order the lists came.
pub fn gather_by_name(lists: Vec<NamedRows>) -> (out: Vec<NamedRows>)
    ensures
        gathered(out@, lists@, lists@.len() as int),
{
    let ghost all = lists@;
    let count = lists.len();
    let mut rest = lists;
    let mut out: Vec<NamedRows> = Vec::new();
    let mut n: usize = 0;
    while rest.len() > 0
        invariant
            n + rest@.len() == all.len(),
            all.len() == count,
            rest@ == all.skip(n as int),
            gathered(out@, all, n as int),
        decreases rest@.len(),
    {
        let mut item = rest.remove(0);
        assert(item == all[n as int]);
        let ghost name = item.name@;
        let mut p: usize = 0;
        while p < out.len() && text_less(out[p].name.as_str(), item.name.as_str())
            invariant
                p <= out@.len(),
                forall|q: int| 0 <= q < p ==> text_lt(#[trigger] out@[q].name@, name),
                name == item.name@,
            decreases out@.len() - p,
        {
            p = p + 1;
        }
        let ghost before = out@;
        if p < out.len() && same_text(out[p].name.as_str(), item.name.as_str()) {
            let mut entry = out.remove(p);
            entry.rows.append(&mut item.rows);
            out.insert(p, entry);
            proof {
                assert(out@ == before.update(p as int, entry));
                assert forall|i: int, j: int| 0 <= i < j < out@.len() implies text_lt(
                    #[trigger] out@[i].name@,
                    #[trigger] out@[j].name@,
                ) by {
                    assert(before[i].name@ == out@[i].name@);
                    assert(before[j].name@ == out@[j].name@);
                }
                assert forall|k: int| 0 <= k < out@.len() implies has_name(all, #[trigger] out@[k].name@, n + 1) by {
                    assert(out@[k].name@ == before[k].name@);
                    let j = choose|j: int| 0 <= j < n && (#[trigger] all[j]).name@ == before[k].name@;
                    assert(all[j].name@ == out@[k].name@);
                }
                assert forall|j: int| 0 <= j < n + 1 implies exists|k: int|
                    0 <= k < out@.len() && (#[trigger] out@[k]).name@ == (#[trigger] all[j]).name@ by {
                    if j == n {
                        assert(out@[p as int].name@ == all[j].name@);
                    } else {
                        let k = choose|k: int| 0 <= k < before.len() && (#[trigger] before[k]).name@ == all[j].name@;
                        assert(out@[k].name@ == before[k].name@);
                    }
                }
                assert forall|k: int| 0 <= k < out@.len() implies (#[trigger] out@[k]).rows@ == rows_named(
                    all,
                    out@[k].name@,
                    n + 1,
                ) by {
                    if k != p {
                        assert(before[k].name@ != name) by {
                            if k < p {
                                assert(text_lt(before[k].name@, before[p as int].name@));
                            } else {
                                assert(text_lt(before[p as int].name@, before[k].name@));
                            }
                        }
                    }
                }
            }
        } else {
            out.insert(p, item);
            proof {
                assert(out@ == before.insert(p as int, item));
                assert forall|j: int| p <= j < before.len() implies text_lt(name, #[trigger] before[j].name@) by {
                    let first = before[p as int].name@;
                    assert(!text_lt(first, name));
                    assert(first != name);
                    lemma_text_le_total(first, name);
                    if j > p {
                        assert(text_lt(first, before[j].name@));
                        lemma_text_le_transitive(name, first, before[j].name@);
                        if name == before[j].name@ {
                            lemma_text_le_antisymmetric(first, name);
                        }
                    }
                }
                assert(!has_name(all, name, n as int)) by {
                    if has_name(all, name, n as int) {
                        let j = choose|j: int| 0 <= j < n && (#[trigger] all[j]).name@ == name;
                        let k = choose|k: int| 0 <= k < before.len() && (#[trigger] before[k]).name@ == all[j].name@;
                        if k < p {
                            assert(text_lt(before[k].name@, name));
                        } else {
                            assert(text_lt(name, before[k].name@));
                        }
                    }
                }
                lemma_rows_named_none(all, name, n as int);
                assert(rows_named(all, name, n + 1) =~= item.rows@);
                assert forall|i: int, j: int| 0 <= i < j < out@.len() implies text_lt(
                    #[trigger] out@[i].name@,
                    #[trigger] out@[j].name@,
                ) by {
                    if i < p && j > p {
                        assert(text_lt(before[i].name@, name));
                        assert(text_lt(name, before[j - 1].name@));
                        lemma_text_le_transitive(before[i].name@, name, before[j - 1].name@);
                        if before[i].name@ == before[j - 1].name@ {
                            lemma_text_le_antisymmetric(before[i].name@, name);
                        }
                    } else if j < p {
                        assert(out@[i] == before[i] && out@[j] == before[j]);
                    } else if i > p {
                        assert(out@[i] == before[i - 1] && out@[j] == before[j - 1]);
                    }
                }
                assert forall|k: int| 0 <= k < out@.len() implies has_name(all, #[trigger] out@[k].name@, n + 1) by {
                    if k == p {
                        assert(all[n as int].name@ == name);
                    } else {
                        let b = if k < p { k } else { k - 1 };
                        assert(out@[k] == before[b]);
                        let j = choose|j: int| 0 <= j < n && (#[trigger] all[j]).name@ == before[b].name@;
                        assert(all[j].name@ == out@[k].name@);
                    }
                }
                assert forall|j: int| 0 <= j < n + 1 implies exists|k: int|
                    0 <= k < out@.len() && (#[trigger] out@[k]).name@ == (#[trigger] all[j]).name@ by {
                    if j == n {
                        assert(out@[p as int].name@ == all[j].name@);
                    } else {
                        let k = choose|k: int| 0 <= k < before.len() && (#[trigger] before[k]).name@ == all[j].name@;
                        if k < p {
                            assert(out@[k] == before[k]);
                        } else {
                            assert(out@[k + 1] == before[k]);
                        }
                    }
                }
                assert forall|k: int| 0 <= k < out@.len() implies (#[trigger] out@[k]).rows@ == rows_named(
                    all,
                    out@[k].name@,
                    n + 1,
                ) by {
                    if k < p {
                        assert(out@[k] == before[k]);
                        assert(text_lt(before[k].name@, name));
                    } else if k > p {
                        assert(out@[k] == before[k - 1]);
                        assert(text_lt(name, before[k - 1].name@));
                    }
                }
            }
        }
        proof {
            assert(rest@ =~= all.skip(n + 1));
        }
        n = n + 1;
    }
    proof {
        assert(n == all.len());
    }
    out
}

/// `lists` are the fetched lists with their rows numbered from 1 (see `numbered_row`)
/// and named after their players: `fetched[l]` is a list's name, its kind, and its
/// (player, value) pairs in ranked order.
pub open spec fn named_lists_of(
    fetched: Seq<(String, ListKind, Vec<(i64, i64)>)>,
    names: Seq<(i64, String)>,
    lists: Seq<NamedRows>,
) -> bool {
    &&& lists.len() == fetched.len()
    &&& forall|l: int|
        0 <= l < fetched.len() ==> {
            let (name, kind, entries) = fetched[l];
            &&& (#[trigger] lists[l]).name@ == name@
            &&& lists[l].rows@.len() == entries@.len()
            &&& forall|r: int|
                0 <= r < entries@.len() ==> #[trigger] lists[l].rows@[r] == with_name(
                    numbered_row(kind, r, entries@[r].0, entries@[r].1),
                    name_of(names, entries@[r].0),
                )
        }
}

/// The ranked lists of a claim's members: `None` when the claim has no members;
/// otherwise the fetched lists (see `named_lists_of`), gathered by name.
pub fn get_claim_leaderboard(
    member_ids: &Vec<i64>,
    fetched: Vec<(String, ListKind, Vec<(i64, i64)>)>,
    names: &Vec<(i64, String)>,
) -> (result: Option<Vec<NamedRows>>)
    ensures
        result is None <==> member_ids@.len() == 0,
        result matches Some(out) ==> exists|lists: Seq<NamedRows>|
            named_lists_of(fetched@, names@, lists) && gathered(out@, lists, lists.len() as int),
{
    if member_ids.len() == 0 {
        return None;
    }
    let ghost all = fetched@;
    let count = fetched.len();
    let mut rest = fetched;
    let mut lists: Vec<NamedRows> = Vec::new();
    let mut l: usize = 0;
    while rest.len() > 0
        invariant
            l + rest@.len() == all.len(),
            all.len() == count,
            rest@ == all.skip(l as int),
            lists@.len() == l,
            named_lists_of(all.take(l as int), names@, lists@),
        decreases rest@.len(),
    {
        let (name, kind, entries) = rest.remove(0);
        assert((name, kind, entries) == all[l as int]);
        let rows = value_rows(kind, &entries);
        let named = rows_with_names(rows, names);
        let ghost before = lists@;
        lists.push(NamedRows { name, rows: named });
        proof {
            assert(rest@ =~= all.skip(l + 1));
            let taken = all.take(l + 1);
            assert forall|m: int| 0 <= m < taken.len() implies {
                let (n, k, e) = taken[m];
                &&& (#[trigger] lists@[m]).name@ == n@
                &&& lists@[m].rows@.len() == e@.len()
                &&& forall|r: int|
                    0 <= r < e@.len() ==> #[trigger] lists@[m].rows@[r] == with_name(
                        numbered_row(k, r, e@[r].0, e@[r].1),
                        name_of(names@, e@[r].0),
                    )
            } by {
                if m < l {
                    assert(taken[m] == all.take(l as int)[m]);
                    assert(lists@[m] == before[m]);
                } else {
                    assert(taken[m] == all[l as int]);
                }
            }
        }
        l = l + 1;
    }
    proof {
        assert(all.take(l as int) =~= all);
    }
    let out = gather_by_name(lists);
    Some(out)
}

} // verus!
