//! Which game tables a download fetches: tables are grouped by the suffix of their
//! name, and the subcommand picks the groups.
use crate::text::texts;
use vstd::prelude::*;

verus! {

/// What the download command fetches.
#[derive(Debug, Clone, Copy, PartialEq, Eq)]
pub enum DownloadSubcommand {
    All,
    State,
    Desc,
    Rest,
    Schema,
}

/// The group of a table.
#[derive(Debug, Clone, Copy, PartialEq, Eq, Structural)]
pub enum TableGroup {
    Desc,
    State,
    Rest,
}

/// `name` ends with `suffix`.
pub open spec fn ends_with(name: Seq<char>, suffix: Seq<char>) -> bool {
    name.len() >= suffix.len() && name.skip(name.len() - suffix.len()) == suffix
}

/// The group of the table `name`: descriptions end in `_desc`, states in `_state`, and
/// the rest is the rest.
pub open spec fn group_of(name: Seq<char>) -> TableGroup {
    if ends_with(name, "_desc"@) {
        TableGroup::Desc
    } else if ends_with(name, "_state"@) {
        TableGroup::State
    } else {
        TableGroup::Rest
    }
}

fn text_ends_with(name: &str, suffix: &str) -> (ends: bool)
    ensures
        ends == ends_with(name@, suffix@),
{
    let n = name.unicode_len();
    let m = suffix.unicode_len();
    if m > n {
        return false;
    }
    let start = n - m;
    let mut i: usize = 0;
    while i < m
        invariant
            n == name@.len(),
            m == suffix@.len(),
            start == n - m,
            i <= m,
            forall|j: int| 0 <= j < i ==> name@[start + j] == suffix@[j],
        decreases m - i,
    {
        if name.get_char(start + i) != suffix.get_char(i) {
            assert(name@.skip(start as int)[i as int] == name@[start + i]);
            return false;
        }
        i = i + 1;
    }
    assert(name@.skip(start as int) =~= suffix@);
    true
}

/// The group of the table `name` (see `group_of`).
pub fn table_group(name: &str) -> (group: TableGroup)
    ensures
        group == group_of(name@),
{
    proof {
        reveal_strlit("_desc");
        reveal_strlit("_state");
    }
    if text_ends_with(name, "_desc") {
        TableGroup::Desc
    } else if text_ends_with(name, "_state") {
        TableGroup::State
    } else {
        TableGroup::Rest
    }
}

/// The table names of the schema split by group, each name once, in order of first
/// appearance.
pub fn classify_tables(names: &Vec<String>) -> (groups: (Vec<String>, Vec<String>, Vec<String>))
    ensures
        texts(groups.0@).no_duplicates(),
        texts(groups.1@).no_duplicates(),
        texts(groups.2@).no_duplicates(),
        forall|t: Seq<char>|
            #[trigger] texts(groups.0@).contains(t) <==> texts(names@).contains(t) && group_of(t) == TableGroup::Desc,
        forall|t: Seq<char>|
            #[trigger] texts(groups.1@).contains(t) <==> texts(names@).contains(t) && group_of(t) == TableGroup::State,
        forall|t: Seq<char>|
            #[trigger] texts(groups.2@).contains(t) <==> texts(names@).contains(t) && group_of(t) == TableGroup::Rest,
{
    let mut desc: Vec<String> = Vec::new();
    let mut state: Vec<String> = Vec::new();
    let mut rest: Vec<String> = Vec::new();
    let mut i: usize = 0;
    while i < names.len()
        invariant
            i <= names.len(),
            texts(desc@).no_duplicates(),
            texts(state@).no_duplicates(),
            texts(rest@).no_duplicates(),
            forall|t: Seq<char>|
                #[trigger] texts(desc@).contains(t) <==> texts(names@).take(i as int).contains(t) && group_of(t)
                    == TableGroup::Desc,
            forall|t: Seq<char>|
                #[trigger] texts(state@).contains(t) <==> texts(names@).take(i as int).contains(t) && group_of(t)
                    == TableGroup::State,
            forall|t: Seq<char>|
                #[trigger] texts(rest@).contains(t) <==> texts(names@).take(i as int).contains(t) && group_of(t)
                    == TableGroup::Rest,
        decreases names.len() - i,
    {
        let name = &names[i];
        let ghost x = name@;
        proof {
            assert(texts(names@)[i as int] == x);
            assert(texts(names@).take(i + 1) =~= texts(names@).take(i as int).push(x));
            assert forall|t: Seq<char>| #[trigger] texts(names@).take(i + 1).contains(t) <==> (texts(names@).take(
                i as int,
            ).contains(t) || t == x) by {
                let pre = texts(names@).take(i as int);
                let post = texts(names@).take(i + 1);
                if post.contains(t) {
                    let m = choose|m: int| 0 <= m < post.len() && post[m] == t;
                    if m < pre.len() {
                        assert(pre[m] == t);
                    }
                }
                if pre.contains(t) {
                    let m = choose|m: int| 0 <= m < pre.len() && pre[m] == t;
                    assert(post[m] == t);
                }
                if t == x {
                    assert(post[i as int] == t);
                }
            }
        }
        let group = table_group(name.as_str());
        match group {
            TableGroup::Desc => add_once(&mut desc, name),
            TableGroup::State => add_once(&mut state, name),
            TableGroup::Rest => add_once(&mut rest, name),
        }
        i = i + 1;
    }
    assert(texts(names@).take(i as int) =~= texts(names@));
    (desc, state, rest)
}

fn add_once(list: &mut Vec<String>, name: &String)
    requires
        texts(old(list)@).no_duplicates(),
    ensures
        texts(final(list)@).no_duplicates(),
        forall|t: Seq<char>| #[trigger] texts(final(list)@).contains(t) <==> (texts(old(list)@).contains(t) || t == name@),
{
    let mut k: usize = 0;
    while k < list.len()
        invariant
            k <= list.len(),
            list@ == old(list)@,
            texts(list@).no_duplicates(),
            forall|j: int| 0 <= j < k ==> list@[j]@ != name@,
        decreases list.len() - k,
    {
        if list[k] == *name {
            proof {
                assert(texts(list@)[k as int] == name@);
                assert(texts(list@).contains(name@));
            }
            return;
        }
        k = k + 1;
    }
    let ghost before = list@;
    list.push(name.clone());
    proof {
        let v = texts(list@);
        let bv = texts(before);
        assert(v =~= bv.push(name@));
        assert(!bv.contains(name@)) by {
            if bv.contains(name@) {
                let m = choose|m: int| 0 <= m < bv.len() && bv[m] == name@;
                assert(before[m]@ == name@);
            }
        }
        assert forall|t: Seq<char>| #[trigger] v.contains(t) <==> (bv.contains(t) || t == name@) by {
            if v.contains(t) {
                let m = choose|m: int| 0 <= m < v.len() && v[m] == t;
                if m < bv.len() {
                    assert(bv[m] == t);
                }
            }
            if bv.contains(t) {
                let m = choose|m: int| 0 <= m < bv.len() && bv[m] == t;
                assert(v[m] == t);
            }
            if t == name@ {
                assert(v[v.len() - 1] == t);
            }
        }
        assert forall|a: int, b: int| 0 <= a < b < v.len() implies v[a] != v[b] by {
            assert(bv[a] == v[a]);
            if b < bv.len() {
                assert(bv[b] == v[b]);
            } else {
                assert(bv.contains(v[a]));
            }
        }
    }
}

/// The groups a subcommand downloads: descriptions, states, the rest, and the schema.
pub open spec fn downloads(command: DownloadSubcommand) -> (bool, bool, bool, bool) {
    match command {
        DownloadSubcommand::All => (true, true, true, false),
        DownloadSubcommand::Desc => (true, false, false, false),
        DownloadSubcommand::State => (false, true, false, false),
        DownloadSubcommand::Rest => (false, false, true, false),
        DownloadSubcommand::Schema => (false, false, false, true),
    }
}

/// The groups a subcommand downloads (see `downloads`).
pub fn download_plan(command: DownloadSubcommand) -> (plan: (bool, bool, bool, bool))
    ensures
        plan == downloads(command),
{
    match command {
        DownloadSubcommand::All => (true, true, true, false),
        DownloadSubcommand::Desc => (true, false, false, false),
        DownloadSubcommand::State => (false, true, false, false),
        DownloadSubcommand::Rest => (false, false, true, false),
        DownloadSubcommand::Schema => (false, false, false, true),
    }
}

} // verus!
