//! The claim membership cache: the member records of each claim, and the claims each
//! member record's entity belongs to.
use vstd::prelude::*;

verus! {

/// Member records by claim and member entity, and the (entity, claim) pairs known.
pub struct ClaimMembers<M> {
    members: Vec<(u64, i64, M)>,
    entity_claims: Vec<(u64, u64)>,
}

/// The keys of member entries.
pub open spec fn member_keys<M>(members: Seq<(u64, i64, M)>) -> Seq<(u64, i64)> {
    members.map_values(|e: (u64, i64, M)| (e.0, e.1))
}

/// The record of each key of a list of member entries.
pub open spec fn members_map<M>(members: Seq<(u64, i64, M)>) -> Map<(u64, i64), M> {
    Map::new(
        |k: (u64, i64)| member_keys(members).contains(k),
        |k: (u64, i64)| members[choose|i: int| 0 <= i < members.len() && member_keys(members)[i] == k].2,
    )
}

proof fn lemma_lookup<M>(members: Seq<(u64, i64, M)>, i: int)
    requires
        member_keys(members).no_duplicates(),
        0 <= i < members.len(),
    ensures
        members_map(members).contains_key((members[i].0, members[i].1)),
        members_map(members)[(members[i].0, members[i].1)] == members[i].2,
{
    let k = (members[i].0, members[i].1);
    assert(member_keys(members)[i] == k);
    let j = choose|j: int| 0 <= j < members.len() && member_keys(members)[j] == k;
    assert(member_keys(members)[j] == k);
}

impl<M> ClaimMembers<M> {
    /// The member record of each (claim, member entity).
    pub closed spec fn members_view(&self) -> Map<(u64, i64), M> {
        members_map(self.members@)
    }

    /// The (member entity, claim) pairs of the cache.
    pub closed spec fn claims_view(&self) -> Set<(u64, u64)> {
        self.entity_claims@.to_set()
    }

    /// No key is held twice.
    pub closed spec fn wf(&self) -> bool {
        &&& member_keys(self.members@).no_duplicates()
        &&& self.entity_claims@.no_duplicates()
    }

    /// An empty cache.
    pub fn new() -> (cache: Self)
        ensures
            cache.wf(),
            cache.members_view() == Map::<(u64, i64), M>::empty(),
            cache.claims_view() == Set::<(u64, u64)>::empty(),
    {
        let cache = ClaimMembers { members: Vec::new(), entity_claims: Vec::new() };
        assert(member_keys(cache.members@) =~= Seq::<(u64, i64)>::empty());
        assert(cache.members_view() =~= Map::<(u64, i64), M>::empty());
        assert(cache.claims_view() =~= Set::<(u64, u64)>::empty());
        cache
    }

    fn member_position(&self, claim: u64, entity_id: i64) -> (p: usize)
        requires
            self.wf(),
        ensures
            p <= self.members@.len(),
            p < self.members@.len() ==> self.members@[p as int].0 == claim && self.members@[p as int].1 == entity_id,
            p == self.members@.len() ==> !self.members_view().contains_key((claim, entity_id)),
    {
        let mut p: usize = 0;
        while p < self.members.len()
            invariant
                p <= self.members.len(),
                forall|j: int| 0 <= j < p ==> member_keys(self.members@)[j] != (claim, entity_id),
            decreases self.members.len() - p,
        {
            if self.members[p].0 == claim && self.members[p].1 == entity_id {
                return p;
            }
            assert(member_keys(self.members@)[p as int] == (self.members@[p as int].0, self.members@[p as int].1));
            p = p + 1;
        }
        p
    }

    /// Records `record` as the member `entity_id` of the claim `claim_entity_id`, and
    /// the claim among those of the entity.
    pub fn add_claim_member(&mut self, claim_entity_id: i64, entity_id: i64, record: M)
        requires
            old(self).wf(),
        ensures
            final(self).wf(),
            final(self).members_view() == old(self).members_view().insert(
                (claim_entity_id as u64, entity_id),
                record,
            ),
            final(self).claims_view() == old(self).claims_view().insert(
                (entity_id as u64, claim_entity_id as u64),
            ),
    {
        let claim = claim_entity_id as u64;
        let ghost before = self.members_view();
        let ghost old_members = self.members@;
        let p = self.member_position(claim, entity_id);
        if p < self.members.len() {
            self.members.set(p, (claim, entity_id, record));
            proof {
                let ks = member_keys(old_members);
                assert(member_keys(self.members@) =~= ks);
                assert(ks[p as int] == (claim, entity_id));
                assert forall|k: (u64, i64)| self.members_view().contains_key(k) implies #[trigger] self.members_view()[k]
                    == before.insert((claim, entity_id), record)[k] by {
                    let i = choose|i: int| 0 <= i < self.members@.len() && member_keys(self.members@)[i] == k;
                    lemma_lookup(self.members@, i);
                    if i != p {
                        assert(old_members[i] == self.members@[i]);
                        lemma_lookup(old_members, i);
                    }
                }
                assert(self.members_view() =~= before.insert((claim, entity_id), record));
            }
        } else {
            self.members.push((claim, entity_id, record));
            proof {
                let ks = member_keys(old_members);
                let ks2 = member_keys(self.members@);
                assert(ks2 =~= ks.push((claim, entity_id)));
                assert(!ks.contains((claim, entity_id)));
                assert forall|a: int, b: int| 0 <= a < b < ks2.len() implies ks2[a] != ks2[b] by {
                    assert(ks2[a] == ks[a]);
                    if b < ks.len() {
                        assert(ks2[b] == ks[b]);
                    }
                }
                assert forall|k: (u64, i64)| #[trigger] self.members_view().contains_key(k) == before.insert(
                    (claim, entity_id),
                    record,
                ).contains_key(k) by {
                    if ks2.contains(k) {
                        let i = choose|i: int| 0 <= i < ks2.len() && ks2[i] == k;
                        if i < ks.len() {
                            assert(ks[i] == k);
                        }
                    }
                    if ks.contains(k) {
                        let j = choose|j: int| 0 <= j < ks.len() && ks[j] == k;
                        assert(ks2[j] == k);
                    }
                    if k == (claim, entity_id) {
                        assert(ks2[ks.len() as int] == k);
                    }
                }
                assert forall|k: (u64, i64)| self.members_view().contains_key(k) implies #[trigger] self.members_view()[k]
                    == before.insert((claim, entity_id), record)[k] by {
                    let i = choose|i: int| 0 <= i < self.members@.len() && member_keys(self.members@)[i] == k;
                    lemma_lookup(self.members@, i);
                    if i < old_members.len() {
                        assert(ks[i] == k);
                        assert(old_members[i] == self.members@[i]);
                        lemma_lookup(old_members, i);
                    }
                }
                assert(self.members_view() =~= before.insert((claim, entity_id), record));
            }
        }
        let pair = (entity_id as u64, claim);
        let mut found = false;
        let mut i: usize = 0;
        while i < self.entity_claims.len()
            invariant
                i <= self.entity_claims.len(),
                found == exists|j: int| 0 <= j < i && self.entity_claims@[j] == pair,
            decreases self.entity_claims.len() - i,
        {
            if self.entity_claims[i].0 == pair.0 && self.entity_claims[i].1 == pair.1 {
                found = true;
            }
            i = i + 1;
        }
        let ghost pairs = self.entity_claims@;
        if !found {
            self.entity_claims.push(pair);
            proof {
                assert(!pairs.contains(pair));
                assert forall|a: int, b: int| 0 <= a < b < self.entity_claims@.len() implies self.entity_claims@[a]
                    != self.entity_claims@[b] by {
                    if b == pairs.len() {
                        assert(pairs.contains(self.entity_claims@[a]));
                    }
                }
                assert(self.entity_claims@ =~= pairs.push(pair));
                assert forall|x: (u64, u64)| #[trigger] self.entity_claims@.to_set().contains(x) == pairs.to_set().insert(
                    pair,
                ).contains(x) by {
                    if self.entity_claims@.contains(x) {
                        let i = choose|i: int| 0 <= i < self.entity_claims@.len() && self.entity_claims@[i] == x;
                        if i < pairs.len() {
                            assert(pairs[i] == x);
                        }
                    }
                    if pairs.contains(x) {
                        let j = choose|j: int| 0 <= j < pairs.len() && pairs[j] == x;
                        assert(self.entity_claims@[j] == x);
                    }
                    if x == pair {
                        assert(self.entity_claims@[pairs.len() as int] == x);
                    }
                }
                assert(self.entity_claims@.to_set() =~= pairs.to_set().insert(pair));
            }
        } else {
            assert(pairs.contains(pair));
            assert(pairs.to_set() =~= pairs.to_set().insert(pair));
        }
    }

    /// Drops the member `entity_id` from every claim, and the claim `claim_entity_id`
    /// from those of the entity.
    pub fn remove_claim_member(&mut self, claim_entity_id: i64, entity_id: i64)
        requires
            old(self).wf(),
        ensures
            final(self).wf(),
            final(self).members_view() == without_entity(old(self).members_view(), entity_id),
            final(self).claims_view() == old(self).claims_view().remove(
                (entity_id as u64, claim_entity_id as u64),
            ),
    {
        let ghost before = self.members_view();
        let ghost old_members = self.members@;
        let mut kept: Vec<(u64, i64, M)> = Vec::new();
        let mut rest: Vec<(u64, i64, M)> = Vec::new();
        std::mem::swap(&mut rest, &mut self.members);
        let ghost mut i: int = 0;
        while rest.len() > 0
            invariant
                0 <= i <= old_members.len(),
                rest@ == old_members.skip(i),
                member_keys(old_members).no_duplicates(),
                kept@ == old_members.take(i).filter(keeps_other::<M>(entity_id)),
            decreases rest.len(),
        {
            let e = rest.remove(0);
            proof {
                assert(e == old_members[i]);
                assert(old_members.take(i + 1) =~= old_members.take(i).push(e));
                old_members.take(i).lemma_filter_push(e, keeps_other::<M>(entity_id));
            }
            if e.1 != entity_id {
                kept.push(e);
            }
            proof {
                i = i + 1;
                assert(rest@ =~= old_members.skip(i));
            }
        }
        proof {
            assert(old_members.take(i) =~= old_members);
        }
        self.members = kept;
        proof {
            let pred = keeps_other::<M>(entity_id);
            let f = old_members.filter(pred);
            lemma_filter_keys(old_members, entity_id);
            let target = without_entity(before, entity_id);
            assert forall|k: (u64, i64)| #[trigger] self.members_view().contains_key(k) == target.contains_key(k) by {
                lemma_filter_key_membership(old_members, entity_id, k);
            }
            assert forall|k: (u64, i64)| self.members_view().contains_key(k) implies #[trigger] self.members_view()[k]
                == target[k] by {
                let j = choose|j: int| 0 <= j < f.len() && member_keys(f)[j] == k;
                lemma_lookup(f, j);
                lemma_filter_entry(old_members, entity_id, j);
                let i0 = choose|i0: int| 0 <= i0 < old_members.len() && old_members[i0] == f[j];
                lemma_lookup(old_members, i0);
            }
            assert(self.members_view() =~= target);
        }
        let pair = (entity_id as u64, claim_entity_id as u64);
        let mut p: usize = 0;
        while p < self.entity_claims.len() && !(self.entity_claims[p].0 == pair.0 && self.entity_claims[p].1 == pair.1)
            invariant
                p <= self.entity_claims.len(),
                forall|j: int| 0 <= j < p ==> self.entity_claims@[j] != pair,
            decreases self.entity_claims.len() - p,
        {
            p = p + 1;
        }
        let ghost pairs = self.entity_claims@;
        if p < self.entity_claims.len() {
            self.entity_claims.remove(p);
            proof {
                let after = self.entity_claims@;
                assert(after =~= pairs.remove(p as int));
                assert forall|a: int, b: int| 0 <= a < b < after.len() implies after[a] != after[b] by {
                    let a0 = if a < p { a } else { a + 1 };
                    let b0 = if b < p { b } else { b + 1 };
                    assert(after[a] == pairs[a0]);
                    assert(after[b] == pairs[b0]);
                }
                assert forall|x: (u64, u64)| #[trigger] after.to_set().contains(x) == pairs.to_set().remove(pair).contains(x) by {
                    if after.contains(x) {
                        let m = choose|m: int| 0 <= m < after.len() && after[m] == x;
                        let m0 = if m < p { m } else { m + 1 };
                        assert(pairs[m0] == x);
                        assert(m0 != p);
                    }
                    if pairs.contains(x) && x != pair {
                        let m = choose|m: int| 0 <= m < pairs.len() && pairs[m] == x;
                        assert(m != p);
                        let m1 = if m < p { m } else { m - 1 };
                        assert(after[m1] == x);
                    }
                }
                assert(after.to_set() =~= pairs.to_set().remove(pair));
            }
        } else {
            proof {
                assert(!pairs.contains(pair));
                assert(pairs.to_set() =~= pairs.to_set().remove(pair));
            }
        }
    }

    /// The member entities of the claim `claim`, each once.
    pub fn member_ids(&self, claim: u64) -> (ids: Vec<i64>)
        requires
            self.wf(),
        ensures
            ids@.no_duplicates(),
            forall|e: i64| #[trigger] ids@.contains(e) <==> self.members_view().contains_key((claim, e)),
    {
        let mut ids: Vec<i64> = Vec::new();
        let mut i: usize = 0;
        while i < self.members.len()
            invariant
                i <= self.members.len(),
                self.wf(),
                ids@.no_duplicates(),
                forall|e: i64| #[trigger] ids@.contains(e) <==> member_keys(self.members@).take(i as int).contains((claim, e)),
            decreases self.members.len() - i,
        {
            let ghost ks = member_keys(self.members@);
            let ghost next = ks.take(i + 1);
            let ghost prev = ks.take(i as int);
            proof {
                assert(next =~= prev.push(ks[i as int]));
                assert(ks[i as int] == (self.members@[i as int].0, self.members@[i as int].1));
            }
            let ghost before = ids@;
            if self.members[i].0 == claim {
                let e = self.members[i].1;
                proof {
                    assert(!before.contains(e)) by {
                        if before.contains(e) {
                            assert(prev.contains((claim, e)));
                            let m = choose|m: int| 0 <= m < i && prev[m] == (claim, e);
                            assert(ks[m] == ks[i as int]);
                        }
                    }
                }
                ids.push(e);
                proof {
                    assert forall|a: int, b: int| 0 <= a < b < ids@.len() implies ids@[a] != ids@[b] by {
                        if b == before.len() {
                            assert(before.contains(ids@[a]));
                        }
                    }
                    assert forall|x: i64| #[trigger] ids@.contains(x) <==> next.contains((claim, x)) by {
                        if ids@.contains(x) && x != e {
                            let m = choose|m: int| 0 <= m < ids@.len() && ids@[m] == x;
                            assert(before[m] == x);
                        }
                        if next.contains((claim, x)) {
                            let m = choose|m: int| 0 <= m < i + 1 && next[m] == (claim, x);
                            if m < i {
                                assert(prev[m] == (claim, x));
                            }
                        }
                        if before.contains(x) {
                            let m = choose|m: int| 0 <= m < before.len() && before[m] == x;
                            assert(ids@[m] == x);
                        }
                        if prev.contains((claim, x)) {
                            let m = choose|m: int| 0 <= m < i && prev[m] == (claim, x);
                            assert(next[m] == (claim, x));
                        }
                        if x == e {
                            assert(ids@[before.len() as int] == x);
                            assert(next[i as int] == (claim, x));
                        }
                    }
                }
            } else {
                proof {
                    assert forall|x: i64| #[trigger] ids@.contains(x) <==> next.contains((claim, x)) by {
                        if next.contains((claim, x)) {
                            let m = choose|m: int| 0 <= m < i + 1 && next[m] == (claim, x);
                            assert(m != i);
                            assert(prev[m] == (claim, x));
                        }
                        if prev.contains((claim, x)) {
                            let m = choose|m: int| 0 <= m < i && prev[m] == (claim, x);
                            assert(next[m] == (claim, x));
                        }
                    }
                }
            }
            i = i + 1;
        }
        assert(member_keys(self.members@).take(i as int) =~= member_keys(self.members@));
        ids
    }

    /// The record of the member `entity_id` of the claim `claim`, if any.
    pub fn member(&self, claim: u64, entity_id: i64) -> (record: Option<&M>)
        requires
            self.wf(),
        ensures
            match record {
                Some(r) => self.members_view().contains_key((claim, entity_id)) && *r == self.members_view()[(claim, entity_id)],
                None => !self.members_view().contains_key((claim, entity_id)),
            },
    {
        let p = self.member_position(claim, entity_id);
        if p < self.members.len() {
            proof {
                lemma_lookup(self.members@, p as int);
            }
            Some(&self.members[p].2)
        } else {
            None
        }
    }

    /// The claims of the member entity `entity_id`, each once.
    pub fn claims_of(&self, entity_id: i64) -> (claims: Vec<u64>)
        requires
            self.wf(),
        ensures
            claims@.no_duplicates(),
            forall|c: u64| #[trigger] claims@.contains(c) <==> self.claims_view().contains((entity_id as u64, c)),
    {
        let key = entity_id as u64;
        let mut claims: Vec<u64> = Vec::new();
        let mut i: usize = 0;
        while i < self.entity_claims.len()
            invariant
                i <= self.entity_claims.len(),
                self.wf(),
                key == entity_id as u64,
                claims@.no_duplicates(),
                forall|c: u64| #[trigger] claims@.contains(c) <==> self.entity_claims@.take(i as int).contains((key, c)),
            decreases self.entity_claims.len() - i,
        {
            let ghost ps = self.entity_claims@;
            let ghost next = ps.take(i + 1);
            let ghost prev = ps.take(i as int);
            let ghost before = claims@;
            let pr = self.entity_claims[i];
            if pr.0 == key {
                proof {
                    assert(!before.contains(pr.1)) by {
                        if before.contains(pr.1) {
                            let m = choose|m: int| 0 <= m < i && prev[m] == (key, pr.1);
                            assert(ps[m] == ps[i as int]);
                        }
                    }
                }
                claims.push(pr.1);
                proof {
                    assert forall|a: int, b: int| 0 <= a < b < claims@.len() implies claims@[a] != claims@[b] by {
                        if b == before.len() {
                            assert(before.contains(claims@[a]));
                        }
                    }
                }
            }
            proof {
                assert forall|c: u64| #[trigger] claims@.contains(c) <==> next.contains((key, c)) by {
                    if claims@.contains(c) && !before.contains(c) {
                        assert(next[i as int] == (key, c));
                    }
                    if before.contains(c) {
                        let m = choose|m: int| 0 <= m < before.len() && before[m] == c;
                        assert(claims@[m] == c);
                        let q = choose|q: int| 0 <= q < i && prev[q] == (key, c);
                        assert(next[q] == (key, c));
                    }
                    if next.contains((key, c)) {
                        let m = choose|m: int| 0 <= m < i + 1 && next[m] == (key, c);
                        if m < i {
                            assert(prev[m] == (key, c));
                        } else {
                            assert(claims@[claims@.len() - 1] == c);
                        }
                    }
                }
            }
            i = i + 1;
        }
        assert(self.entity_claims@.take(i as int) =~= self.entity_claims@);
        claims
    }
}

proof fn lemma_filter_keys<M>(members: Seq<(u64, i64, M)>, entity_id: i64)
    requires
        member_keys(members).no_duplicates(),
    ensures
        member_keys(members.filter(keeps_other::<M>(entity_id))).no_duplicates(),
    decreases members.len(),
{
    reveal(Seq::filter);
    if members.len() > 0 {
        let init = members.drop_last();
        assert(member_keys(init) =~= member_keys(members).drop_last());
        lemma_filter_keys(init, entity_id);
        let f = init.filter(keeps_other::<M>(entity_id));
        let x = members.last();
        if x.1 != entity_id {
            let g = f.push(x);
            assert(member_keys(g) =~= member_keys(f).push((x.0, x.1)));
            assert forall|a: int, b: int| 0 <= a < b < member_keys(g).len() implies member_keys(g)[a] != member_keys(g)[b] by {
                if b == f.len() {
                    lemma_filter_entry(init, entity_id, a);
                    let i0 = choose|i0: int| 0 <= i0 < init.len() && init[i0] == f[a];
                    assert(member_keys(members)[i0] == member_keys(g)[a]);
                    assert(member_keys(members)[members.len() - 1] == (x.0, x.1));
                } else {
                    assert(member_keys(g)[a] == member_keys(f)[a]);
                    assert(member_keys(g)[b] == member_keys(f)[b]);
                }
            }
        }
    }
}

proof fn lemma_filter_entry<M>(members: Seq<(u64, i64, M)>, entity_id: i64, j: int)
    requires
        0 <= j < members.filter(keeps_other::<M>(entity_id)).len(),
    ensures
        exists|i0: int| 0 <= i0 < members.len() && members[i0] == members.filter(keeps_other::<M>(entity_id))[j],
        members.filter(keeps_other::<M>(entity_id))[j].1 != entity_id,
{
    let f = members.filter(keeps_other::<M>(entity_id));
    assert(f.contains(f[j]));
    members.lemma_filter_contains_rev(keeps_other::<M>(entity_id), f[j]);
    broadcast use vstd::seq_lib::group_filter_ensures;
}

proof fn lemma_filter_key_membership<M>(members: Seq<(u64, i64, M)>, entity_id: i64, k: (u64, i64))
    ensures
        member_keys(members.filter(keeps_other::<M>(entity_id))).contains(k) == (member_keys(members).contains(k)
            && k.1 != entity_id),
{
    let pred = keeps_other::<M>(entity_id);
    let f = members.filter(pred);
    if member_keys(f).contains(k) {
        let j = choose|j: int| 0 <= j < f.len() && member_keys(f)[j] == k;
        lemma_filter_entry(members, entity_id, j);
        let i0 = choose|i0: int| 0 <= i0 < members.len() && members[i0] == f[j];
        assert(member_keys(members)[i0] == k);
    }
    if member_keys(members).contains(k) && k.1 != entity_id {
        let i0 = choose|i0: int| 0 <= i0 < members.len() && member_keys(members)[i0] == k;
        assert(pred(members[i0]));
        members.lemma_filter_contains(pred, i0);
        let j = choose|j: int| 0 <= j < f.len() && f[j] == members[i0];
        assert(member_keys(f)[j] == k);
    }
}

/// Entries of a member other than `entity_id`.
pub open spec fn keeps_other<M>(entity_id: i64) -> spec_fn((u64, i64, M)) -> bool {
    |e: (u64, i64, M)| e.1 != entity_id
}

/// The member records left when the entity `entity_id` leaves every claim.
pub open spec fn without_entity<M>(members: Map<(u64, i64), M>, entity_id: i64) -> Map<(u64, i64), M> {
    members.restrict(members.dom().filter(|k: (u64, i64)| k.1 != entity_id))
}

/// Adding a member record and then removing it leaves the cache as removing it alone
/// would: the entity is a member of no claim, and the (entity, claim) pair is gone.
pub proof fn lemma_remove_undoes_add<M>(
    members: Map<(u64, i64), M>,
    claims: Set<(u64, u64)>,
    claim_entity_id: i64,
    entity_id: i64,
    record: M,
)
    ensures
        without_entity(members.insert((claim_entity_id as u64, entity_id), record), entity_id)
            == without_entity(members, entity_id),
        forall|c: u64|
            !#[trigger] without_entity(members.insert((claim_entity_id as u64, entity_id), record), entity_id).contains_key(
                (c, entity_id),
            ),
        claims.insert((entity_id as u64, claim_entity_id as u64)).remove((entity_id as u64, claim_entity_id as u64))
            == claims.remove((entity_id as u64, claim_entity_id as u64)),
{
    let added = members.insert((claim_entity_id as u64, entity_id), record);
    assert(without_entity(added, entity_id) =~= without_entity(members, entity_id));
    let pair = (entity_id as u64, claim_entity_id as u64);
    assert(claims.insert(pair).remove(pair) =~= claims.remove(pair));
}

} // verus!
