//! Live-update subscriptions: the connected clients, the topics each listens to, and
//! how many listeners each topic id has.
use crate::text::{decimal, format_i64, lemma_parse_undoes_format, parse_i64, parsed_i64, slice_text, texts};
use vstd::prelude::*;

verus! {

/// How a client wants its messages encoded.
#[derive(Debug, Clone, Copy, PartialEq, Eq)]
pub enum WebsocketEncoding {
    Json,
    Toml,
    Yaml,
    MessagePack,
}

/// The connected clients, their subscriptions (client, topic, id within the topic),
/// and the listener count of each topic id.
pub struct ClientsState {
    clients: Vec<(String, WebsocketEncoding)>,
    subscriptions: Vec<(String, String, i64)>,
    listener_counts: Vec<(String, i64, u64)>,
}

/// The client ids of a list of clients.
pub open spec fn client_ids(clients: Seq<(String, WebsocketEncoding)>) -> Seq<Seq<char>> {
    clients.map_values(|c: (String, WebsocketEncoding)| c.0@)
}

/// The encoding of each client of a list without repeated ids.
pub open spec fn clients_map(clients: Seq<(String, WebsocketEncoding)>) -> Map<Seq<char>, WebsocketEncoding> {
    Map::new(
        |id: Seq<char>| client_ids(clients).contains(id),
        |id: Seq<char>| clients[client_ids(clients).index_of(id)].1,
    )
}

/// The subscriptions of a list, by their views.
pub open spec fn subscription_views(subs: Seq<(String, String, i64)>) -> Seq<(Seq<char>, Seq<char>, i64)> {
    subs.map_values(|s: (String, String, i64)| (s.0@, s.1@, s.2))
}

/// The topic ids of a list of listener counts.
pub open spec fn counted_ids(counts: Seq<(String, i64, u64)>) -> Seq<(Seq<char>, i64)> {
    counts.map_values(|c: (String, i64, u64)| (c.0@, c.1))
}

/// The listener count of each topic id of a list without repeated topic ids.
pub open spec fn counts_map(counts: Seq<(String, i64, u64)>) -> Map<(Seq<char>, i64), u64> {
    Map::new(
        |k: (Seq<char>, i64)| counted_ids(counts).contains(k),
        |k: (Seq<char>, i64)| counts[counted_ids(counts).index_of(k)].2,
    )
}

/// Topic ids, by their views.
pub open spec fn topic_views(topics: Seq<(String, i64)>) -> Seq<(Seq<char>, i64)> {
    topics.map_values(|t: (String, i64)| (t.0@, t.1))
}

/// The listener count of `topic` and `topic_id`: 0 when none is held.
pub open spec fn count_of(counts: Map<(Seq<char>, i64), u64>, topic: Seq<char>, topic_id: i64) -> u64 {
    if counts.contains_key((topic, topic_id)) {
        counts[(topic, topic_id)]
    } else {
        0
    }
}

/// The subscriptions after `add_topic_to_client(id, topic, topic_id)`: the connected
/// client `id` joins the listeners of the topic id.
pub open spec fn subscriptions_after_add(
    clients: Map<Seq<char>, WebsocketEncoding>,
    subs: Set<(Seq<char>, Seq<char>, i64)>,
    id: Seq<char>,
    topic: Seq<char>,
    topic_id: i64,
) -> Set<(Seq<char>, Seq<char>, i64)> {
    if !subs.contains((id, topic, topic_id)) && clients.contains_key(id) {
        subs.insert((id, topic, topic_id))
    } else {
        subs
    }
}

/// The listener counts after `add_topic_to_client(id, topic, topic_id)`: one more for
/// the topic id, unless the client already listens to it.
pub open spec fn counts_after_add(
    subs: Set<(Seq<char>, Seq<char>, i64)>,
    counts: Map<(Seq<char>, i64), u64>,
    id: Seq<char>,
    topic: Seq<char>,
    topic_id: i64,
) -> Map<(Seq<char>, i64), u64> {
    if subs.contains((id, topic, topic_id)) {
        counts
    } else {
        counts.insert((topic, topic_id), (count_of(counts, topic, topic_id) + 1) as u64)
    }
}

/// The listener counts after `remove_topic_from_client(_, topic, topic_id)`: one less
/// for the topic id, unless its count is 0 or missing.
pub open spec fn counts_after_remove(
    counts: Map<(Seq<char>, i64), u64>,
    topic: Seq<char>,
    topic_id: i64,
) -> Map<(Seq<char>, i64), u64> {
    if counts.contains_key((topic, topic_id)) && counts[(topic, topic_id)] > 0 {
        counts.insert((topic, topic_id), (counts[(topic, topic_id)] - 1) as u64)
    } else {
        counts
    }
}

proof fn lemma_index_of_unique<A>(s: Seq<A>, i: int)
    requires
        s.no_duplicates(),
        0 <= i < s.len(),
    ensures
        s.contains(s[i]),
        s.index_of(s[i]) == i,
{
    assert(s.contains(s[i]));
    let j = s.index_of(s[i]);
    assert(s[j] == s[i]);
}

proof fn lemma_counts_map_update(counts: Seq<(String, i64, u64)>, i: int, entry: (String, i64, u64))
    requires
        counted_ids(counts).no_duplicates(),
        0 <= i < counts.len(),
        entry.0@ == counts[i].0@,
        entry.1 == counts[i].1,
    ensures
        counted_ids(counts.update(i, entry)) == counted_ids(counts),
        counts_map(counts.update(i, entry)) == counts_map(counts).insert((entry.0@, entry.1), entry.2),
{
    let after = counts.update(i, entry);
    assert(counted_ids(after) =~= counted_ids(counts));
    let ids = counted_ids(counts);
    lemma_index_of_unique(ids, i);
    assert forall|k: (Seq<char>, i64)| #[trigger] counts_map(after).contains_key(k) implies counts_map(after)[k]
        == counts_map(counts).insert((entry.0@, entry.1), entry.2)[k] by {
        let j = ids.index_of(k);
        lemma_index_of_unique(ids, j);
    }
    assert(counts_map(after) =~= counts_map(counts).insert((entry.0@, entry.1), entry.2));
}

proof fn lemma_counts_map_push(counts: Seq<(String, i64, u64)>, entry: (String, i64, u64))
    requires
        counted_ids(counts).no_duplicates(),
        !counted_ids(counts).contains((entry.0@, entry.1)),
    ensures
        counted_ids(counts.push(entry)) == counted_ids(counts).push((entry.0@, entry.1)),
        counted_ids(counts.push(entry)).no_duplicates(),
        counts_map(counts.push(entry)) == counts_map(counts).insert((entry.0@, entry.1), entry.2),
{
    let after = counts.push(entry);
    let ids = counted_ids(after);
    assert(ids =~= counted_ids(counts).push((entry.0@, entry.1)));
    assert(ids.no_duplicates()) by {
        assert forall|a: int, b: int| 0 <= a < b < ids.len() implies ids[a] != ids[b] by {
            if b == ids.len() - 1 {
                assert(counted_ids(counts)[a] == ids[a]);
            } else {
                assert(counted_ids(counts)[a] == ids[a]);
                assert(counted_ids(counts)[b] == ids[b]);
            }
        }
    }
    assert forall|k: (Seq<char>, i64)| #[trigger] counts_map(after).contains_key(k) implies counts_map(after)[k]
        == counts_map(counts).insert((entry.0@, entry.1), entry.2)[k] by {
        let j = ids.index_of(k);
        lemma_index_of_unique(ids, j);
        if j < counts.len() {
            assert(counted_ids(counts)[j] == k);
            lemma_index_of_unique(counted_ids(counts), j);
        }
    }
    assert forall|k: (Seq<char>, i64)| counts_map(counts).insert((entry.0@, entry.1), entry.2).contains_key(k)
        implies #[trigger] counts_map(after).contains_key(k) by {
        if k != (entry.0@, entry.1) {
            let j = counted_ids(counts).index_of(k);
            assert(ids[j] == k);
        } else {
            assert(ids[ids.len() - 1] == k);
        }
    }
    assert(counts_map(after) =~= counts_map(counts).insert((entry.0@, entry.1), entry.2));
}

impl ClientsState {
    /// The encoding of each connected client.
    pub closed spec fn clients_view(&self) -> Map<Seq<char>, WebsocketEncoding> {
        clients_map(self.clients@)
    }

    /// The subscriptions held, as (client, topic, id within the topic).
    pub closed spec fn subscriptions_view(&self) -> Set<(Seq<char>, Seq<char>, i64)> {
        subscription_views(self.subscriptions@).to_set()
    }

    /// The listener count of each topic id that has one (a missing one counts 0).
    pub closed spec fn counts_view(&self) -> Map<(Seq<char>, i64), u64> {
        counts_map(self.listener_counts@)
    }

    /// No client, subscription or counted topic id is held twice, and every
    /// subscription belongs to a connected client.
    pub closed spec fn wf(&self) -> bool {
        &&& client_ids(self.clients@).no_duplicates()
        &&& subscription_views(self.subscriptions@).no_duplicates()
        &&& counted_ids(self.listener_counts@).no_duplicates()
        &&& forall|s: (Seq<char>, Seq<char>, i64)|
            #[trigger] self.subscriptions_view().contains(s) ==> self.clients_view().contains_key(s.0)
    }

    /// No clients and no subscriptions.
    pub fn new() -> (state: Self)
        ensures
            state.wf(),
            state.clients_view() == Map::<Seq<char>, WebsocketEncoding>::empty(),
            state.subscriptions_view() == Set::<(Seq<char>, Seq<char>, i64)>::empty(),
            state.counts_view() == Map::<(Seq<char>, i64), u64>::empty(),
    {
        let state = ClientsState { clients: Vec::new(), subscriptions: Vec::new(), listener_counts: Vec::new() };
        assert(client_ids(state.clients@) =~= Seq::<Seq<char>>::empty());
        assert(subscription_views(state.subscriptions@) =~= Seq::<(Seq<char>, Seq<char>, i64)>::empty());
        assert(counted_ids(state.listener_counts@) =~= Seq::<(Seq<char>, i64)>::empty());
        assert(state.clients_view() =~= Map::<Seq<char>, WebsocketEncoding>::empty());
        assert(state.subscriptions_view() =~= Set::<(Seq<char>, Seq<char>, i64)>::empty());
        assert(state.counts_view() =~= Map::<(Seq<char>, i64), u64>::empty());
        state
    }
}

proof fn lemma_clients_map_update(clients: Seq<(String, WebsocketEncoding)>, i: int, entry: (String, WebsocketEncoding))
    requires
        client_ids(clients).no_duplicates(),
        0 <= i < clients.len(),
        entry.0@ == clients[i].0@,
    ensures
        client_ids(clients.update(i, entry)) == client_ids(clients),
        clients_map(clients.update(i, entry)) == clients_map(clients).insert(entry.0@, entry.1),
{
    let after = clients.update(i, entry);
    assert(client_ids(after) =~= client_ids(clients));
    let ids = client_ids(clients);
    lemma_index_of_unique(ids, i);
    assert forall|k: Seq<char>| #[trigger] clients_map(after).contains_key(k) implies clients_map(after)[k]
        == clients_map(clients).insert(entry.0@, entry.1)[k] by {
        let j = ids.index_of(k);
        lemma_index_of_unique(ids, j);
    }
    assert(clients_map(after) =~= clients_map(clients).insert(entry.0@, entry.1));
}

proof fn lemma_clients_map_push(clients: Seq<(String, WebsocketEncoding)>, entry: (String, WebsocketEncoding))
    requires
        client_ids(clients).no_duplicates(),
        !client_ids(clients).contains(entry.0@),
    ensures
        client_ids(clients.push(entry)).no_duplicates(),
        clients_map(clients.push(entry)) == clients_map(clients).insert(entry.0@, entry.1),
{
    let after = clients.push(entry);
    let ids = client_ids(after);
    assert(ids =~= client_ids(clients).push(entry.0@));
    assert(ids.no_duplicates()) by {
        assert forall|a: int, b: int| 0 <= a < b < ids.len() implies ids[a] != ids[b] by {
            assert(client_ids(clients)[a] == ids[a]);
            if b < ids.len() - 1 {
                assert(client_ids(clients)[b] == ids[b]);
            }
        }
    }
    assert forall|k: Seq<char>| #[trigger] clients_map(after).contains_key(k) implies clients_map(after)[k]
        == clients_map(clients).insert(entry.0@, entry.1)[k] by {
        let j = ids.index_of(k);
        lemma_index_of_unique(ids, j);
        if j < clients.len() {
            assert(client_ids(clients)[j] == k);
            lemma_index_of_unique(client_ids(clients), j);
        }
    }
    assert forall|k: Seq<char>| clients_map(clients).insert(entry.0@, entry.1).contains_key(k)
        implies #[trigger] clients_map(after).contains_key(k) by {
        if k != entry.0@ {
            let j = client_ids(clients).index_of(k);
            assert(ids[j] == k);
        } else {
            assert(ids[ids.len() - 1] == k);
        }
    }
    assert(clients_map(after) =~= clients_map(clients).insert(entry.0@, entry.1));
}

proof fn lemma_clients_map_remove(clients: Seq<(String, WebsocketEncoding)>, i: int)
    requires
        client_ids(clients).no_duplicates(),
        0 <= i < clients.len(),
    ensures
        client_ids(clients.remove(i)).no_duplicates(),
        clients_map(clients.remove(i)) == clients_map(clients).remove(clients[i].0@),
{
    let after = clients.remove(i);
    let ids = client_ids(clients);
    let ids2 = client_ids(after);
    assert(ids2 =~= ids.remove(i));
    assert(ids2.no_duplicates()) by {
        assert forall|a: int, b: int| 0 <= a < b < ids2.len() implies ids2[a] != ids2[b] by {
            let a0 = if a < i { a } else { a + 1 };
            let b0 = if b < i { b } else { b + 1 };
            assert(ids2[a] == ids[a0]);
            assert(ids2[b] == ids[b0]);
        }
    }
    lemma_index_of_unique(ids, i);
    assert forall|k: Seq<char>| #[trigger] clients_map(after).contains_key(k) implies clients_map(
        clients,
    ).remove(clients[i].0@).contains_key(k) && clients_map(after)[k] == clients_map(clients)[k] by {
        let j = ids2.index_of(k);
        lemma_index_of_unique(ids2, j);
        let j0 = if j < i { j } else { j + 1 };
        assert(ids[j0] == k);
        lemma_index_of_unique(ids, j0);
    }
    assert forall|k: Seq<char>| clients_map(clients).remove(clients[i].0@).contains_key(k)
        implies #[trigger] clients_map(after).contains_key(k) by {
        let j = ids.index_of(k);
        lemma_index_of_unique(ids, j);
        if j < i {
            assert(ids2[j] == k);
        } else {
            assert(j != i);
            assert(ids2[j - 1] == k);
        }
    }
    assert(clients_map(after) =~= clients_map(clients).remove(clients[i].0@));
}

impl ClientsState {
    fn client_position(&self, id: &String) -> (found: Option<usize>)
        requires
            self.wf(),
        ensures
            match found {
                Some(i) => i < self.clients@.len() && self.clients@[i as int].0@ == id@
                    && self.clients_view().contains_key(id@) && self.clients_view()[id@]
                    == self.clients@[i as int].1,
                None => !self.clients_view().contains_key(id@),
            },
    {
        let mut i: usize = 0;
        while i < self.clients.len()
            invariant
                i <= self.clients.len(),
                self.wf(),
                forall|j: int| 0 <= j < i ==> (#[trigger] self.clients@[j]).0@ != id@,
            decreases self.clients.len() - i,
        {
            if self.clients[i].0 == *id {
                proof {
                    assert(client_ids(self.clients@)[i as int] == id@);
                    lemma_index_of_unique(client_ids(self.clients@), i as int);
                }
                return Some(i);
            }
            i = i + 1;
        }
        proof {
            if client_ids(self.clients@).contains(id@) {
                let j = choose|j: int| 0 <= j < self.clients@.len() && client_ids(self.clients@)[j] == id@;
                assert(self.clients@[j].0@ == id@);
            }
        }
        None
    }

    /// The encoding of the client `id`, if connected.
    pub fn get_encode_format_for_client(&self, id: &String) -> (encoding: Option<WebsocketEncoding>)
        requires
            self.wf(),
        ensures
            encoding == (if self.clients_view().contains_key(id@) {
                Some(self.clients_view()[id@])
            } else {
                None
            }),
    {
        match self.client_position(id) {
            Some(i) => Some(self.clients[i].1),
            None => None,
        }
    }

    /// The number of listeners counted for `topic` and `topic_id` (0 when none).
    pub fn listener_count(&self, topic: &String, topic_id: i64) -> (count: u64)
        requires
            self.wf(),
        ensures
            count == count_of(self.counts_view(), topic@, topic_id),
    {
        match self.count_position(topic, topic_id) {
            Some(i) => self.listener_counts[i].2,
            None => 0,
        }
    }

    fn count_position(&self, topic: &String, topic_id: i64) -> (found: Option<usize>)
        requires
            self.wf(),
        ensures
            match found {
                Some(i) => i < self.listener_counts@.len() && self.listener_counts@[i as int].0@ == topic@
                    && self.listener_counts@[i as int].1 == topic_id && self.counts_view().contains_key(
                    (topic@, topic_id),
                ) && self.counts_view()[(topic@, topic_id)] == self.listener_counts@[i as int].2,
                None => !self.counts_view().contains_key((topic@, topic_id)),
            },
    {
        let mut i: usize = 0;
        while i < self.listener_counts.len()
            invariant
                i <= self.listener_counts.len(),
                self.wf(),
                forall|j: int|
                    0 <= j < i ==> !((#[trigger] self.listener_counts@[j]).0@ == topic@
                        && self.listener_counts@[j].1 == topic_id),
            decreases self.listener_counts.len() - i,
        {
            if self.listener_counts[i].1 == topic_id && self.listener_counts[i].0 == *topic {
                proof {
                    assert(counted_ids(self.listener_counts@)[i as int] == (topic@, topic_id));
                    lemma_index_of_unique(counted_ids(self.listener_counts@), i as int);
                }
                return Some(i);
            }
            i = i + 1;
        }
        proof {
            if counted_ids(self.listener_counts@).contains((topic@, topic_id)) {
                let j = choose|j: int|
                    0 <= j < self.listener_counts@.len() && counted_ids(self.listener_counts@)[j] == (
                    topic@,
                    topic_id,
                );
                assert(self.listener_counts@[j].0@ == topic@);
            }
        }
        None
    }

    fn subscribed(&self, id: &String, topic: &String, topic_id: i64) -> (found: bool)
        requires
            self.wf(),
        ensures
            found == self.subscriptions_view().contains((id@, topic@, topic_id)),
    {
        let mut i: usize = 0;
        while i < self.subscriptions.len()
            invariant
                i <= self.subscriptions.len(),
                forall|j: int|
                    0 <= j < i ==> #[trigger] subscription_views(self.subscriptions@)[j] != (
                        id@,
                        topic@,
                        topic_id,
                    ),
            decreases self.subscriptions.len() - i,
        {
            assert(subscription_views(self.subscriptions@)[i as int] == (
                self.subscriptions@[i as int].0@,
                self.subscriptions@[i as int].1@,
                self.subscriptions@[i as int].2,
            ));
            if self.subscriptions[i].2 == topic_id && self.subscriptions[i].1 == *topic
                && self.subscriptions[i].0 == *id {
                return true;
            }
            i = i + 1;
        }
        false
    }

    /// Raises the listener count of `topic` and `topic_id` by one.
    fn count_up(&mut self, topic: &String, topic_id: i64)
        requires
            old(self).wf(),
            count_of(old(self).counts_view(), topic@, topic_id) < u64::MAX,
        ensures
            final(self).wf(),
            final(self).clients_view() == old(self).clients_view(),
            final(self).subscriptions_view() == old(self).subscriptions_view(),
            final(self).counts_view() == old(self).counts_view().insert(
                (topic@, topic_id),
                (count_of(old(self).counts_view(), topic@, topic_id) + 1) as u64,
            ),
    {
        let ghost before = self.listener_counts@;
        match self.count_position(topic, topic_id) {
            Some(i) => {
                let c = self.listener_counts[i].2;
                let entry = (topic.clone(), topic_id, c + 1);
                proof {
                    lemma_counts_map_update(before, i as int, entry);
                }
                self.listener_counts.set(i, entry);
            },
            None => {
                let entry = (topic.clone(), topic_id, 1u64);
                proof {
                    lemma_counts_map_push(before, entry);
                }
                self.listener_counts.push(entry);
            },
        }
        proof {
            old(self).lemma_wf_counts_only(self);
        }
    }

    /// Lowers the listener count of `topic` and `topic_id` by one, unless it is 0 or
    /// missing.
    fn count_down(&mut self, topic: &String, topic_id: i64)
        requires
            old(self).wf(),
        ensures
            final(self).wf(),
            final(self).clients@ == old(self).clients@,
            final(self).subscriptions@ == old(self).subscriptions@,
            final(self).clients_view() == old(self).clients_view(),
            final(self).subscriptions_view() == old(self).subscriptions_view(),
            final(self).counts_view() == counts_after_remove(old(self).counts_view(), topic@, topic_id),
    {
        let ghost before = self.listener_counts@;
        if let Some(i) = self.count_position(topic, topic_id) {
            let c = self.listener_counts[i].2;
            if c > 0 {
                let entry = (topic.clone(), topic_id, c - 1);
                proof {
                    lemma_counts_map_update(before, i as int, entry);
                }
                self.listener_counts.set(i, entry);
            }
        }
        proof {
            old(self).lemma_wf_counts_only(self);
        }
    }

    proof fn lemma_wf_counts_only(&self, other: &Self)
        requires
            self.wf(),
            other.clients@ == self.clients@,
            other.subscriptions@ == self.subscriptions@,
            counted_ids(other.listener_counts@).no_duplicates(),
        ensures
            other.wf(),
            other.clients_view() == self.clients_view(),
            other.subscriptions_view() == self.subscriptions_view(),
    {
        assert forall|s: (Seq<char>, Seq<char>, i64)| #[trigger] other.subscriptions_view().contains(s)
            implies other.clients_view().contains_key(s.0) by {
            assert(self.subscriptions_view().contains(s));
        }
    }
}

/// The listener counts after the count of each topic id that `client` listens to in
/// `subs` is lowered by one (a count already at 0 stays).
pub open spec fn lowered_counts(
    counts: Map<(Seq<char>, i64), u64>,
    subs: Set<(Seq<char>, Seq<char>, i64)>,
    client: Seq<char>,
) -> Map<(Seq<char>, i64), u64> {
    Map::new(
        |k: (Seq<char>, i64)| counts.contains_key(k),
        |k: (Seq<char>, i64)|
            if subs.contains((client, k.0, k.1)) && counts[k] > 0 {
                (counts[k] - 1) as u64
            } else {
                counts[k]
            },
    )
}

impl ClientsState {
    /// Drops every subscription of the client `id`.
    fn drop_subscriptions_of(&mut self, id: &String)
        requires
            old(self).wf(),
        ensures
            final(self).clients@ == old(self).clients@,
            final(self).listener_counts@ == old(self).listener_counts@,
            subscription_views(final(self).subscriptions@).no_duplicates(),
            final(self).subscriptions_view() == old(self).subscriptions_view().filter(
                |s: (Seq<char>, Seq<char>, i64)| s.0 != id@,
            ),
    {
        let ghost old_views = subscription_views(self.subscriptions@);
        let mut kept: Vec<(String, String, i64)> = Vec::new();
        let mut i: usize = 0;
        while i < self.subscriptions.len()
            invariant
                i <= self.subscriptions.len(),
                old_views == subscription_views(self.subscriptions@),
                old_views.no_duplicates(),
                subscription_views(kept@).no_duplicates(),
                forall|x: (Seq<char>, Seq<char>, i64)|
                    #[trigger] subscription_views(kept@).contains(x) <==> (old_views.take(i as int).contains(x)
                        && x.0 != id@),
            decreases self.subscriptions.len() - i,
        {
            let sub = &self.subscriptions[i];
            let ghost x = old_views[i as int];
            proof {
                assert(x == (sub.0@, sub.1@, sub.2));
                assert(old_views.take(i + 1) =~= old_views.take(i as int).push(x));
                assert forall|y: (Seq<char>, Seq<char>, i64)| #[trigger] old_views.take(i + 1).contains(y) <==> (
                old_views.take(i as int).contains(y) || y == x) by {
                    if old_views.take(i + 1).contains(y) {
                        let m = choose|m: int| 0 <= m < i + 1 && #[trigger] old_views.take(i + 1)[m] == y;
                        if m < i {
                            assert(old_views.take(i as int)[m] == y);
                        }
                    }
                    if old_views.take(i as int).contains(y) {
                        let m = choose|m: int| 0 <= m < i && #[trigger] old_views.take(i as int)[m] == y;
                        assert(old_views.take(i + 1)[m] == y);
                    }
                    if y == x {
                        assert(old_views.take(i + 1)[i as int] == y);
                    }
                }
                assert(!old_views.take(i as int).contains(x)) by {
                    if old_views.take(i as int).contains(x) {
                        let m = choose|m: int| 0 <= m < i && #[trigger] old_views.take(i as int)[m] == x;
                        assert(old_views[m] == x);
                    }
                }
            }
            if sub.0 != *id {
                let ghost before = kept@;
                let copy = (sub.0.clone(), sub.1.clone(), sub.2);
                kept.push(copy);
                proof {
                    assert(subscription_views(kept@) =~= subscription_views(before).push(x));
                    assert forall|y: (Seq<char>, Seq<char>, i64)| #[trigger] subscription_views(kept@).contains(y) <==> (
                    subscription_views(before).contains(y) || y == x) by {
                        if subscription_views(kept@).contains(y) {
                            let m = choose|m: int| 0 <= m < kept@.len() && #[trigger] subscription_views(kept@)[m] == y;
                            if m < before.len() {
                                assert(subscription_views(before)[m] == y);
                            }
                        }
                        if subscription_views(before).contains(y) {
                            let m = choose|m: int| 0 <= m < before.len() && #[trigger] subscription_views(before)[m] == y;
                            assert(subscription_views(kept@)[m] == y);
                        }
                        if y == x {
                            assert(subscription_views(kept@)[before.len() as int] == y);
                        }
                    }
                    assert(subscription_views(kept@).no_duplicates()) by {
                        let v = subscription_views(kept@);
                        assert forall|a: int, c: int| 0 <= a < c < v.len() implies v[a] != v[c] by {
                            assert(subscription_views(before)[a] == v[a]);
                            if c < v.len() - 1 {
                                assert(subscription_views(before)[c] == v[c]);
                            } else {
                                assert(subscription_views(before).contains(v[a]));
                            }
                        }
                    }
                }
            }
            i = i + 1;
        }
        proof {
            assert(old_views.take(i as int) =~= old_views);
        }
        self.subscriptions = kept;
        proof {
            assert(self.subscriptions_view() =~= old(self).subscriptions_view().filter(
                |s: (Seq<char>, Seq<char>, i64)| s.0 != id@,
            ));
        }
    }

    /// Connects the client `id` with the encoding `encoding`; a client already
    /// connected under that id starts over with no subscriptions.
    pub fn add_client(&mut self, id: String, encoding: WebsocketEncoding)
        requires
            old(self).wf(),
        ensures
            final(self).wf(),
            final(self).clients_view() == old(self).clients_view().insert(id@, encoding),
            final(self).subscriptions_view() == old(self).subscriptions_view().filter(
                |s: (Seq<char>, Seq<char>, i64)| s.0 != id@,
            ),
            final(self).counts_view() == old(self).counts_view(),
    {
        self.drop_subscriptions_of(&id);
        let ghost clients = self.clients@;
        let ghost id_view = id@;
        match self.client_position(&id) {
            Some(i) => {
                proof {
                    lemma_clients_map_update(clients, i as int, (id, encoding));
                }
                self.clients.set(i, (id, encoding));
            },
            None => {
                proof {
                    lemma_clients_map_push(clients, (id, encoding));
                }
                self.clients.push((id, encoding));
            },
        }
        proof {
            assert forall|s: (Seq<char>, Seq<char>, i64)| #[trigger] self.subscriptions_view().contains(s)
                implies self.clients_view().contains_key(s.0) by {
                assert(old(self).subscriptions_view().contains(s));
            }
        }
    }
}

impl ClientsState {
    fn subscription_position(&self, id: &String, topic: &String, topic_id: i64) -> (found: Option<usize>)
        requires
            self.wf(),
        ensures
            match found {
                Some(i) => i < self.subscriptions@.len() && subscription_views(self.subscriptions@)[i as int]
                    == (id@, topic@, topic_id),
                None => !self.subscriptions_view().contains((id@, topic@, topic_id)),
            },
    {
        let mut i: usize = 0;
        while i < self.subscriptions.len()
            invariant
                i <= self.subscriptions.len(),
                forall|j: int|
                    0 <= j < i ==> #[trigger] subscription_views(self.subscriptions@)[j] != (
                        id@,
                        topic@,
                        topic_id,
                    ),
            decreases self.subscriptions.len() - i,
        {
            assert(subscription_views(self.subscriptions@)[i as int] == (
                self.subscriptions@[i as int].0@,
                self.subscriptions@[i as int].1@,
                self.subscriptions@[i as int].2,
            ));
            if self.subscriptions[i].2 == topic_id && self.subscriptions[i].1 == *topic
                && self.subscriptions[i].0 == *id {
                return Some(i);
            }
            i = i + 1;
        }
        None
    }

    /// Subscribes the client `id` to `topic_id` of `topic`, and counts one more
    /// listener of it; nothing happens when the client already listens to it. The
    /// count is raised even when no client `id` is connected.
    pub fn add_topic_to_client(&mut self, id: &String, topic: &String, topic_id: i64)
        requires
            old(self).wf(),
            old(self).subscriptions_view().contains((id@, topic@, topic_id))
                || count_of(old(self).counts_view(), topic@, topic_id) < u64::MAX,
        ensures
            final(self).wf(),
            final(self).clients_view() == old(self).clients_view(),
            final(self).subscriptions_view() == subscriptions_after_add(
                old(self).clients_view(),
                old(self).subscriptions_view(),
                id@,
                topic@,
                topic_id,
            ),
            final(self).counts_view() == counts_after_add(
                old(self).subscriptions_view(),
                old(self).counts_view(),
                id@,
                topic@,
                topic_id,
            ),
    {
        if self.subscribed(id, topic, topic_id) {
            return;
        }
        if let Some(_) = self.client_position(id) {
            let ghost before = self.subscriptions@;
            let entry = (id.clone(), topic.clone(), topic_id);
            self.subscriptions.push(entry);
            proof {
                let x = (id@, topic@, topic_id);
                let v = subscription_views(self.subscriptions@);
                assert(v =~= subscription_views(before).push(x));
                assert(v.no_duplicates()) by {
                    assert forall|a: int, c: int| 0 <= a < c < v.len() implies v[a] != v[c] by {
                        assert(subscription_views(before)[a] == v[a]);
                        if c < v.len() - 1 {
                            assert(subscription_views(before)[c] == v[c]);
                        } else {
                            assert(subscription_views(before).contains(v[a]));
                        }
                    }
                }
                assert(self.subscriptions_view() =~= old(self).subscriptions_view().insert(x)) by {
                    assert forall|y: (Seq<char>, Seq<char>, i64)| #[trigger] v.contains(y) <==> (subscription_views(
                        before,
                    ).contains(y) || y == x) by {
                        if v.contains(y) {
                            let m = choose|m: int| 0 <= m < v.len() && #[trigger] v[m] == y;
                            if m < before.len() {
                                assert(subscription_views(before)[m] == y);
                            }
                        }
                        if subscription_views(before).contains(y) {
                            let m = choose|m: int| 0 <= m < before.len() && #[trigger] subscription_views(before)[m] == y;
                            assert(v[m] == y);
                        }
                        if y == x {
                            assert(v[v.len() - 1] == y);
                        }
                    }
                }
                assert forall|z: (Seq<char>, Seq<char>, i64)| #[trigger] self.subscriptions_view().contains(z)
                    implies self.clients_view().contains_key(z.0) by {
                    if z != x {
                        assert(old(self).subscriptions_view().contains(z));
                    }
                }
            }
        }
        self.count_up(topic, topic_id);
    }

    /// Unsubscribes the client `id` from `topic_id` of `topic`, and counts one listener
    /// of it less unless its count is 0 or missing (even when the client did not
    /// listen to it).
    pub fn remove_topic_from_client(&mut self, id: &String, topic: &String, topic_id: i64)
        requires
            old(self).wf(),
        ensures
            final(self).wf(),
            final(self).clients_view() == old(self).clients_view(),
            final(self).subscriptions_view() == old(self).subscriptions_view().remove((id@, topic@, topic_id)),
            final(self).counts_view() == counts_after_remove(old(self).counts_view(), topic@, topic_id),
    {
        let x = Ghost((id@, topic@, topic_id));
        match self.subscription_position(id, topic, topic_id) {
            Some(p) => {
                let ghost before = self.subscriptions@;
                self.subscriptions.remove(p);
                proof {
                    let old_v = subscription_views(before);
                    let v = subscription_views(self.subscriptions@);
                    assert(v =~= old_v.remove(p as int));
                    assert(v.no_duplicates()) by {
                        assert forall|a: int, c: int| 0 <= a < c < v.len() implies v[a] != v[c] by {
                            let a0 = if a < p { a } else { a + 1 };
                            let c0 = if c < p { c } else { c + 1 };
                            assert(v[a] == old_v[a0]);
                            assert(v[c] == old_v[c0]);
                        }
                    }
                    assert(self.subscriptions_view() =~= old(self).subscriptions_view().remove(x@)) by {
                        assert forall|y: (Seq<char>, Seq<char>, i64)| #[trigger] v.contains(y) <==> (old_v.contains(y)
                            && y != x@) by {
                            if v.contains(y) {
                                let m = choose|m: int| 0 <= m < v.len() && #[trigger] v[m] == y;
                                let m0 = if m < p { m } else { m + 1 };
                                assert(old_v[m0] == y);
                                assert(m0 != p);
                            }
                            if old_v.contains(y) && y != x@ {
                                let m = choose|m: int| 0 <= m < old_v.len() && #[trigger] old_v[m] == y;
                                assert(m != p);
                                if m < p {
                                    assert(v[m] == y);
                                } else {
                                    assert(v[m - 1] == y);
                                }
                            }
                        }
                    }
                    assert forall|z: (Seq<char>, Seq<char>, i64)| #[trigger] self.subscriptions_view().contains(z)
                        implies self.clients_view().contains_key(z.0) by {
                        assert(old(self).subscriptions_view().contains(z));
                    }
                }
            },
            None => {
                assert(self.subscriptions_view() =~= old(self).subscriptions_view().remove(x@));
            },
        }
        self.count_down(topic, topic_id);
    }

    /// Whether the client `id` listens to one of `topics`.
    pub fn client_listen_to_topics(&self, id: &String, topics: &Vec<(String, i64)>) -> (listens: bool)
        requires
            self.wf(),
        ensures
            listens == exists|k: int|
                0 <= k < topics@.len() && self.subscriptions_view().contains(
                    (id@, (#[trigger] topics@[k]).0@, topics@[k].1),
                ),
    {
        let mut k: usize = 0;
        while k < topics.len()
            invariant
                k <= topics.len(),
                self.wf(),
                forall|j: int|
                    0 <= j < k ==> !self.subscriptions_view().contains(
                        (id@, (#[trigger] topics@[j]).0@, topics@[j].1),
                    ),
            decreases topics.len() - k,
        {
            if self.subscribed(id, &topics[k].0, topics[k].1) {
                return true;
            }
            k = k + 1;
        }
        false
    }

    /// Whether one of `topics` has a listener count above 0.
    pub fn listeners_for_topic(&self, topics: &Vec<(String, i64)>) -> (any: bool)
        requires
            self.wf(),
        ensures
            any == exists|k: int|
                0 <= k < topics@.len() && count_of(
                    self.counts_view(),
                    (#[trigger] topics@[k]).0@,
                    topics@[k].1,
                ) > 0,
    {
        let mut k: usize = 0;
        while k < topics.len()
            invariant
                k <= topics.len(),
                self.wf(),
                forall|j: int|
                    0 <= j < k ==> count_of(self.counts_view(), (#[trigger] topics@[j]).0@, topics@[j].1)
                        == 0,
            decreases topics.len() - k,
        {
            if let Some(i) = self.count_position(&topics[k].0, topics[k].1) {
                if self.listener_counts[i].2 > 0 {
                    return true;
                }
            }
            k = k + 1;
        }
        false
    }

    /// The clients that listen to `topic_id` of `topic`, each once.
    pub fn clients_listen_to_topic(&self, topic: &String, topic_id: i64) -> (ids: Vec<String>)
        requires
            self.wf(),
        ensures
            texts(ids@).no_duplicates(),
            forall|c: Seq<char>|
                #[trigger] texts(ids@).contains(c) <==> self.subscriptions_view().contains(
                    (c, topic@, topic_id),
                ),
    {
        let ghost views = subscription_views(self.subscriptions@);
        let mut ids: Vec<String> = Vec::new();
        let mut i: usize = 0;
        while i < self.subscriptions.len()
            invariant
                i <= self.subscriptions.len(),
                views == subscription_views(self.subscriptions@),
                views.no_duplicates(),
                texts(ids@).no_duplicates(),
                forall|c: Seq<char>|
                    #[trigger] texts(ids@).contains(c) <==> views.take(i as int).contains(
                        (c, topic@, topic_id),
                    ),
            decreases self.subscriptions.len() - i,
        {
            let sub = &self.subscriptions[i];
            let ghost x = views[i as int];
            proof {
                assert(x == (sub.0@, sub.1@, sub.2));
                assert(views.take(i + 1) =~= views.take(i as int).push(x));
                assert forall|y: (Seq<char>, Seq<char>, i64)| #[trigger] views.take(i + 1).contains(y) <==> (
                views.take(i as int).contains(y) || y == x) by {
                    if views.take(i + 1).contains(y) {
                        let m = choose|m: int| 0 <= m < i + 1 && #[trigger] views.take(i + 1)[m] == y;
                        if m < i {
                            assert(views.take(i as int)[m] == y);
                        }
                    }
                    if views.take(i as int).contains(y) {
                        let m = choose|m: int| 0 <= m < i && #[trigger] views.take(i as int)[m] == y;
                        assert(views.take(i + 1)[m] == y);
                    }
                    if y == x {
                        assert(views.take(i + 1)[i as int] == y);
                    }
                }
                assert(!views.take(i as int).contains(x)) by {
                    if views.take(i as int).contains(x) {
                        let m = choose|m: int| 0 <= m < i && #[trigger] views.take(i as int)[m] == x;
                        assert(views[m] == x);
                    }
                }
            }
            if sub.2 == topic_id && sub.1 == *topic {
                let ghost before = ids@;
                ids.push(sub.0.clone());
                proof {
                    let v = texts(ids@);
                    let bv = texts(before);
                    assert(v =~= bv.push(sub.0@));
                    assert forall|c: Seq<char>| #[trigger] v.contains(c) <==> (bv.contains(c) || c == sub.0@) by {
                        if v.contains(c) {
                            let m = choose|m: int| 0 <= m < v.len() && #[trigger] v[m] == c;
                            if m < bv.len() {
                                assert(bv[m] == c);
                            }
                        }
                        if bv.contains(c) {
                            let m = choose|m: int| 0 <= m < bv.len() && #[trigger] bv[m] == c;
                            assert(v[m] == c);
                        }
                        if c == sub.0@ {
                            assert(v[v.len() - 1] == c);
                        }
                    }
                    assert(v.no_duplicates()) by {
                        assert forall|a: int, c: int| 0 <= a < c < v.len() implies v[a] != v[c] by {
                            assert(bv[a] == v[a]);
                            if c < v.len() - 1 {
                                assert(bv[c] == v[c]);
                            } else {
                                assert(bv.contains(v[a]));
                            }
                        }
                    }
                }
            }
            i = i + 1;
        }
        proof {
            assert(views.take(i as int) =~= views);
        }
        ids
    }

    /// The topic ids the client `id` listens to, each once; `None` when no such client
    /// is connected.
    pub fn topic_ids_for_client(&self, id: &String) -> (topics: Option<Vec<(String, i64)>>)
        requires
            self.wf(),
        ensures
            match topics {
                None => !self.clients_view().contains_key(id@),
                Some(v) => {
                    &&& self.clients_view().contains_key(id@)
                    &&& topic_views(v@).no_duplicates()
                    &&& forall|t: (Seq<char>, i64)|
                        #[trigger] topic_views(v@).contains(t)
                            <==> self.subscriptions_view().contains((id@, t.0, t.1))
                },
            },
    {
        if self.client_position(id).is_none() {
            return None;
        }
        let ghost views = subscription_views(self.subscriptions@);
        let mut found: Vec<(String, i64)> = Vec::new();
        let mut i: usize = 0;
        while i < self.subscriptions.len()
            invariant
                i <= self.subscriptions.len(),
                views == subscription_views(self.subscriptions@),
                views.no_duplicates(),
                topic_views(found@).no_duplicates(),
                forall|t: (Seq<char>, i64)|
                    #[trigger] topic_views(found@).contains(t) <==> views.take(
                        i as int,
                    ).contains((id@, t.0, t.1)),
            decreases self.subscriptions.len() - i,
        {
            let sub = &self.subscriptions[i];
            let ghost x = views[i as int];
            proof {
                assert(x == (sub.0@, sub.1@, sub.2));
                assert(views.take(i + 1) =~= views.take(i as int).push(x));
                assert forall|y: (Seq<char>, Seq<char>, i64)| #[trigger] views.take(i + 1).contains(y) <==> (
                views.take(i as int).contains(y) || y == x) by {
                    if views.take(i + 1).contains(y) {
                        let m = choose|m: int| 0 <= m < i + 1 && #[trigger] views.take(i + 1)[m] == y;
                        if m < i {
                            assert(views.take(i as int)[m] == y);
                        }
                    }
                    if views.take(i as int).contains(y) {
                        let m = choose|m: int| 0 <= m < i && #[trigger] views.take(i as int)[m] == y;
                        assert(views.take(i + 1)[m] == y);
                    }
                    if y == x {
                        assert(views.take(i + 1)[i as int] == y);
                    }
                }
                assert(!views.take(i as int).contains(x)) by {
                    if views.take(i as int).contains(x) {
                        let m = choose|m: int| 0 <= m < i && #[trigger] views.take(i as int)[m] == x;
                        assert(views[m] == x);
                    }
                }
            }
            if sub.0 == *id {
                let ghost before = found@;
                found.push((sub.1.clone(), sub.2));
                proof {
                    let t0 = (sub.1@, sub.2);
                    let v = topic_views(found@);
                    let bv = topic_views(before);
                    assert(v =~= bv.push(t0));
                    assert forall|t: (Seq<char>, i64)| #[trigger] v.contains(t) <==> (bv.contains(t) || t == t0) by {
                        if v.contains(t) {
                            let m = choose|m: int| 0 <= m < v.len() && #[trigger] v[m] == t;
                            if m < bv.len() {
                                assert(bv[m] == t);
                            }
                        }
                        if bv.contains(t) {
                            let m = choose|m: int| 0 <= m < bv.len() && #[trigger] bv[m] == t;
                            assert(v[m] == t);
                        }
                        if t == t0 {
                            assert(v[v.len() - 1] == t);
                        }
                    }
                    assert(v.no_duplicates()) by {
                        assert forall|a: int, c: int| 0 <= a < c < v.len() implies v[a] != v[c] by {
                            assert(bv[a] == v[a]);
                            if c < v.len() - 1 {
                                assert(bv[c] == v[c]);
                            } else {
                                assert(bv.contains(v[a]));
                            }
                        }
                    }
                }
            }
            i = i + 1;
        }
        proof {
            assert(views.take(i as int) =~= views);
        }
        Some(found)
    }
}

impl ClientsState {
    /// Disconnects the client `id`: each topic id it listens to counts one listener
    /// less, its subscriptions go, and so does the client.
    pub fn remove_client(&mut self, id: &String)
        requires
            old(self).wf(),
            old(self).clients_view().contains_key(id@),
        ensures
            final(self).wf(),
            final(self).clients_view() == old(self).clients_view().remove(id@),
            final(self).subscriptions_view() == old(self).subscriptions_view().filter(
                |s: (Seq<char>, Seq<char>, i64)| s.0 != id@,
            ),
            final(self).counts_view() == lowered_counts(
                old(self).counts_view(),
                old(self).subscriptions_view(),
                id@,
            ),
    {
        let ghost views = subscription_views(self.subscriptions@);
        let ghost counts0 = self.counts_view();
        let mut i: usize = 0;
        proof {
            assert(lowered_counts(counts0, views.take(0).to_set(), id@) =~= counts0);
        }
        while i < self.subscriptions.len()
            invariant
                i <= self.subscriptions.len(),
                self.wf(),
                views == subscription_views(self.subscriptions@),
                self.clients_view() == old(self).clients_view(),
                self.subscriptions_view() == old(self).subscriptions_view(),
                self.counts_view() == lowered_counts(counts0, views.take(i as int).to_set(), id@),
                counts0 == old(self).counts_view(),
            decreases self.subscriptions.len() - i,
        {
            let ghost x = views[i as int];
            let ghost before = self.counts_view();
            proof {
                assert(x == (self.subscriptions@[i as int].0@, self.subscriptions@[i as int].1@, self.subscriptions@[i as int].2));
                assert(views.take(i + 1) =~= views.take(i as int).push(x));
                assert(!views.take(i as int).contains(x)) by {
                    if views.take(i as int).contains(x) {
                        let m = choose|m: int| 0 <= m < i && #[trigger] views.take(i as int)[m] == x;
                        assert(views[m] == x);
                    }
                }
            }
            if self.subscriptions[i].0 == *id {
                let topic = self.subscriptions[i].1.clone();
                let topic_id = self.subscriptions[i].2;
                self.count_down(&topic, topic_id);
                proof {
                    let k = (topic@, topic_id);
                    assert(self.counts_view() =~= lowered_counts(counts0, views.take(i + 1).to_set(), id@)) by {
                        assert forall|q: (Seq<char>, i64)| #[trigger] self.counts_view().contains_key(q) implies self.counts_view()[q]
                            == lowered_counts(counts0, views.take(i + 1).to_set(), id@)[q] by {
                            if q == k {
                                assert(views.take(i + 1)[i as int] == x);
                                assert(x == (id@, q.0, q.1));
                                assert(views.take(i + 1).contains((id@, q.0, q.1)));
                                assert(!views.take(i as int).to_set().contains((id@, q.0, q.1)));
                            } else {
                                assert(views.take(i + 1).to_set().contains((id@, q.0, q.1)) == views.take(
                                    i as int,
                                ).to_set().contains((id@, q.0, q.1))) by {
                                    if views.take(i + 1).contains((id@, q.0, q.1)) {
                                        let m = choose|m: int| 0 <= m < i + 1 && #[trigger] views.take(i + 1)[m] == (id@, q.0, q.1);
                                        if m < i {
                                            assert(views.take(i as int)[m] == (id@, q.0, q.1));
                                        }
                                    }
                                    if views.take(i as int).contains((id@, q.0, q.1)) {
                                        let m = choose|m: int| 0 <= m < i && #[trigger] views.take(i as int)[m] == (id@, q.0, q.1);
                                        assert(views.take(i + 1)[m] == (id@, q.0, q.1));
                                    }
                                }
                            }
                        }
                    }
                }
            } else {
                proof {
                    assert(self.counts_view() =~= lowered_counts(counts0, views.take(i + 1).to_set(), id@)) by {
                        assert forall|q: (Seq<char>, i64)| #[trigger] self.counts_view().contains_key(q) implies self.counts_view()[q]
                            == lowered_counts(counts0, views.take(i + 1).to_set(), id@)[q] by {
                            assert(views.take(i + 1).to_set().contains((id@, q.0, q.1)) == views.take(
                                i as int,
                            ).to_set().contains((id@, q.0, q.1))) by {
                                if views.take(i + 1).contains((id@, q.0, q.1)) {
                                    let m = choose|m: int| 0 <= m < i + 1 && #[trigger] views.take(i + 1)[m] == (id@, q.0, q.1);
                                    if m < i {
                                        assert(views.take(i as int)[m] == (id@, q.0, q.1));
                                    }
                                }
                                if views.take(i as int).contains((id@, q.0, q.1)) {
                                    let m = choose|m: int| 0 <= m < i && #[trigger] views.take(i as int)[m] == (id@, q.0, q.1);
                                    assert(views.take(i + 1)[m] == (id@, q.0, q.1));
                                }
                            }
                        }
                    }
                }
            }
            i = i + 1;
        }
        proof {
            assert(views.take(i as int) =~= views);
            assert(views.to_set() == old(self).subscriptions_view());
        }
        self.drop_subscriptions_of(id);
        let ghost clients = self.clients@;
        match self.client_position(id) {
            Some(p) => {
                proof {
                    lemma_clients_map_remove(clients, p as int);
                }
                self.clients.remove(p);
            },
            None => {},
        }
        proof {
            assert forall|s: (Seq<char>, Seq<char>, i64)| #[trigger] self.subscriptions_view().contains(s)
                implies self.clients_view().contains_key(s.0) by {
                assert(old(self).subscriptions_view().contains(s));
            }
        }
    }
}

/// Subscriptions to `topic_id` of `topic`.
pub open spec fn listeners_of(
    subs: Set<(Seq<char>, Seq<char>, i64)>,
    topic: Seq<char>,
    topic_id: i64,
) -> Set<(Seq<char>, Seq<char>, i64)> {
    subs.filter(|s: (Seq<char>, Seq<char>, i64)| s.1 == topic && s.2 == topic_id)
}

/// Each listener count is the number of subscriptions to its topic id.
pub open spec fn counts_match(
    subs: Set<(Seq<char>, Seq<char>, i64)>,
    counts: Map<(Seq<char>, i64), u64>,
) -> bool {
    &&& subs.finite()
    &&& forall|topic: Seq<char>, topic_id: i64|
        #[trigger] count_of(counts, topic, topic_id) == listeners_of(subs, topic, topic_id).len()
}

/// With no subscriptions and no counts, every count matches.
pub proof fn lemma_empty_counts_match()
    ensures
        counts_match(Set::empty(), Map::empty()),
{
    assert forall|topic: Seq<char>, topic_id: i64|
        #[trigger] count_of(Map::empty(), topic, topic_id) == listeners_of(Set::empty(), topic, topic_id).len() by {
        assert(listeners_of(Set::empty(), topic, topic_id) =~= Set::empty());
    }
}

/// Subscribing a client to a topic id it does not listen to yet, and counting one
/// more listener of it, keeps every count equal to the number of its subscriptions.
pub proof fn lemma_subscribe_keeps_counts(
    subs: Set<(Seq<char>, Seq<char>, i64)>,
    counts: Map<(Seq<char>, i64), u64>,
    client: Seq<char>,
    topic: Seq<char>,
    topic_id: i64,
)
    requires
        counts_match(subs, counts),
        !subs.contains((client, topic, topic_id)),
        count_of(counts, topic, topic_id) < u64::MAX,
    ensures
        counts_match(
            subs.insert((client, topic, topic_id)),
            counts.insert((topic, topic_id), (count_of(counts, topic, topic_id) + 1) as u64),
        ),
{
    let x = (client, topic, topic_id);
    let subs2 = subs.insert(x);
    let counts2 = counts.insert((topic, topic_id), (count_of(counts, topic, topic_id) + 1) as u64);
    assert forall|t: Seq<char>, i: i64| #[trigger] count_of(counts2, t, i) == listeners_of(subs2, t, i).len() by {
        assert(count_of(counts, t, i) == listeners_of(subs, t, i).len());
        if t == topic && i == topic_id {
            assert(listeners_of(subs2, t, i) =~= listeners_of(subs, t, i).insert(x));
        } else {
            assert(listeners_of(subs2, t, i) =~= listeners_of(subs, t, i));
        }
    }
}

/// Unsubscribing a client from a topic id it listens to, and counting one listener of
/// it less, keeps every count equal to the number of its subscriptions.
pub proof fn lemma_unsubscribe_keeps_counts(
    subs: Set<(Seq<char>, Seq<char>, i64)>,
    counts: Map<(Seq<char>, i64), u64>,
    client: Seq<char>,
    topic: Seq<char>,
    topic_id: i64,
)
    requires
        counts_match(subs, counts),
        subs.contains((client, topic, topic_id)),
    ensures
        counts.contains_key((topic, topic_id)),
        counts[(topic, topic_id)] > 0,
        counts_match(
            subs.remove((client, topic, topic_id)),
            counts.insert((topic, topic_id), (counts[(topic, topic_id)] - 1) as u64),
        ),
{
    let x = (client, topic, topic_id);
    assert(listeners_of(subs, topic, topic_id).contains(x));
    assert(count_of(counts, topic, topic_id) == listeners_of(subs, topic, topic_id).len());
    let subs2 = subs.remove(x);
    let counts2 = counts.insert((topic, topic_id), (counts[(topic, topic_id)] - 1) as u64);
    assert forall|t: Seq<char>, i: i64| #[trigger] count_of(counts2, t, i) == listeners_of(subs2, t, i).len() by {
        assert(count_of(counts, t, i) == listeners_of(subs, t, i).len());
        if t == topic && i == topic_id {
            assert(listeners_of(subs2, t, i) =~= listeners_of(subs, t, i).remove(x));
        } else {
            assert(listeners_of(subs2, t, i) =~= listeners_of(subs, t, i));
        }
    }
}

/// Disconnecting a client, with each topic id it listened to counting one listener
/// less, keeps every count equal to the number of its subscriptions.
pub proof fn lemma_disconnect_keeps_counts(
    subs: Set<(Seq<char>, Seq<char>, i64)>,
    counts: Map<(Seq<char>, i64), u64>,
    client: Seq<char>,
)
    requires
        counts_match(subs, counts),
    ensures
        counts_match(
            subs.filter(|s: (Seq<char>, Seq<char>, i64)| s.0 != client),
            lowered_counts(counts, subs, client),
        ),
{
    let subs2 = subs.filter(|s: (Seq<char>, Seq<char>, i64)| s.0 != client);
    let counts2 = lowered_counts(counts, subs, client);
    assert forall|t: Seq<char>, i: i64| #[trigger] count_of(counts2, t, i) == listeners_of(subs2, t, i).len() by {
        assert(count_of(counts, t, i) == listeners_of(subs, t, i).len());
        let x = (client, t, i);
        if subs.contains(x) {
            assert(listeners_of(subs, t, i).contains(x));
            assert(listeners_of(subs2, t, i) =~= listeners_of(subs, t, i).remove(x));
        } else {
            assert(listeners_of(subs2, t, i) =~= listeners_of(subs, t, i));
        }
    }
}

/// When every count matches its subscriptions, a topic id has listeners by its count
/// exactly when some client listens to it.
pub proof fn lemma_counted_listeners_are_subscribers(
    subs: Set<(Seq<char>, Seq<char>, i64)>,
    counts: Map<(Seq<char>, i64), u64>,
    topic: Seq<char>,
    topic_id: i64,
)
    requires
        counts_match(subs, counts),
    ensures
        count_of(counts, topic, topic_id) > 0 <==> exists|client: Seq<char>|
            #[trigger] subs.contains((client, topic, topic_id)),
{
    let l = listeners_of(subs, topic, topic_id);
    assert(count_of(counts, topic, topic_id) == l.len());
    if count_of(counts, topic, topic_id) > 0 {
        let x = l.choose();
        assert(l.contains(x));
        assert(subs.contains((x.0, topic, topic_id)));
    }
    if exists|client: Seq<char>| #[trigger] subs.contains((client, topic, topic_id)) {
        let c = choose|client: Seq<char>| #[trigger] subs.contains((client, topic, topic_id));
        assert(l.contains((c, topic, topic_id)));
    }
}

/// The position of the first '.' of `s` at or after `i`, or -1 when there is none.
pub open spec fn dot_index(s: Seq<char>, i: int) -> int
    decreases s.len() - i,
{
    if i < 0 || i >= s.len() {
        -1
    } else if s[i] == '.' {
        i
    } else {
        dot_index(s, i + 1)
    }
}

/// A subscription topic as a client writes it, "topic.id": the text before the first
/// '.' and the number after it; none when there is no '.' or no number after it.
pub open spec fn topic_of(s: Seq<char>) -> Option<(Seq<char>, i64)> {
    let p = dot_index(s, 0);
    if p < 0 {
        None
    } else {
        match parsed_i64(s.skip(p + 1)) {
            Some(id) => Some((s.take(p), id)),
            None => None,
        }
    }
}

/// Reads a subscription topic (see `topic_of`).
pub fn parse_topic(s: &str) -> (topic: Option<(String, i64)>)
    ensures
        match topic {
            Some((t, id)) => topic_of(s@) == Some((t@, id)),
            None => topic_of(s@) is None,
        },
{
    let n = s.unicode_len();
    let mut i: usize = 0;
    while i < n && s.get_char(i) != '.'
        invariant
            i <= n,
            n == s@.len(),
            dot_index(s@, 0) == dot_index(s@, i as int),
        decreases n - i,
    {
        i = i + 1;
    }
    if i == n {
        return None;
    }
    let name = slice_text(s, 0, i);
    let rest = slice_text(s, i + 1, n);
    assert(rest@ =~= s@.skip(i + 1));
    assert(name@ =~= s@.take(i as int));
    match parse_i64(rest.as_str()) {
        Some(id) => Some((name, id)),
        None => None,
    }
}

/// `ids` lists each client that listens to `topic` and `topic_id` once.
pub open spec fn lists_listeners(state: ClientsState, topic: Seq<char>, topic_id: i64, ids: Seq<String>) -> bool {
    &&& texts(ids).no_duplicates()
    &&& forall|c: Seq<char>| #[trigger] texts(ids).contains(c) <==> state.subscriptions_view().contains((c, topic, topic_id))
}

impl ClientsState {
    /// The clients a message about `topics` goes to: the listeners of each topic id in
    /// turn, so that a client listening to several of them receives it once for each.
    pub fn recipients(&self, topics: &Vec<(String, i64)>) -> (ids: Vec<String>)
        requires
            self.wf(),
        ensures
            exists|parts: Seq<Seq<String>>|
                parts.len() == topics@.len() && (forall|k: int|
                    0 <= k < parts.len() ==> lists_listeners(*self, topics@[k].0@, topics@[k].1, #[trigger] parts[k]))
                    && ids@ == parts.flatten(),
    {
        let mut ids: Vec<String> = Vec::new();
        let ghost mut parts: Seq<Seq<String>> = Seq::empty();
        let mut k: usize = 0;
        while k < topics.len()
            invariant
                k <= topics.len(),
                self.wf(),
                parts.len() == k,
                forall|q: int| 0 <= q < k ==> lists_listeners(*self, topics@[q].0@, topics@[q].1, #[trigger] parts[q]),
                ids@ == parts.flatten(),
            decreases topics.len() - k,
        {
            let mut part = self.clients_listen_to_topic(&topics[k].0, topics[k].1);
            let ghost p = part@;
            proof {
                parts.lemma_flatten_push(p);
                parts = parts.push(p);
            }
            ids.append(&mut part);
            k = k + 1;
        }
        ids
    }
}

/// How a subscription is written: the topic, a '.', and the id in decimal.
pub open spec fn topic_text(topic: Seq<char>, topic_id: i64) -> Seq<char> {
    topic + seq!['.'] + decimal(topic_id as int)
}

/// Writes a subscription (see `topic_text`).
pub fn format_topic(topic: &String, topic_id: i64) -> (text: String)
    ensures
        text@ == topic_text(topic@, topic_id),
{
    let mut text = topic.clone();
    proof {
        reveal_strlit(".");
    }
    text.append(".");
    let digits = format_i64(topic_id);
    text.append(digits.as_str());
    assert(text@ =~= topic_text(topic@, topic_id));
    text
}

impl ClientsState {
    /// The subscriptions of the client `id`, each written "topic.id" (see
    /// `topic_text`), once each; `None` when the client is not connected.
    pub fn get_topics_for_client(&self, id: &String) -> (topics: Option<Vec<String>>)
        requires
            self.wf(),
        ensures
            match topics {
                None => !self.clients_view().contains_key(id@),
                Some(v) => {
                    &&& self.clients_view().contains_key(id@)
                    &&& exists|pairs: Seq<(String, i64)>|
                        {
                            &&& topic_views(pairs).no_duplicates()
                            &&& (forall|t: (Seq<char>, i64)|
                                #[trigger] topic_views(pairs).contains(t) <==> self.subscriptions_view().contains(
                                    (id@, t.0, t.1),
                                ))
                            &&& v@.len() == pairs.len()
                            &&& forall|k: int|
                                0 <= k < pairs.len() ==> (#[trigger] v@[k])@ == topic_text(pairs[k].0@, pairs[k].1)
                        }
                },
            },
    {
        match self.topic_ids_for_client(id) {
            None => None,
            Some(pairs) => {
                let mut texts_out: Vec<String> = Vec::new();
                let mut k: usize = 0;
                while k < pairs.len()
                    invariant
                        k <= pairs.len(),
                        texts_out@.len() == k,
                        forall|q: int|
                            0 <= q < k ==> (#[trigger] texts_out@[q])@ == topic_text(pairs@[q].0@, pairs@[q].1),
                    decreases pairs.len() - k,
                {
                    texts_out.push(format_topic(&pairs[k].0, pairs[k].1));
                    k = k + 1;
                }
                Some(texts_out)
            },
        }
    }
}

proof fn lemma_dot_index_after(t: Seq<char>, rest: Seq<char>, i: int)
    requires
        0 <= i <= t.len(),
        forall|j: int| 0 <= j < t.len() ==> t[j] != '.',
    ensures
        dot_index(t + seq!['.'] + rest, i) == t.len(),
    decreases t.len() - i,
{
    let s = t + seq!['.'] + rest;
    if i < t.len() {
        assert(s[i] == t[i]);
        lemma_dot_index_after(t, rest, i + 1);
    } else {
        assert(s[i] == '.');
    }
}

/// A subscription written out reads back as the same topic and id, for a topic without
/// a '.': what `get_topics_for_client` lists, `parse_topic` accepts as it was subscribed.
pub proof fn lemma_topic_text_reads_back(topic: Seq<char>, topic_id: i64)
    requires
        forall|j: int| 0 <= j < topic.len() ==> topic[j] != '.',
    ensures
        topic_of(topic_text(topic, topic_id)) == Some((topic, topic_id)),
{
    let s = topic_text(topic, topic_id);
    let digits = decimal(topic_id as int);
    lemma_dot_index_after(topic, digits, 0);
    assert(s.skip(topic.len() as int + 1) =~= digits);
    assert(s.take(topic.len() as int) =~= topic);
    lemma_parse_undoes_format(topic_id);
}

/// Subscribing a connected client twice to a topic id is subscribing it once: the
/// second call changes neither the subscriptions nor the counts.
pub proof fn lemma_subscribe_twice_is_once(
    clients: Map<Seq<char>, WebsocketEncoding>,
    subs: Set<(Seq<char>, Seq<char>, i64)>,
    counts: Map<(Seq<char>, i64), u64>,
    id: Seq<char>,
    topic: Seq<char>,
    topic_id: i64,
)
    requires
        clients.contains_key(id),
    ensures
        ({
            let subs1 = subscriptions_after_add(clients, subs, id, topic, topic_id);
            let counts1 = counts_after_add(subs, counts, id, topic, topic_id);
            &&& subs1.contains((id, topic, topic_id))
            &&& subscriptions_after_add(clients, subs1, id, topic, topic_id) == subs1
            &&& counts_after_add(subs1, counts1, id, topic, topic_id) == counts1
        }),
{
}

/// Unsubscribing a connected client from a topic id it was just subscribed to, not
/// having listened to it before, gives back the subscriptions and every listener
/// count (a count that was missing reads 0 again).
pub proof fn lemma_unsubscribe_undoes_subscribe(
    clients: Map<Seq<char>, WebsocketEncoding>,
    subs: Set<(Seq<char>, Seq<char>, i64)>,
    counts: Map<(Seq<char>, i64), u64>,
    id: Seq<char>,
    topic: Seq<char>,
    topic_id: i64,
)
    requires
        clients.contains_key(id),
        !subs.contains((id, topic, topic_id)),
        count_of(counts, topic, topic_id) < u64::MAX,
    ensures
        ({
            let subs1 = subscriptions_after_add(clients, subs, id, topic, topic_id);
            let counts1 = counts_after_add(subs, counts, id, topic, topic_id);
            let counts2 = counts_after_remove(counts1, topic, topic_id);
            &&& subs1.remove((id, topic, topic_id)) == subs
            &&& forall|t: Seq<char>, i: i64| #[trigger] count_of(counts2, t, i) == count_of(counts, t, i)
        }),
{
    let x = (id, topic, topic_id);
    assert(subs.insert(x).remove(x) =~= subs);
}

} // verus!
