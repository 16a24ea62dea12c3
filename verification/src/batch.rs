//! The batch an import worker fills from game-state updates before writing them:
//! records to store, keyed by entity id, and ids to delete.
use crate::experience::without_first;
use crate::text::same_text;
use vstd::prelude::*;

verus! {

/// Records keyed `key`.
pub open spec fn keyed<T>(key: i64) -> spec_fn((i64, T)) -> bool {
    |entry: (i64, T)| entry.0 == key
}

/// The id `key`.
pub open spec fn is_id(key: i64) -> spec_fn(i64) -> bool {
    |id: i64| id == key
}

/// The keys of the records.
pub open spec fn keys_of<T>(messages: Seq<(i64, T)>) -> Seq<i64> {
    messages.map_values(|entry: (i64, T)| entry.0)
}

/// Records to store and ids to delete, flushed once `batch_size` of either wait.
pub struct KeyedBatch<T> {
    messages: Vec<(i64, T)>,
    ids: Vec<i64>,
    messages_delete: Vec<i64>,
    batch_size: usize,
}

impl<T> KeyedBatch<T> {
    /// The records waiting to be stored, with their keys, in arrival order.
    pub closed spec fn messages_view(&self) -> Seq<(i64, T)> {
        self.messages@
    }

    /// The ids waiting to be deleted, in arrival order.
    pub closed spec fn deletes_view(&self) -> Seq<i64> {
        self.messages_delete@
    }

    /// The number of records or ids that triggers a flush.
    pub closed spec fn size_view(&self) -> usize {
        self.batch_size
    }

    /// Every waiting record's key was seen since the last flush, and no key waits twice.
    pub closed spec fn wf(&self) -> bool {
        &&& keys_of(self.messages@).no_duplicates()
        &&& forall|k: i64| #[trigger] keys_of(self.messages@).contains(k) ==> self.ids@.contains(k)
    }

    /// An empty batch.
    pub fn new(batch_size: usize) -> (batch: Self)
        ensures
            batch.wf(),
            batch.messages_view().len() == 0,
            batch.deletes_view().len() == 0,
            batch.size_view() == batch_size,
    {
        let batch = KeyedBatch { messages: Vec::new(), ids: Vec::new(), messages_delete: Vec::new(), batch_size };
        assert(keys_of(batch.messages@) =~= Seq::<i64>::empty());
        batch
    }

    fn id_seen(&self, key: i64) -> (seen: bool)
        ensures
            seen == self.ids@.contains(key),
    {
        let mut i: usize = 0;
        while i < self.ids.len()
            invariant
                i <= self.ids.len(),
                forall|j: int| 0 <= j < i ==> self.ids@[j] != key,
            decreases self.ids.len() - i,
        {
            if self.ids[i] == key {
                return true;
            }
            i = i + 1;
        }
        false
    }

    fn message_position(&self, key: i64) -> (p: usize)
        ensures
            p <= self.messages@.len(),
            p < self.messages@.len() ==> keyed::<T>(key)(self.messages@[p as int]),
            forall|j: int| 0 <= j < p ==> !keyed::<T>(key)(#[trigger] self.messages@[j]),
    {
        let mut p: usize = 0;
        while p < self.messages.len()
            invariant
                p <= self.messages.len(),
                forall|j: int| 0 <= j < p ==> !keyed::<T>(key)(#[trigger] self.messages@[j]),
            decreases self.messages.len() - p,
        {
            if self.messages[p].0 == key {
                return p;
            }
            p = p + 1;
        }
        p
    }

    fn drop_message(&mut self, key: i64)
        requires
            old(self).wf(),
        ensures
            final(self).messages@ == without_first(old(self).messages@, keyed::<T>(key)),
            final(self).ids@ == old(self).ids@,
            final(self).messages_delete@ == old(self).messages_delete@,
            final(self).batch_size == old(self).batch_size,
            keys_of(final(self).messages@).no_duplicates(),
            !keys_of(final(self).messages@).contains(key),
            forall|k: i64| #[trigger] keys_of(final(self).messages@).contains(k) ==> keys_of(old(self).messages@).contains(k),
    {
        let ghost before = self.messages@;
        let p = self.message_position(key);
        if p < self.messages.len() {
            proof {
                crate::experience::lemma_without_first_at(before, keyed::<T>(key), p as int);
            }
            self.messages.remove(p);
            proof {
                let ks = keys_of(before);
                let ks2 = keys_of(self.messages@);
                assert(ks2 =~= ks.remove(p as int));
                assert forall|a: int, b: int| 0 <= a < b < ks2.len() implies ks2[a] != ks2[b] by {
                    let a0 = if a < p { a } else { a + 1 };
                    let b0 = if b < p { b } else { b + 1 };
                    assert(ks2[a] == ks[a0]);
                    assert(ks2[b] == ks[b0]);
                }
                assert forall|k: i64| #[trigger] ks2.contains(k) implies ks.contains(k) && k != key by {
                    let m = choose|m: int| 0 <= m < ks2.len() && ks2[m] == k;
                    let m0 = if m < p { m } else { m + 1 };
                    assert(ks[m0] == k);
                    assert(ks[p as int] == key);
                    assert(m0 != p);
                }
            }
        } else {
            proof {
                crate::experience::lemma_without_first_none(before, keyed::<T>(key));
                assert forall|k: i64| #[trigger] keys_of(before).contains(k) implies k != key by {
                    let m = choose|m: int| 0 <= m < keys_of(before).len() && keys_of(before)[m] == k;
                    assert(!keyed::<T>(key)(before[m]));
                }
            }
        }
    }
}

impl<T> KeyedBatch<T> {
    fn drop_delete(&mut self, key: i64)
        ensures
            final(self).messages_delete@ == without_first(old(self).messages_delete@, is_id(key)),
            final(self).messages@ == old(self).messages@,
            final(self).ids@ == old(self).ids@,
            final(self).batch_size == old(self).batch_size,
    {
        let ghost before = self.messages_delete@;
        let p = self.delete_position(key);
        if p < self.messages_delete.len() {
            proof {
                crate::experience::lemma_without_first_at(before, is_id(key), p as int);
            }
            self.messages_delete.remove(p);
        } else {
            proof {
                crate::experience::lemma_without_first_none(before, is_id(key));
            }
        }
    }

    fn delete_position(&self, key: i64) -> (p: usize)
        ensures
            p <= self.messages_delete@.len(),
            p < self.messages_delete@.len() ==> is_id(key)(self.messages_delete@[p as int]),
            forall|j: int| 0 <= j < p ==> !is_id(key)(#[trigger] self.messages_delete@[j]),
    {
        let mut p: usize = 0;
        while p < self.messages_delete.len()
            invariant
                p <= self.messages_delete.len(),
                forall|j: int| 0 <= j < p ==> !is_id(key)(#[trigger] self.messages_delete@[j]),
            decreases self.messages_delete.len() - p,
        {
            if self.messages_delete[p] == key {
                return p;
            }
            p = p + 1;
        }
        p
    }

    fn push_record(&mut self, key: i64, record: T)
        requires
            old(self).wf(),
            !keys_of(old(self).messages@).contains(key),
        ensures
            final(self).wf(),
            final(self).messages@ == old(self).messages@.push((key, record)),
            final(self).messages_delete@ == old(self).messages_delete@,
            final(self).batch_size == old(self).batch_size,
    {
        let ghost before = self.messages@;
        let ghost seen = self.ids@;
        self.ids.push(key);
        self.messages.push((key, record));
        proof {
            let ks = keys_of(before);
            let ks2 = keys_of(self.messages@);
            assert(ks2 =~= ks.push(key));
            assert forall|a: int, b: int| 0 <= a < b < ks2.len() implies ks2[a] != ks2[b] by {
                assert(ks2[a] == ks[a]);
                if b < ks.len() {
                    assert(ks2[b] == ks[b]);
                } else {
                    assert(ks.contains(ks[a]));
                }
            }
            assert forall|k: i64| #[trigger] ks2.contains(k) implies self.ids@.contains(k) by {
                let m = choose|m: int| 0 <= m < ks2.len() && ks2[m] == k;
                if m < ks.len() {
                    assert(ks.contains(k));
                    let q = choose|q: int| 0 <= q < seen.len() && seen[q] == k;
                    assert(self.ids@[q] == k);
                } else {
                    assert(self.ids@[self.ids@.len() - 1] == k);
                }
            }
        }
    }

    /// A record appeared: a waiting delete of its id is dropped, a waiting record of
    /// the same id gives way, and the record waits last. Tells whether the batch is
    /// now due to be written.
    pub fn on_insert(&mut self, key: i64, record: T) -> (due: bool)
        requires
            old(self).wf(),
        ensures
            final(self).wf(),
            final(self).messages_view() == without_first(old(self).messages_view(), keyed::<T>(key)).push(
                (key, record),
            ),
            final(self).deletes_view() == without_first(old(self).deletes_view(), is_id(key)),
            final(self).size_view() == old(self).size_view(),
            due == (final(self).messages_view().len() >= final(self).size_view()),
    {
        self.drop_delete(key);
        if self.id_seen(key) {
            self.drop_message(key);
        } else {
            proof {
                lemma_no_key(self.messages@, key);
                crate::experience::lemma_without_first_none(self.messages@, keyed::<T>(key));
            }
        }
        self.push_record(key, record);
        self.messages.len() >= self.batch_size
    }

    /// A record changed: as for a record that appeared (see `on_insert`).
    pub fn on_update(&mut self, key: i64, record: T) -> (due: bool)
        requires
            old(self).wf(),
        ensures
            final(self).wf(),
            final(self).messages_view() == without_first(old(self).messages_view(), keyed::<T>(key)).push(
                (key, record),
            ),
            final(self).deletes_view() == without_first(old(self).deletes_view(), is_id(key)),
            final(self).size_view() == old(self).size_view(),
            due == (final(self).messages_view().len() >= final(self).size_view()),
    {
        if self.id_seen(key) {
            self.drop_message(key);
        } else {
            proof {
                lemma_no_key(self.messages@, key);
                crate::experience::lemma_without_first_none(self.messages@, keyed::<T>(key));
            }
        }
        self.drop_delete(key);
        self.push_record(key, record);
        self.messages.len() >= self.batch_size
    }

    /// A record disappeared: nothing changes when the game moved it to another region
    /// (reducer `transfer_player_delayed`); otherwise a waiting record of its id is
    /// dropped and the id waits for deletion. Tells whether the batch is now due to be
    /// written.
    pub fn on_remove(&mut self, key: i64, reducer_name: Option<&str>) -> (due: bool)
        requires
            old(self).wf(),
        ensures
            final(self).wf(),
            final(self).size_view() == old(self).size_view(),
            match reducer_name {
                Some(r) if r@ == "transfer_player_delayed"@ => {
                    &&& final(self).messages_view() == old(self).messages_view()
                    &&& final(self).deletes_view() == old(self).deletes_view()
                    &&& !due
                },
                _ => {
                    &&& final(self).messages_view() == without_first(old(self).messages_view(), keyed::<T>(key))
                    &&& final(self).deletes_view() == old(self).deletes_view().push(key)
                    &&& due == (final(self).deletes_view().len() >= final(self).size_view())
                },
            },
    {
        if let Some(r) = reducer_name {
            if same_text(r, "transfer_player_delayed") {
                return false;
            }
        }
        if self.id_seen(key) {
            self.drop_message(key);
        } else {
            proof {
                lemma_no_key(self.messages@, key);
                crate::experience::lemma_without_first_none(self.messages@, keyed::<T>(key));
            }
        }
        self.messages_delete.push(key);
        self.messages_delete.len() >= self.batch_size
    }

    /// Nothing waits.
    pub fn is_idle(&self) -> (idle: bool)
        ensures
            idle == (self.messages_view().len() == 0 && self.deletes_view().len() == 0),
    {
        self.messages.len() == 0 && self.messages_delete.len() == 0
    }

    /// Hands out the waiting records and ids, in arrival order, and starts over empty.
    pub fn take(&mut self) -> (taken: (Vec<(i64, T)>, Vec<i64>))
        ensures
            taken.0@ == old(self).messages_view(),
            taken.1@ == old(self).deletes_view(),
            final(self).wf(),
            final(self).messages_view().len() == 0,
            final(self).deletes_view().len() == 0,
            final(self).size_view() == old(self).size_view(),
    {
        let mut messages: Vec<(i64, T)> = Vec::new();
        let mut deletes: Vec<i64> = Vec::new();
        let mut ids: Vec<i64> = Vec::new();
        std::mem::swap(&mut messages, &mut self.messages);
        std::mem::swap(&mut deletes, &mut self.messages_delete);
        std::mem::swap(&mut ids, &mut self.ids);
        assert(keys_of(self.messages@) =~= Seq::<i64>::empty());
        (messages, deletes)
    }
}

/// No waiting record has the id `key` after it disappeared, and exactly one, the new
/// one, after it appeared or changed: a batch keeps at most one record per id.
pub proof fn lemma_one_record_per_id<T>(messages: Seq<(i64, T)>, key: i64, record: T)
    requires
        keys_of(messages).no_duplicates(),
    ensures
        forall|i: int|
            0 <= i < without_first(messages, keyed::<T>(key)).len() ==> (#[trigger] without_first(
                messages,
                keyed::<T>(key),
            )[i]).0 != key,
        without_first(messages, keyed::<T>(key)).push((key, record)).filter(keyed::<T>(key)) == seq![(key, record)],
    decreases messages.len(),
{
    let rest = without_first(messages, keyed::<T>(key));
    lemma_without_first_keys(messages, key);
    rest.lemma_filter_push((key, record), keyed::<T>(key));
    assert forall|i: int| 0 <= i < rest.len() implies !keyed::<T>(key)(#[trigger] rest[i]) by {}
    rest.lemma_all_neg_filter_empty(keyed::<T>(key));
    assert(rest.filter(keyed::<T>(key)) =~= Seq::<(i64, T)>::empty());
    assert(Seq::<(i64, T)>::empty().push((key, record)) =~= seq![(key, record)]);
}

proof fn lemma_no_key<T>(messages: Seq<(i64, T)>, key: i64)
    requires
        !keys_of(messages).contains(key),
    ensures
        forall|i: int| 0 <= i < messages.len() ==> !keyed::<T>(key)(#[trigger] messages[i]),
{
    assert forall|i: int| 0 <= i < messages.len() implies !keyed::<T>(key)(#[trigger] messages[i]) by {
        assert(keys_of(messages)[i] == messages[i].0);
    }
}

proof fn lemma_without_first_keys<T>(messages: Seq<(i64, T)>, key: i64)
    requires
        keys_of(messages).no_duplicates(),
    ensures
        forall|i: int|
            0 <= i < without_first(messages, keyed::<T>(key)).len() ==> (#[trigger] without_first(
                messages,
                keyed::<T>(key),
            )[i]).0 != key,
    decreases messages.len(),
{
    if messages.len() > 0 {
        let rest = messages.drop_first();
        assert(keys_of(rest) =~= keys_of(messages).drop_first());
        assert forall|a: int, b: int| 0 <= a < b < keys_of(rest).len() implies keys_of(rest)[a] != keys_of(rest)[b] by {
            assert(keys_of(rest)[a] == keys_of(messages)[a + 1]);
            assert(keys_of(rest)[b] == keys_of(messages)[b + 1]);
        }
        if messages[0].0 == key {
            assert forall|i: int| 0 <= i < rest.len() implies (#[trigger] rest[i]).0 != key by {
                assert(keys_of(messages)[0] == key);
                assert(keys_of(messages)[i + 1] == rest[i].0);
            }
        } else {
            lemma_without_first_keys(rest, key);
            let r = without_first(rest, keyed::<T>(key));
            assert(without_first(messages, keyed::<T>(key)) == seq![messages[0]] + r);
            assert forall|i: int| 0 <= i < (seq![messages[0]] + r).len() implies (#[trigger] (seq![messages[0]] + r)[i]).0 != key by {
                if i > 0 {
                    assert((seq![messages[0]] + r)[i] == r[i - 1]);
                }
            }
        }
    }
}

/// Of an initial snapshot, the record at `i` is stored unless its id is known, seen
/// there for the first time, and the known record is the same.
pub open spec fn stored_in_snapshot(incoming: Seq<i64>, unchanged: Seq<bool>, known: Seq<i64>, i: int) -> bool {
    !(known.contains(incoming[i]) && !incoming.take(i).contains(incoming[i]) && unchanged[i])
}

/// For an initial snapshot of a region: the positions of the incoming records to
/// store (see `stored_in_snapshot`), in order, and the known ids that the snapshot no
/// longer holds, to delete, in the order known. `unchanged[i]` tells whether the
/// known record of the id of the `i`-th incoming record equals it.
pub fn initial_plan(incoming: &Vec<i64>, unchanged: &Vec<bool>, known: &Vec<i64>) -> (plan: (Vec<usize>, Vec<i64>))
    requires
        incoming@.len() == unchanged@.len(),
    ensures
        forall|a: int, b: int| 0 <= a < b < plan.0@.len() ==> plan.0@[a] < plan.0@[b],
        forall|i: int|
            0 <= i < incoming@.len() ==> (plan.0@.contains(i as usize) <==> stored_in_snapshot(
                incoming@,
                unchanged@,
                known@,
                i,
            )),
        forall|k: int| 0 <= k < plan.0@.len() ==> plan.0@[k] < incoming@.len(),
        plan.1@ == known@.filter(|id: i64| !incoming@.contains(id)),
{
    let mut store: Vec<usize> = Vec::new();
    let mut i: usize = 0;
    while i < incoming.len()
        invariant
            i <= incoming.len(),
            incoming@.len() == unchanged@.len(),
            forall|a: int, b: int| 0 <= a < b < store@.len() ==> store@[a] < store@[b],
            forall|k: int| 0 <= k < store@.len() ==> store@[k] < i,
            forall|j: int|
                0 <= j < i ==> (store@.contains(j as usize) <==> stored_in_snapshot(
                    incoming@,
                    unchanged@,
                    known@,
                    j,
                )),
        decreases incoming.len() - i,
    {
        let key = incoming[i];
        let in_known = contains_id(known, key);
        let seen_before = contains_prefix(incoming, i, key);
        let ghost before = store@;
        if !(in_known && !seen_before && unchanged[i]) {
            store.push(i);
        }
        proof {
            assert forall|j: int| 0 <= j < i + 1 implies (store@.contains(j as usize) <==> stored_in_snapshot(
                incoming@,
                unchanged@,
                known@,
                j,
            )) by {
                if j < i {
                    if store@.contains(j as usize) {
                        let m = choose|m: int| 0 <= m < store@.len() && store@[m] == j as usize;
                        if m < before.len() {
                            assert(before.contains(j as usize));
                        }
                    }
                    if before.contains(j as usize) {
                        let m = choose|m: int| 0 <= m < before.len() && before[m] == j as usize;
                        assert(store@[m] == j as usize);
                    }
                } else {
                    if store@.contains(j as usize) {
                        let m = choose|m: int| 0 <= m < store@.len() && store@[m] == j as usize;
                        assert(m == before.len());
                    }
                    if store@.len() > before.len() {
                        assert(store@[before.len() as int] == j as usize);
                    }
                }
            }
        }
        i = i + 1;
    }
    let mut delete: Vec<i64> = Vec::new();
    let mut k: usize = 0;
    while k < known.len()
        invariant
            k <= known.len(),
            delete@ == known@.take(k as int).filter(|id: i64| !incoming@.contains(id)),
        decreases known.len() - k,
    {
        let id = known[k];
        proof {
            assert(known@.take(k + 1) =~= known@.take(k as int).push(id));
            known@.take(k as int).lemma_filter_push(id, |id: i64| !incoming@.contains(id));
        }
        if !contains_id(incoming, id) {
            delete.push(id);
        }
        k = k + 1;
    }
    assert(known@.take(k as int) =~= known@);
    (store, delete)
}

fn contains_id(ids: &Vec<i64>, id: i64) -> (found: bool)
    ensures
        found == ids@.contains(id),
{
    let mut i: usize = 0;
    while i < ids.len()
        invariant
            i <= ids.len(),
            forall|j: int| 0 <= j < i ==> ids@[j] != id,
        decreases ids.len() - i,
    {
        if ids[i] == id {
            return true;
        }
        i = i + 1;
    }
    false
}

fn contains_prefix(ids: &Vec<i64>, n: usize, id: i64) -> (found: bool)
    requires
        n <= ids.len(),
    ensures
        found == ids@.take(n as int).contains(id),
{
    let mut i: usize = 0;
    while i < n
        invariant
            i <= n <= ids.len(),
            forall|j: int| 0 <= j < i ==> ids@[j] != id,
        decreases n - i,
    {
        if ids[i] == id {
            assert(ids@.take(n as int)[i as int] == id);
            return true;
        }
        i = i + 1;
    }
    proof {
        if ids@.take(n as int).contains(id) {
            let m = choose|m: int| 0 <= m < n && ids@.take(n as int)[m] == id;
            assert(ids@[m] == id);
        }
    }
    false
}


/// Records to store, which may hold several records of one id, and ids to delete.
pub struct AppendBatch<T> {
    messages: Vec<(i64, T)>,
    messages_delete: Vec<i64>,
    batch_size: usize,
}

fn first_keyed<T>(messages: &Vec<(i64, T)>, key: i64) -> (p: usize)
    ensures
        p <= messages@.len(),
        p < messages@.len() ==> keyed::<T>(key)(messages@[p as int]),
        forall|j: int| 0 <= j < p ==> !keyed::<T>(key)(#[trigger] messages@[j]),
{
    let mut p: usize = 0;
    while p < messages.len()
        invariant
            p <= messages.len(),
            forall|j: int| 0 <= j < p ==> !keyed::<T>(key)(#[trigger] messages@[j]),
        decreases messages.len() - p,
    {
        if messages[p].0 == key {
            return p;
        }
        p = p + 1;
    }
    p
}

fn first_id(ids: &Vec<i64>, key: i64) -> (p: usize)
    ensures
        p <= ids@.len(),
        p < ids@.len() ==> is_id(key)(ids@[p as int]),
        forall|j: int| 0 <= j < p ==> !is_id(key)(#[trigger] ids@[j]),
{
    let mut p: usize = 0;
    while p < ids.len()
        invariant
            p <= ids.len(),
            forall|j: int| 0 <= j < p ==> !is_id(key)(#[trigger] ids@[j]),
        decreases ids.len() - p,
    {
        if ids[p] == key {
            return p;
        }
        p = p + 1;
    }
    p
}

impl<T> AppendBatch<T> {
    /// The records waiting to be stored, with their keys, in arrival order.
    pub closed spec fn messages_view(&self) -> Seq<(i64, T)> {
        self.messages@
    }

    /// The ids waiting to be deleted, in arrival order.
    pub closed spec fn deletes_view(&self) -> Seq<i64> {
        self.messages_delete@
    }

    /// The number of records or ids that triggers a flush.
    pub closed spec fn size_view(&self) -> usize {
        self.batch_size
    }

    /// An empty batch.
    pub fn new(batch_size: usize) -> (batch: Self)
        ensures
            batch.messages_view().len() == 0,
            batch.deletes_view().len() == 0,
            batch.size_view() == batch_size,
    {
        AppendBatch { messages: Vec::new(), messages_delete: Vec::new(), batch_size }
    }

    fn cancel_delete(&mut self, key: i64)
        ensures
            final(self).messages_delete@ == without_first(old(self).messages_delete@, is_id(key)),
            final(self).messages@ == old(self).messages@,
            final(self).batch_size == old(self).batch_size,
    {
        let ghost before = self.messages_delete@;
        let p = first_id(&self.messages_delete, key);
        if p < self.messages_delete.len() {
            proof {
                crate::experience::lemma_without_first_at(before, is_id(key), p as int);
            }
            self.messages_delete.remove(p);
        } else {
            proof {
                crate::experience::lemma_without_first_none(before, is_id(key));
            }
        }
    }

    fn drop_pending(&mut self, key: i64)
        ensures
            final(self).messages@ == without_first(old(self).messages@, keyed::<T>(key)),
            final(self).messages_delete@ == old(self).messages_delete@,
            final(self).batch_size == old(self).batch_size,
    {
        let ghost before = self.messages@;
        let p = first_keyed(&self.messages, key);
        if p < self.messages.len() {
            proof {
                crate::experience::lemma_without_first_at(before, keyed::<T>(key), p as int);
            }
            self.messages.remove(p);
        } else {
            proof {
                crate::experience::lemma_without_first_none(before, keyed::<T>(key));
            }
        }
    }

    /// A record arrived that joins the waiting ones: a waiting delete of its id is
    /// dropped and the record waits last, beside any earlier record of the id. Tells
    /// whether the batch is now due to be written.
    pub fn on_append(&mut self, key: i64, record: T) -> (due: bool)
        ensures
            final(self).messages_view() == old(self).messages_view().push((key, record)),
            final(self).deletes_view() == without_first(old(self).deletes_view(), is_id(key)),
            final(self).size_view() == old(self).size_view(),
            due == (final(self).messages_view().len() >= final(self).size_view()),
    {
        self.cancel_delete(key);
        self.messages.push((key, record));
        self.messages.len() >= self.batch_size
    }

    /// A record arrived that replaces a waiting one: the first waiting record of its id
    /// gives way, a waiting delete of the id is dropped, and the record waits last.
    /// Tells whether the batch is now due to be written.
    pub fn on_replace(&mut self, key: i64, record: T) -> (due: bool)
        ensures
            final(self).messages_view() == without_first(old(self).messages_view(), keyed::<T>(key)).push(
                (key, record),
            ),
            final(self).deletes_view() == without_first(old(self).deletes_view(), is_id(key)),
            final(self).size_view() == old(self).size_view(),
            due == (final(self).messages_view().len() >= final(self).size_view()),
    {
        self.drop_pending(key);
        self.cancel_delete(key);
        self.messages.push((key, record));
        self.messages.len() >= self.batch_size
    }

    /// A record disappeared: nothing changes when the game moved it to another region
    /// (reducer `transfer_player_delayed`); otherwise the first waiting record of its id
    /// is dropped and the id waits for deletion. Tells whether the batch is now due to
    /// be written.
    pub fn on_remove(&mut self, key: i64, reducer_name: Option<&str>) -> (due: bool)
        ensures
            final(self).size_view() == old(self).size_view(),
            match reducer_name {
                Some(r) if r@ == "transfer_player_delayed"@ => {
                    &&& final(self).messages_view() == old(self).messages_view()
                    &&& final(self).deletes_view() == old(self).deletes_view()
                    &&& !due
                },
                _ => {
                    &&& final(self).messages_view() == without_first(old(self).messages_view(), keyed::<T>(key))
                    &&& final(self).deletes_view() == old(self).deletes_view().push(key)
                    &&& due == (final(self).deletes_view().len() >= final(self).size_view())
                },
            },
    {
        if let Some(r) = reducer_name {
            proof {
                reveal_strlit("transfer_player_delayed");
            }
            if same_text(r, "transfer_player_delayed") {
                return false;
            }
        }
        self.drop_pending(key);
        self.messages_delete.push(key);
        self.messages_delete.len() >= self.batch_size
    }

    /// Nothing waits.
    pub fn is_idle(&self) -> (idle: bool)
        ensures
            idle == (self.messages_view().len() == 0 && self.deletes_view().len() == 0),
    {
        self.messages.len() == 0 && self.messages_delete.len() == 0
    }

    /// Hands out the waiting records and ids, in arrival order, and starts over empty.
    pub fn take(&mut self) -> (taken: (Vec<(i64, T)>, Vec<i64>))
        ensures
            taken.0@ == old(self).messages_view(),
            taken.1@ == old(self).deletes_view(),
            final(self).messages_view().len() == 0,
            final(self).deletes_view().len() == 0,
            final(self).size_view() == old(self).size_view(),
    {
        let mut messages: Vec<(i64, T)> = Vec::new();
        let mut deletes: Vec<i64> = Vec::new();
        std::mem::swap(&mut messages, &mut self.messages);
        std::mem::swap(&mut deletes, &mut self.messages_delete);
        (messages, deletes)
    }
}


/// No later entry of `ids` has the id of the entry at `i`.
pub open spec fn last_of_id(ids: Seq<i64>, i: int) -> bool {
    forall|j: int| i < j < ids.len() ==> ids[j] != ids[i]
}

/// For one transaction of the game: the positions of the inserted records to store,
/// the last record of each id, in order, and the deleted ids to delete, those not
/// inserted again in the same transaction, each once in order of first appearance.
pub fn transaction_plan(insert_ids: &Vec<i64>, delete_ids: &Vec<i64>) -> (plan: (Vec<usize>, Vec<i64>))
    ensures
        forall|a: int, b: int| 0 <= a < b < plan.0@.len() ==> plan.0@[a] < plan.0@[b],
        forall|k: int| 0 <= k < plan.0@.len() ==> plan.0@[k] < insert_ids@.len(),
        forall|i: int| 0 <= i < insert_ids@.len() ==> (plan.0@.contains(i as usize) <==> last_of_id(insert_ids@, i)),
        plan.1@.no_duplicates(),
        forall|x: i64| #[trigger] plan.1@.contains(x) <==> (delete_ids@.contains(x) && !insert_ids@.contains(x)),
{
    let n = insert_ids.len();
    let mut store: Vec<usize> = Vec::new();
    let mut i: usize = 0;
    while i < n
        invariant
            i <= n,
            n == insert_ids@.len(),
            forall|a: int, b: int| 0 <= a < b < store@.len() ==> store@[a] < store@[b],
            forall|k: int| 0 <= k < store@.len() ==> store@[k] < i,
            forall|m: int| 0 <= m < n ==> (store@.contains(m as usize) <==> (m < i && last_of_id(insert_ids@, m))),
        decreases n - i,
    {
        let id = insert_ids[i];
        let mut j: usize = i + 1;
        let mut later = false;
        while j < n
            invariant
                i < j <= n,
                n == insert_ids@.len(),
                id == insert_ids@[i as int],
                later == exists|q: int| i < q < j && insert_ids@[q] == id,
            decreases n - j,
        {
            if insert_ids[j] == id {
                later = true;
            }
            j = j + 1;
        }
        let ghost before = store@;
        if !later {
            store.push(i);
        }
        proof {
            assert forall|m: int| 0 <= m < n implies (store@.contains(m as usize) <==> (m < i + 1 && last_of_id(
                insert_ids@,
                m,
            ))) by {
                if m == i {
                    if later {
                        let q = choose|q: int| i < q < n && insert_ids@[q] == id;
                        assert(!last_of_id(insert_ids@, m));
                        assert(!before.contains(i as usize));
                    } else {
                        assert(store@[store@.len() - 1] == i);
                    }
                } else {
                    if store@.contains(m as usize) && !before.contains(m as usize) {
                        let r = choose|r: int| 0 <= r < store@.len() && store@[r] == m as usize;
                        assert(r == before.len());
                    }
                    if before.contains(m as usize) {
                        let r = choose|r: int| 0 <= r < before.len() && before[r] == m as usize;
                        assert(store@[r] == m as usize);
                    }
                }
            }
        }
        i = i + 1;
    }
    let mut delete: Vec<i64> = Vec::new();
    let mut k: usize = 0;
    while k < delete_ids.len()
        invariant
            k <= delete_ids.len(),
            delete@.no_duplicates(),
            forall|x: i64| #[trigger] delete@.contains(x) <==> (delete_ids@.take(k as int).contains(x)
                && !insert_ids@.contains(x)),
        decreases delete_ids.len() - k,
    {
        let id = delete_ids[k];
        let ghost before = delete@;
        let ghost prev = delete_ids@.take(k as int);
        let ghost next = delete_ids@.take(k + 1);
        proof {
            assert(next =~= prev.push(id));
        }
        if !contains_id(insert_ids, id) && !contains_id(&delete, id) {
            delete.push(id);
            proof {
                assert forall|a: int, b: int| 0 <= a < b < delete@.len() implies delete@[a] != delete@[b] by {
                    if b == before.len() {
                        assert(before.contains(delete@[a]));
                    }
                }
            }
        }
        proof {
            assert forall|x: i64| #[trigger] delete@.contains(x) <==> (next.contains(x) && !insert_ids@.contains(x)) by {
                if delete@.contains(x) && !before.contains(x) {
                    assert(delete@[delete@.len() - 1] == x);
                    assert(next[k as int] == x);
                }
                if before.contains(x) {
                    let m = choose|m: int| 0 <= m < before.len() && before[m] == x;
                    assert(delete@[m] == x);
                    let q = choose|q: int| 0 <= q < k && prev[q] == x;
                    assert(next[q] == x);
                }
                if next.contains(x) && !insert_ids@.contains(x) {
                    let q = choose|q: int| 0 <= q < k + 1 && next[q] == x;
                    if q < k {
                        assert(prev[q] == x);
                        assert(before.contains(x));
                    } else {
                        assert(x == id);
                    }
                    if before.contains(x) {
                        let m = choose|m: int| 0 <= m < before.len() && before[m] == x;
                        assert(delete@[m] == x);
                    } else {
                        assert(delete@[delete@.len() - 1] == x);
                    }
                }
            }
        }
        k = k + 1;
    }
    assert(delete_ids@.take(k as int) =~= delete_ids@);
    (store, delete)
}


/// The ids of the first `n` rows of an import chunk that storage does not hold, in order.
pub open spec fn missing_ids(ids: Seq<i64>, found: Seq<bool>, n: int) -> Seq<i64>
    decreases n,
{
    if n <= 0 {
        Seq::empty()
    } else if !found[n - 1] {
        missing_ids(ids, found, n - 1).push(ids[n - 1])
    } else {
        missing_ids(ids, found, n - 1)
    }
}

/// `pending` after the first id of it equal to each of the ids of the first `n`
/// written rows is dropped, in order.
pub open spec fn cleared(pending: Seq<i64>, ids: Seq<i64>, writes: Seq<usize>, n: int) -> Seq<i64>
    decreases n,
{
    if n <= 0 {
        pending
    } else {
        without_first(cleared(pending, ids, writes, n - 1), is_id(ids[writes[n - 1] as int]))
    }
}

/// A row of an import chunk is written when storage does not hold its id, or holds a
/// different record for it.
pub open spec fn row_written(found: Seq<bool>, unchanged: Seq<bool>, i: int) -> bool {
    !found[i] || !unchanged[i]
}

/// The ids waiting for deletion after a chunk of a description import: for a full
/// chunk, the ids storage does not hold join them when storage holds fewer records
/// than the chunk has rows, and then, when some row is written, the first waiting id
/// equal to the id of each written row is dropped; a last, partial chunk leaves them.
pub open spec fn pending_after_chunk(
    pending: Seq<i64>,
    ids: Seq<i64>,
    found: Seq<bool>,
    db_count: int,
    full_chunk: bool,
    writes: Seq<usize>,
) -> Seq<i64> {
    if !full_chunk {
        pending
    } else {
        let extended = if db_count != ids.len() {
            pending + missing_ids(ids, found, ids.len() as int)
        } else {
            pending
        };
        cleared(extended, ids, writes, writes.len() as int)
    }
}

/// One chunk of a description import: `ids[i]` is the id of the `i`-th row, `found[i]`
/// whether storage holds a record of that id, `unchanged[i]` whether that record equals
/// the row, and `db_count` the number of records storage returned for the chunk. Gives
/// the positions of the rows to write, in order (see `row_written`), and updates the ids
/// waiting for deletion (see `pending_after_chunk`).
pub fn import_chunk(
    ids: &Vec<i64>,
    found: &Vec<bool>,
    unchanged: &Vec<bool>,
    db_count: usize,
    full_chunk: bool,
    pending: &mut Vec<i64>,
) -> (writes: Vec<usize>)
    requires
        ids@.len() == found@.len(),
        ids@.len() == unchanged@.len(),
    ensures
        forall|a: int, b: int| 0 <= a < b < writes@.len() ==> writes@[a] < writes@[b],
        forall|k: int| 0 <= k < writes@.len() ==> writes@[k] < ids@.len(),
        forall|i: int| 0 <= i < ids@.len() ==> (writes@.contains(i as usize) <==> row_written(found@, unchanged@, i)),
        final(pending)@ == pending_after_chunk(old(pending)@, ids@, found@, db_count as int, full_chunk, writes@),
{
    let n = ids.len();
    let mut writes: Vec<usize> = Vec::new();
    let mut i: usize = 0;
    while i < n
        invariant
            i <= n,
            n == ids@.len(),
            n == found@.len(),
            n == unchanged@.len(),
            forall|a: int, b: int| 0 <= a < b < writes@.len() ==> writes@[a] < writes@[b],
            forall|k: int| 0 <= k < writes@.len() ==> writes@[k] < i,
            forall|m: int| 0 <= m < n ==> (writes@.contains(m as usize) <==> (m < i && row_written(found@, unchanged@, m))),
        decreases n - i,
    {
        let ghost before = writes@;
        if !found[i] || !unchanged[i] {
            writes.push(i);
        }
        proof {
            assert forall|m: int| 0 <= m < n implies (writes@.contains(m as usize) <==> (m < i + 1 && row_written(
                found@,
                unchanged@,
                m,
            ))) by {
                if m == i {
                    if row_written(found@, unchanged@, m) {
                        assert(writes@[writes@.len() - 1] == i);
                    } else {
                        assert(!before.contains(i as usize));
                    }
                } else {
                    if writes@.contains(m as usize) && !before.contains(m as usize) {
                        let r = choose|r: int| 0 <= r < writes@.len() && writes@[r] == m as usize;
                        assert(r == before.len());
                    }
                    if before.contains(m as usize) {
                        let r = choose|r: int| 0 <= r < before.len() && before[r] == m as usize;
                        assert(writes@[r] == m as usize);
                    }
                }
            }
        }
        i = i + 1;
    }
    if !full_chunk {
        return writes;
    }
    if db_count != n {
        let ghost start = pending@;
        let mut j: usize = 0;
        while j < n
            invariant
                j <= n,
                n == ids@.len(),
                n == found@.len(),
                pending@ == start + missing_ids(ids@, found@, j as int),
            decreases n - j,
        {
            if !found[j] {
                pending.push(ids[j]);
            }
            j = j + 1;
        }
    }
    let ghost extended = pending@;
    let mut k: usize = 0;
    while k < writes.len()
        invariant
            k <= writes.len(),
            forall|q: int| 0 <= q < writes@.len() ==> writes@[q] < ids@.len(),
            pending@ == cleared(extended, ids@, writes@, k as int),
        decreases writes.len() - k,
    {
        let id = ids[writes[k]];
        let ghost before = pending@;
        let p = first_id(pending, id);
        if p < pending.len() {
            proof {
                crate::experience::lemma_without_first_at(before, is_id(id), p as int);
            }
            pending.remove(p);
        } else {
            proof {
                crate::experience::lemma_without_first_none(before, is_id(id));
            }
        }
        k = k + 1;
    }
    writes
}

} // verus!
