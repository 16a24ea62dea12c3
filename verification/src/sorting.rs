//! A stable sort by a key of up to three integers, compared lexicographically.
use vstd::prelude::*;

verus! {

/// Lexicographic order on integer triples.
pub open spec fn key_le(a: (int, int, int), b: (int, int, int)) -> bool {
    a.0 < b.0 || (a.0 == b.0 && (a.1 < b.1 || (a.1 == b.1 && a.2 <= b.2)))
}

/// Values sorted by a key.
pub trait SortKey: Sized {
    /// The key that orders values.
    spec fn sort_key(&self) -> (int, int, int);

    /// Whether the key of `self` is at or below the key of `other`.
    fn key_at_most(&self, other: &Self) -> (at_most: bool)
        ensures
            at_most == key_le(self.sort_key(), other.sort_key()),
    ;
}

/// Values whose key is `k`.
pub open spec fn has_key<T: SortKey>(k: (int, int, int)) -> spec_fn(T) -> bool {
    |e: T| e.sort_key() == k
}

/// Keys never decrease along `s`.
pub open spec fn sorted_by_key<T: SortKey>(s: Seq<T>) -> bool {
    forall|i: int, j: int| 0 <= i < j < s.len() ==> key_le(s[i].sort_key(), s[j].sort_key())
}

/// `output` is `input` sorted by key, with values of equal key in their input order.
pub open spec fn stably_sorted<T: SortKey>(input: Seq<T>, output: Seq<T>) -> bool {
    &&& output.len() == input.len()
    &&& sorted_by_key(output)
    &&& forall|k: (int, int, int)| #[trigger] output.filter(has_key::<T>(k)) == input.filter(has_key::<T>(k))
}

proof fn lemma_filter_single<T>(x: T, pred: spec_fn(T) -> bool)
    ensures
        seq![x].filter(pred) == (if pred(x) {
            seq![x]
        } else {
            Seq::<T>::empty()
        }),
{
    reveal(Seq::filter);
    assert(seq![x].drop_last() =~= Seq::<T>::empty());
    assert(Seq::<T>::empty().filter(pred) =~= Seq::<T>::empty());
}

proof fn lemma_filter_push<T>(s: Seq<T>, x: T, pred: spec_fn(T) -> bool)
    ensures
        s.push(x).filter(pred) == (if pred(x) {
            s.filter(pred).push(x)
        } else {
            s.filter(pred)
        }),
{
    reveal(Seq::filter);
    assert(s.push(x).drop_last() =~= s);
}

/// Inserting `x` after every value of key at most its own, into a sorted sequence.
proof fn lemma_insert_keeps_order<T: SortKey>(s: Seq<T>, p: int, x: T)
    requires
        0 <= p <= s.len(),
        sorted_by_key(s),
        forall|i: int| 0 <= i < p ==> key_le(s[i].sort_key(), x.sort_key()),
        forall|i: int| p <= i < s.len() ==> !key_le(s[i].sort_key(), x.sort_key()),
    ensures
        sorted_by_key(s.insert(p, x)),
        forall|k: (int, int, int)|
            #[trigger] s.insert(p, x).filter(has_key::<T>(k)) == (if x.sort_key() == k {
                s.filter(has_key::<T>(k)).push(x)
            } else {
                s.filter(has_key::<T>(k))
            }),
{
    let front = s.take(p);
    let back = s.skip(p);
    assert(s =~= front + back);
    assert(s.insert(p, x) =~= front + seq![x] + back);
    assert forall|k: (int, int, int)|
        #[trigger] s.insert(p, x).filter(has_key::<T>(k)) == (if x.sort_key() == k {
            s.filter(has_key::<T>(k)).push(x)
        } else {
            s.filter(has_key::<T>(k))
        }) by {
        let pred = has_key::<T>(k);
        Seq::filter_distributes_over_add(front + seq![x], back, pred);
        Seq::filter_distributes_over_add(front, seq![x], pred);
        Seq::filter_distributes_over_add(front, back, pred);
        lemma_filter_single(x, pred);
        if x.sort_key() == k {
            assert forall|i: int| 0 <= i < back.len() implies !pred(back[i]) by {
                assert(back[i] == s[p + i]);
            }
            back.lemma_all_neg_filter_empty(pred);
            assert(back.filter(pred) =~= Seq::<T>::empty());
            assert(front.filter(pred) + seq![x] + Seq::<T>::empty() =~= (front.filter(pred)
                + Seq::<T>::empty()).push(x));
        } else {
            assert(front.filter(pred) + Seq::<T>::empty() + back.filter(pred) =~= front.filter(
                pred,
            ) + back.filter(pred));
        }
    }
}

/// Sorts by key, keeping values of equal key in their input order.
pub fn stable_sort<T: SortKey>(items: Vec<T>) -> (sorted: Vec<T>)
    ensures
        stably_sorted(items@, sorted@),
{
    let ghost input = items@;
    let mut rest = items;
    let mut sorted: Vec<T> = Vec::new();
    let mut i: usize = 0;
    let n = rest.len();
    while rest.len() > 0
        invariant
            n == input.len(),
            i <= n,
            rest@ == input.skip(i as int),
            sorted.len() == i,
            sorted_by_key(sorted@),
            forall|k: (int, int, int)|
                #[trigger] sorted@.filter(has_key::<T>(k)) == input.take(i as int).filter(
                    has_key::<T>(k),
                ),
        decreases rest.len(),
    {
        let x = rest.remove(0);
        assert(x == input[i as int]);
        let mut p = sorted.len();
        while p > 0 && !sorted[p - 1].key_at_most(&x)
            invariant
                p <= sorted.len(),
                sorted_by_key(sorted@),
                forall|j: int| p <= j < sorted.len() ==> !key_le(sorted@[j].sort_key(), x.sort_key()),
            decreases p,
        {
            p = p - 1;
        }
        proof {
            assert forall|j: int| 0 <= j < p implies key_le(sorted@[j].sort_key(), x.sort_key()) by {
                if p > 0 {
                    assert(key_le(sorted@[p - 1].sort_key(), x.sort_key()));
                    assert(key_le(sorted@[j].sort_key(), sorted@[p - 1].sort_key()) || j == p - 1);
                }
            }
            lemma_insert_keeps_order(sorted@, p as int, x);
            assert(input.take(i + 1) =~= input.take(i as int).push(x));
            assert forall|k: (int, int, int)| #[trigger] input.take(i + 1).filter(has_key::<T>(k)) == (
            if x.sort_key() == k {
                input.take(i as int).filter(has_key::<T>(k)).push(x)
            } else {
                input.take(i as int).filter(has_key::<T>(k))
            }) by {
                lemma_filter_push(input.take(i as int), x, has_key::<T>(k));
            }
            assert(rest@ =~= input.skip(i + 1));
        }
        sorted.insert(p, x);
        i = i + 1;
    }
    assert(input.take(i as int) =~= input);
    sorted
}


/// A value of `s` whose key is `k` shows that `k` is at most the key of the last value.
proof fn lemma_member_key_at_most_last<T: SortKey>(s: Seq<T>, y: T)
    requires
        sorted_by_key(s),
        s.contains(y),
    ensures
        key_le(y.sort_key(), s.last().sort_key()),
{
    let i = choose|i: int| 0 <= i < s.len() && s[i] == y;
    if i < s.len() - 1 {
        assert(key_le(s[i].sort_key(), s[s.len() - 1].sort_key()));
    }
}

/// A sort that keeps values of equal key in their input order has exactly one
/// outcome: two sequences sorted by key, holding the same values of each key in the
/// same order, are equal.
pub proof fn lemma_stable_sort_is_unique<T: SortKey>(a: Seq<T>, b: Seq<T>)
    requires
        sorted_by_key(a),
        sorted_by_key(b),
        forall|k: (int, int, int)| #[trigger] a.filter(has_key::<T>(k)) == b.filter(has_key::<T>(k)),
    ensures
        a == b,
    decreases a.len() + b.len(),
{
    broadcast use Seq::lemma_filter_push, Seq::lemma_filter_contains_rev;

    if a.len() == 0 && b.len() == 0 {
        assert(a =~= b);
        return;
    }
    if a.len() == 0 {
        let k = b[0].sort_key();
        b.lemma_filter_contains(has_key::<T>(k), 0);
        assert(a.filter(has_key::<T>(k)) =~= Seq::<T>::empty()) by {
            reveal(Seq::filter);
        }
        assert(false);
    }
    if b.len() == 0 {
        let k = a[0].sort_key();
        a.lemma_filter_contains(has_key::<T>(k), 0);
        assert(b.filter(has_key::<T>(k)) =~= Seq::<T>::empty()) by {
            reveal(Seq::filter);
        }
        assert(false);
    }
    let x = a.last();
    let y = b.last();
    let kx = x.sort_key();
    let ky = y.sort_key();
    b.lemma_filter_contains(has_key::<T>(ky), b.len() - 1);
    assert(a.filter(has_key::<T>(ky)).contains(y));
    lemma_member_key_at_most_last(a, y);
    a.lemma_filter_contains(has_key::<T>(kx), a.len() - 1);
    assert(b.filter(has_key::<T>(kx)).contains(x));
    lemma_member_key_at_most_last(b, x);
    assert(kx == ky);
    let a1 = a.drop_last();
    let b1 = b.drop_last();
    assert(a =~= a1.push(x));
    assert(b =~= b1.push(y));
    assert(a1.filter(has_key::<T>(kx)).push(x) == b1.filter(has_key::<T>(kx)).push(y));
    assert(x == a1.filter(has_key::<T>(kx)).push(x).last());
    assert(a1.filter(has_key::<T>(kx)) =~= a1.filter(has_key::<T>(kx)).push(x).drop_last());
    assert(b1.filter(has_key::<T>(kx)) =~= b1.filter(has_key::<T>(kx)).push(y).drop_last());
    assert forall|k: (int, int, int)| #[trigger] a1.filter(has_key::<T>(k)) == b1.filter(
        has_key::<T>(k),
    ) by {
        if k != kx {
            assert(a.filter(has_key::<T>(k)) == a1.filter(has_key::<T>(k)));
            assert(b.filter(has_key::<T>(k)) == b1.filter(has_key::<T>(k)));
        }
    }
    lemma_stable_sort_is_unique(a1, b1);
}

/// No two values of `s` share a key.
pub open spec fn distinct_keys<T: SortKey>(s: Seq<T>) -> bool {
    forall|a: int, b: int| 0 <= a < b < s.len() ==> (#[trigger] s[a]).sort_key() != (#[trigger] s[b]).sort_key()
}

proof fn lemma_distinct_key_filter_len<T: SortKey>(s: Seq<T>, k: (int, int, int))
    requires
        distinct_keys(s),
    ensures
        s.filter(has_key::<T>(k)).len() <= 1,
    decreases s.len(),
{
    if s.len() > 0 {
        let r = s.drop_last();
        let p = has_key::<T>(k);
        assert(distinct_keys(r)) by {
            assert forall|a: int, b: int| 0 <= a < b < r.len() implies (#[trigger] r[a]).sort_key()
                != (#[trigger] r[b]).sort_key() by {
                assert(r[a] == s[a] && r[b] == s[b]);
            }
        }
        lemma_distinct_key_filter_len(r, k);
        assert(s =~= r.push(s.last()));
        r.lemma_filter_len_push(p, s.last());
        if p(s.last()) {
            assert(r.all(|x: T| !p(x))) by {
                assert forall|a: int| 0 <= a < r.len() implies !p(#[trigger] r[a]) by {
                    assert(r[a] == s[a]);
                    assert(s[s.len() - 1] == s.last());
                }
            }
            r.lemma_all_neg_filter_empty(p);
        }
    }
}

proof fn lemma_two_with_key<T: SortKey>(s: Seq<T>, i: int, j: int)
    requires
        0 <= i < j < s.len(),
        s[i].sort_key() == s[j].sort_key(),
    ensures
        s.filter(has_key::<T>(s[i].sort_key())).len() >= 2,
{
    let p = has_key::<T>(s[i].sort_key());
    assert(s.take(i + 1) =~= s.take(i).push(s[i]));
    s.take(i).lemma_filter_len_push(p, s[i]);
    assert(s.take(j).take(i + 1) =~= s.take(i + 1));
    s.take(j).lemma_filter_take_len(p, i + 1);
    assert(s.take(j + 1) =~= s.take(j).push(s[j]));
    s.take(j).lemma_filter_len_push(p, s[j]);
    s.lemma_filter_take_len(p, j + 1);
}

/// Sorting values whose keys are distinct gives values whose keys are distinct.
pub proof fn lemma_stably_sorted_keeps_keys_distinct<T: SortKey>(input: Seq<T>, output: Seq<T>)
    requires
        stably_sorted(input, output),
        distinct_keys(input),
    ensures
        distinct_keys(output),
{
    assert forall|a: int, b: int| 0 <= a < b < output.len() implies (#[trigger] output[a]).sort_key()
        != (#[trigger] output[b]).sort_key() by {
        if output[a].sort_key() == output[b].sort_key() {
            let k = output[a].sort_key();
            lemma_two_with_key(output, a, b);
            lemma_distinct_key_filter_len(input, k);
            assert(output.filter(has_key::<T>(k)) == input.filter(has_key::<T>(k)));
        }
    }
}

} // verus!
