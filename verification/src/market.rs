//! Market orders: the item keys a request selects, per-item order statistics, and
//! the grouping of orders by item key.
use crate::claims::ItemKind;
use crate::text::{decimal, format_i64, slice_text, texts};
use vstd::prelude::*;
use vstd::string::StringExecFns;

verus! {

/// The characters with the Unicode `White_Space` property, those `char::is_whitespace`
/// accepts: U+0009 to U+000D, U+0020, U+0085, U+00A0, U+1680, U+2000 to U+200A,
/// U+2028, U+2029, U+202F, U+205F and U+3000.
pub open spec fn white_space(c: char) -> bool {
    let n = c as u32;
    ||| 0x09 <= n <= 0x0D
    ||| n == 0x20
    ||| n == 0x85
    ||| n == 0xA0
    ||| n == 0x1680
    ||| 0x2000 <= n <= 0x200A
    ||| n == 0x2028
    ||| n == 0x2029
    ||| n == 0x202F
    ||| n == 0x205F
    ||| n == 0x3000
}

/// Whether `c` is white space (see `white_space`).
fn is_whitespace(c: char) -> (ws: bool)
    ensures
        ws == white_space(c),
{
    let n = c as u32;
    (0x09 <= n && n <= 0x0D) || n == 0x20 || n == 0x85 || n == 0xA0 || n == 0x1680 || (0x2000 <= n && n <= 0x200A)
        || n == 0x2028 || n == 0x2029 || n == 0x202F || n == 0x205F || n == 0x3000
}

/// `s` without its leading white space.
pub open spec fn strip_leading(s: Seq<char>) -> Seq<char>
    decreases s.len(),
{
    if s.len() > 0 && white_space(s[0]) {
        strip_leading(s.drop_first())
    } else {
        s
    }
}

/// `s` without its trailing white space.
pub open spec fn strip_trailing(s: Seq<char>) -> Seq<char>
    decreases s.len(),
{
    if s.len() > 0 && white_space(s.last()) {
        strip_trailing(s.drop_last())
    } else {
        s
    }
}

/// `s` without leading and trailing white space, as `str::trim` gives it.
pub open spec fn trimmed(s: Seq<char>) -> Seq<char> {
    strip_trailing(strip_leading(s))
}

/// The pieces of `s` between commas, as `str::split(',')` gives them: one more piece
/// than there are commas, empty pieces included.
pub open spec fn comma_pieces(s: Seq<char>) -> Seq<Seq<char>>
    decreases s.len(),
{
    if s.len() == 0 {
        seq![Seq::<char>::empty()]
    } else {
        let before = comma_pieces(s.drop_last());
        if s.last() == ',' {
            before.push(Seq::<char>::empty())
        } else {
            before.update(before.len() - 1, before.last().push(s.last()))
        }
    }
}

proof fn lemma_comma_pieces_nonempty(s: Seq<char>)
    ensures
        comma_pieces(s).len() >= 1,
    decreases s.len(),
{
    if s.len() > 0 {
        lemma_comma_pieces_nonempty(s.drop_last());
    }
}

/// The item keys a request selects: the trimmed pieces between commas that are not
/// empty.
pub open spec fn selects(items: Seq<char>, key: Seq<char>) -> bool {
    picked(comma_pieces(items), comma_pieces(items).len() as int, key)
}

/// `key` is the trimmed text of one of the first `count` pieces, and not empty.
pub open spec fn picked(pieces: Seq<Seq<char>>, count: int, key: Seq<char>) -> bool {
    key.len() > 0 && exists|j: int| 0 <= j < count && trimmed(#[trigger] pieces[j]) == key
}

proof fn lemma_picked_step(pieces: Seq<Seq<char>>, count: int, key: Seq<char>)
    requires
        0 <= count < pieces.len(),
    ensures
        picked(pieces, count + 1, key) <==> (picked(pieces, count, key) || (key.len() > 0
            && trimmed(pieces[count]) == key)),
{
    if picked(pieces, count + 1, key) {
        let j = choose|j: int| 0 <= j < count + 1 && trimmed(#[trigger] pieces[j]) == key;
        if j < count {
            assert(picked(pieces, count, key));
        }
    }
}

proof fn lemma_picked_prefix(a: Seq<Seq<char>>, b: Seq<Seq<char>>, count: int, key: Seq<char>)
    requires
        0 <= count <= a.len(),
        count <= b.len(),
        forall|j: int| 0 <= j < count ==> a[j] == b[j],
    ensures
        picked(a, count, key) <==> picked(b, count, key),
{
    if picked(a, count, key) {
        let j = choose|j: int| 0 <= j < count && trimmed(#[trigger] a[j]) == key;
        assert(trimmed(b[j]) == key);
    }
    if picked(b, count, key) {
        let j = choose|j: int| 0 <= j < count && trimmed(#[trigger] b[j]) == key;
        assert(trimmed(a[j]) == key);
    }
}

/// `s` without leading and trailing white space.
pub fn trim_text(s: &str) -> (t: String)
    ensures
        t@ == trimmed(s@),
{
    let n = s.unicode_len();
    let mut start: usize = 0;
    assert(s@.subrange(0, n as int) =~= s@);
    while start < n && is_whitespace(s.get_char(start))
        invariant
            n == s@.len(),
            start <= n,
            strip_leading(s@) == strip_leading(s@.subrange(start as int, n as int)),
        decreases n - start,
    {
        assert(s@.subrange(start as int, n as int).drop_first() =~= s@.subrange(start + 1, n as int));
        start = start + 1;
    }
    assert(strip_leading(s@) == s@.subrange(start as int, n as int));
    let mut end: usize = n;
    while end > start && is_whitespace(s.get_char(end - 1))
        invariant
            n == s@.len(),
            start <= end <= n,
            strip_trailing(s@.subrange(start as int, n as int)) == strip_trailing(
                s@.subrange(start as int, end as int),
            ),
        decreases end,
    {
        assert(s@.subrange(start as int, end as int).drop_last() =~= s@.subrange(
            start as int,
            end - 1,
        ));
        end = end - 1;
    }
    slice_text(s, start, end)
}

/// The item keys a request names: the pieces of `items` between commas, trimmed,
/// without the empty ones, each once. No parameter selects nothing.
pub fn parse_selected_item_keys(items: Option<&str>) -> (keys: Vec<String>)
    ensures
        texts(keys@).no_duplicates(),
        forall|key: Seq<char>|
            #[trigger] texts(keys@).contains(key) <==> match items {
                Some(s) => selects(s@, key),
                None => false,
            },
{
    let s: &str = match items {
        Some(s) => s,
        None => {
            return Vec::new();
        },
    };
    let ghost whole = s@;
    let n = s.unicode_len();
    let mut keys: Vec<String> = Vec::new();
    let mut piece_start: usize = 0;
    let mut i: usize = 0;
    proof {
        assert(whole.subrange(0, 0) =~= Seq::<char>::empty());
        assert(comma_pieces(whole.subrange(0, 0)) =~= seq![Seq::<char>::empty()]);
        assert(whole.subrange(0, 0) =~= whole.subrange(0, 0));
    }
    while i < n
        invariant
            n == whole.len(),
            whole == s@,
            piece_start <= i <= n,
            comma_pieces(whole.subrange(0, i as int)).len() >= 1,
            comma_pieces(whole.subrange(0, i as int)).last() == whole.subrange(
                piece_start as int,
                i as int,
            ),
            texts(keys@).no_duplicates(),
            forall|key: Seq<char>|
                #[trigger] texts(keys@).contains(key) <==> picked(
                    comma_pieces(whole.subrange(0, i as int)),
                    comma_pieces(whole.subrange(0, i as int)).len() - 1,
                    key,
                ),
        decreases n - i,
    {
        let ghost before = comma_pieces(whole.subrange(0, i as int));
        let ghost after = comma_pieces(whole.subrange(0, i + 1));
        let c = s.get_char(i);
        proof {
            assert(whole.subrange(0, i + 1).drop_last() =~= whole.subrange(0, i as int));
            assert(whole.subrange(0, i + 1).last() == c);
        }
        if c == ',' {
            let ghost count = before.len() - 1;
            add_key(&mut keys, s, piece_start, i, Ghost(before), Ghost(count));
            proof {
                assert(after == before.push(Seq::<char>::empty()));
                assert forall|key: Seq<char>| #[trigger] texts(keys@).contains(key) <==> picked(
                    after,
                    after.len() - 1,
                    key,
                ) by {
                    lemma_picked_prefix(before, after, before.len() as int, key);
                }
                assert(whole.subrange(i + 1, i + 1) =~= Seq::<char>::empty());
            }
            piece_start = i + 1;
        } else {
            proof {
                assert(after == before.update(before.len() - 1, before.last().push(c)));
                assert(whole.subrange(piece_start as int, i + 1) =~= whole.subrange(
                    piece_start as int,
                    i as int,
                ).push(c));
                assert forall|key: Seq<char>| #[trigger] texts(keys@).contains(key) <==> picked(
                    after,
                    after.len() - 1,
                    key,
                ) by {
                    lemma_picked_prefix(before, after, before.len() - 1, key);
                }
            }
        }
        i = i + 1;
    }
    let ghost last = comma_pieces(whole.subrange(0, n as int));
    add_key(&mut keys, s, piece_start, n, Ghost(last), Ghost(last.len() - 1));
    assert(whole.subrange(0, n as int) =~= whole);
    keys
}

/// Adds the trimmed text of `s` from `start` to `end`, unless it is empty or already
/// among the keys: the keys then hold what the first `count + 1` pieces pick.
fn add_key(
    keys: &mut Vec<String>,
    s: &str,
    start: usize,
    end: usize,
    pieces: Ghost<Seq<Seq<char>>>,
    count: Ghost<int>,
)
    requires
        start <= end <= s@.len(),
        0 <= count@ < pieces@.len(),
        pieces@[count@] == s@.subrange(start as int, end as int),
        texts(old(keys)@).no_duplicates(),
        forall|key: Seq<char>| #[trigger] texts(old(keys)@).contains(key) <==> picked(pieces@, count@, key),
    ensures
        texts(final(keys)@).no_duplicates(),
        forall|key: Seq<char>|
            #[trigger] texts(final(keys)@).contains(key) <==> picked(pieces@, count@ + 1, key),
{
    let piece = slice_text(s, start, end);
    let key = trim_text(piece.as_str());
    proof {
        assert forall|k: Seq<char>| #[trigger] picked(pieces@, count@ + 1, k) <==> (picked(
            pieces@,
            count@,
            k,
        ) || (k.len() > 0 && trimmed(pieces@[count@]) == k)) by {
            lemma_picked_step(pieces@, count@, k);
        }
    }
    if key.as_str().unicode_len() > 0 {
        let mut present = false;
        let mut k: usize = 0;
        while k < keys.len()
            invariant
                k <= keys.len(),
                present == exists|m: int| 0 <= m < k && texts(keys@)[m] == key@,
            decreases keys.len() - k,
        {
            assert(texts(keys@)[k as int] == keys@[k as int]@);
            if keys[k] == key {
                present = true;
            }
            k = k + 1;
        }
        if !present {
            let ghost before = keys@;
            let ghost key_text = key@;
            keys.push(key);
            assert(texts(keys@) =~= texts(before).push(key_text));
            assert forall|k: Seq<char>| #[trigger] texts(keys@).contains(k) <==> (texts(
                before,
            ).contains(k) || k == key_text) by {
                if texts(keys@).contains(k) {
                    let m = choose|m: int| 0 <= m < texts(keys@).len() && texts(keys@)[m] == k;
                    if m < before.len() {
                        assert(texts(before)[m] == k);
                    }
                }
                if texts(before).contains(k) {
                    let m = choose|m: int| 0 <= m < texts(before).len() && texts(before)[m] == k;
                    assert(texts(keys@)[m] == k);
                }
                if k == key_text {
                    assert(texts(keys@)[texts(keys@).len() - 1] == k);
                }
            }
        } else {
            proof {
                let m = choose|m: int| 0 <= m < keys.len() && texts(keys@)[m] == key@;
                assert(texts(keys@).contains(key@));
            }
        }
    }
}

/// What the statistics read of a buy or sell order: the type and id of its item, its
/// price and its quantity.
#[derive(Debug, PartialEq, Eq)]
pub struct MarketOrder {
    pub item_type: ItemKind,
    pub item_id: i32,
    pub price_threshold: i32,
    pub quantity: i32,
}

/// The key of the item of an order: its type and its id, joined by ':' (see
/// `option_key`).
pub open spec fn order_key(o: MarketOrder) -> Seq<char> {
    option_key(o.item_type, o.item_id)
}

/// Order counts and price extremes of one item.
#[derive(Debug, Clone, Copy, PartialEq, Eq)]
pub struct MarketOrderStats {
    pub buy: u64,
    pub sell: u64,
    pub total: u64,
    pub buy_price_highest: Option<i32>,
    pub buy_price_lowest: Option<i32>,
    pub buy_amount_lowest: Option<i32>,
    pub buy_amount_highest: Option<i32>,
    pub sell_price_highest: Option<i32>,
    pub sell_price_lowest: Option<i32>,
    pub sell_amount_lowest: Option<i32>,
    pub sell_amount_highest: Option<i32>,
}

/// No orders seen.
pub open spec fn no_orders() -> MarketOrderStats {
    MarketOrderStats {
        buy: 0,
        sell: 0,
        total: 0,
        buy_price_highest: None,
        buy_price_lowest: None,
        buy_amount_lowest: None,
        buy_amount_highest: None,
        sell_price_highest: None,
        sell_price_lowest: None,
        sell_amount_lowest: None,
        sell_amount_highest: None,
    }
}

impl Default for MarketOrderStats {
    fn default() -> (stats: Self)
        ensures
            stats == no_orders(),
    {
        MarketOrderStats {
            buy: 0,
            sell: 0,
            total: 0,
            buy_price_highest: None,
            buy_price_lowest: None,
            buy_amount_lowest: None,
            buy_amount_highest: None,
            sell_price_highest: None,
            sell_price_lowest: None,
            sell_amount_lowest: None,
            sell_amount_highest: None,
        }
    }
}

/// A price that beats the highest so far: any price when there is none, else a
/// strictly higher one.
pub open spec fn beats_highest(best: Option<i32>, price: i32) -> bool {
    match best {
        Some(b) => price > b,
        None => true,
    }
}

/// A price that beats the lowest so far: any price when there is none, else a
/// strictly lower one.
pub open spec fn beats_lowest(best: Option<i32>, price: i32) -> bool {
    match best {
        Some(b) => price < b,
        None => true,
    }
}

/// The statistics after one more buy order.
pub open spec fn with_buy(st: MarketOrderStats, order: MarketOrder) -> MarketOrderStats {
    let high = beats_highest(st.buy_price_highest, order.price_threshold);
    let low = beats_lowest(st.buy_price_lowest, order.price_threshold);
    MarketOrderStats {
        buy: (st.buy + 1) as u64,
        total: (st.total + 1) as u64,
        buy_price_highest: if high { Some(order.price_threshold) } else { st.buy_price_highest },
        buy_amount_highest: if high { Some(order.quantity) } else { st.buy_amount_highest },
        buy_price_lowest: if low { Some(order.price_threshold) } else { st.buy_price_lowest },
        buy_amount_lowest: if low { Some(order.quantity) } else { st.buy_amount_lowest },
        ..st
    }
}

/// The statistics after one more sell order.
pub open spec fn with_sell(st: MarketOrderStats, order: MarketOrder) -> MarketOrderStats {
    let high = beats_highest(st.sell_price_highest, order.price_threshold);
    let low = beats_lowest(st.sell_price_lowest, order.price_threshold);
    MarketOrderStats {
        sell: (st.sell + 1) as u64,
        total: (st.total + 1) as u64,
        sell_price_highest: if high { Some(order.price_threshold) } else { st.sell_price_highest },
        sell_amount_highest: if high { Some(order.quantity) } else { st.sell_amount_highest },
        sell_price_lowest: if low { Some(order.price_threshold) } else { st.sell_price_lowest },
        sell_amount_lowest: if low { Some(order.quantity) } else { st.sell_amount_lowest },
        ..st
    }
}

/// `st` after the buy orders of `orders` for the item `key`, in order.
pub open spec fn apply_buys(st: MarketOrderStats, orders: Seq<MarketOrder>, key: Seq<char>) -> MarketOrderStats
    decreases orders.len(),
{
    if orders.len() == 0 {
        st
    } else {
        let before = apply_buys(st, orders.drop_last(), key);
        if order_key(orders.last()) == key {
            with_buy(before, orders.last())
        } else {
            before
        }
    }
}

/// `st` after the sell orders of `orders` for the item `key`, in order.
pub open spec fn apply_sells(st: MarketOrderStats, orders: Seq<MarketOrder>, key: Seq<char>) -> MarketOrderStats
    decreases orders.len(),
{
    if orders.len() == 0 {
        st
    } else {
        let before = apply_sells(st, orders.drop_last(), key);
        if order_key(orders.last()) == key {
            with_sell(before, orders.last())
        } else {
            before
        }
    }
}

/// The statistics of the item `key`: its buy orders, then its sell orders.
pub open spec fn item_stats(buy: Seq<MarketOrder>, sell: Seq<MarketOrder>, key: Seq<char>) -> MarketOrderStats {
    apply_sells(apply_buys(no_orders(), buy, key), sell, key)
}

/// Some order of `orders` is for the item `key`.
pub open spec fn has_order_for(orders: Seq<MarketOrder>, key: Seq<char>) -> bool {
    exists|i: int| 0 <= i < orders.len() && order_key(#[trigger] orders[i]) == key
}

/// The counts after the buy orders stay within their number, and nothing is sold.
proof fn lemma_buy_counts(orders: Seq<MarketOrder>, key: Seq<char>)
    requires
        orders.len() <= u64::MAX,
    ensures
        apply_buys(no_orders(), orders, key).buy <= orders.len(),
        apply_buys(no_orders(), orders, key).total == apply_buys(no_orders(), orders, key).buy,
        apply_buys(no_orders(), orders, key).sell == 0,
        !has_order_for(orders, key) ==> apply_buys(no_orders(), orders, key) == no_orders(),
    decreases orders.len(),
{
    if orders.len() > 0 {
        let rest = orders.drop_last();
        lemma_buy_counts(rest, key);
        if !has_order_for(orders, key) {
            assert forall|i: int| 0 <= i < rest.len() implies order_key(#[trigger] rest[i]) != key by {
                assert(rest[i] == orders[i]);
            }
            assert(order_key(orders[orders.len() - 1]) != key);
        }
    }
}

/// The counts after the sell orders stay within their number, and the buy count
/// stays.
proof fn lemma_sell_counts(st: MarketOrderStats, orders: Seq<MarketOrder>, key: Seq<char>)
    requires
        st.total == st.buy + st.sell,
        st.total + orders.len() <= u64::MAX,
    ensures
        apply_sells(st, orders, key).sell <= st.sell + orders.len(),
        apply_sells(st, orders, key).buy == st.buy,
        apply_sells(st, orders, key).total == st.buy + apply_sells(st, orders, key).sell,
        !has_order_for(orders, key) ==> apply_sells(st, orders, key) == st,
    decreases orders.len(),
{
    if orders.len() > 0 {
        let rest = orders.drop_last();
        lemma_sell_counts(st, rest, key);
        if !has_order_for(orders, key) {
            assert forall|i: int| 0 <= i < rest.len() implies order_key(#[trigger] rest[i]) != key by {
                assert(rest[i] == orders[i]);
            }
            assert(order_key(orders[orders.len() - 1]) != key);
        }
    }
}

/// The statistics of each item with orders: `order_counts[i]` belongs to the item
/// `item_keys[i]`.
#[derive(Debug, PartialEq, Eq)]
pub struct MarketOrderStatsResponse {
    pub item_keys: Vec<String>,
    pub order_counts: Vec<MarketOrderStats>,
}

/// The position of `key` among `keys`, if it is there.
fn key_position(keys: &Vec<String>, key: &String) -> (found: Option<usize>)
    ensures
        match found {
            Some(j) => j < keys.len() && keys@[j as int]@ == key@,
            None => !texts(keys@).contains(key@),
        },
{
    let mut j: usize = 0;
    while j < keys.len()
        invariant
            j <= keys.len(),
            forall|m: int| 0 <= m < j ==> keys@[m]@ != key@,
        decreases keys.len() - j,
    {
        if keys[j] == *key {
            return Some(j);
        }
        j = j + 1;
    }
    proof {
        if texts(keys@).contains(key@) {
            let m = choose|m: int| 0 <= m < texts(keys@).len() && texts(keys@)[m] == key@;
            assert(keys@[m]@ == key@);
        }
    }
    None
}

fn add_buy(st: MarketOrderStats, order: &MarketOrder) -> (next: MarketOrderStats)
    requires
        st.buy < u64::MAX,
        st.total < u64::MAX,
    ensures
        next == with_buy(st, *order),
{
    let p = order.price_threshold;
    let high = match st.buy_price_highest {
        Some(b) => p > b,
        None => true,
    };
    let low = match st.buy_price_lowest {
        Some(b) => p < b,
        None => true,
    };
    MarketOrderStats {
        buy: st.buy + 1,
        total: st.total + 1,
        buy_price_highest: if high { Some(p) } else { st.buy_price_highest },
        buy_amount_highest: if high { Some(order.quantity) } else { st.buy_amount_highest },
        buy_price_lowest: if low { Some(p) } else { st.buy_price_lowest },
        buy_amount_lowest: if low { Some(order.quantity) } else { st.buy_amount_lowest },
        ..st
    }
}

fn add_sell(st: MarketOrderStats, order: &MarketOrder) -> (next: MarketOrderStats)
    requires
        st.sell < u64::MAX,
        st.total < u64::MAX,
    ensures
        next == with_sell(st, *order),
{
    let p = order.price_threshold;
    let high = match st.sell_price_highest {
        Some(b) => p > b,
        None => true,
    };
    let low = match st.sell_price_lowest {
        Some(b) => p < b,
        None => true,
    };
    MarketOrderStats {
        sell: st.sell + 1,
        total: st.total + 1,
        sell_price_highest: if high { Some(p) } else { st.sell_price_highest },
        sell_amount_highest: if high { Some(order.quantity) } else { st.sell_amount_highest },
        sell_price_lowest: if low { Some(p) } else { st.sell_price_lowest },
        sell_amount_lowest: if low { Some(order.quantity) } else { st.sell_amount_lowest },
        ..st
    }
}

proof fn lemma_has_order_step(orders: Seq<MarketOrder>, i: int, key: Seq<char>)
    requires
        0 <= i < orders.len(),
    ensures
        has_order_for(orders.take(i + 1), key) <==> (has_order_for(orders.take(i), key)
            || order_key(orders[i]) == key),
{
    let next = orders.take(i + 1);
    if has_order_for(next, key) {
        let m = choose|m: int| 0 <= m < next.len() && order_key(#[trigger] next[m]) == key;
        if m < i {
            assert(orders.take(i)[m] == next[m]);
        }
    }
    if has_order_for(orders.take(i), key) {
        let m = choose|m: int| 0 <= m < i && order_key(#[trigger] orders.take(i)[m]) == key;
        assert(next[m] == orders.take(i)[m]);
    }
    if order_key(orders[i]) == key {
        assert(next[i] == orders[i]);
    }
}

/// Order counts and price extremes per item: the number of buy and sell orders
/// and their sum, and for each side the highest and the lowest price with the
/// quantity of the first order seen at that price.
pub fn get_market_order_stats(buy_orders: &Vec<MarketOrder>, sell_orders: &Vec<MarketOrder>) -> (response:
    MarketOrderStatsResponse)
    requires
        buy_orders.len() + sell_orders.len() <= u64::MAX,
    ensures
        response.item_keys.len() == response.order_counts.len(),
        texts(response.item_keys@).no_duplicates(),
        forall|key: Seq<char>|
            #[trigger] texts(response.item_keys@).contains(key) <==> (has_order_for(buy_orders@, key)
                || has_order_for(sell_orders@, key)),
        forall|i: int|
            0 <= i < response.item_keys.len() ==> #[trigger] response.order_counts@[i] == item_stats(
                buy_orders@,
                sell_orders@,
                response.item_keys@[i]@,
            ),
{
    let mut keys: Vec<String> = Vec::new();
    let mut counts: Vec<MarketOrderStats> = Vec::new();
    let ghost buy = buy_orders@;
    let ghost sell = sell_orders@;
    let mut i: usize = 0;
    while i < buy_orders.len()
        invariant
            buy == buy_orders@,
            i <= buy.len(),
            buy.len() + sell.len() <= u64::MAX,
            keys.len() == counts.len(),
            texts(keys@).no_duplicates(),
            forall|key: Seq<char>| #[trigger] texts(keys@).contains(key) <==> has_order_for(buy.take(i as int), key),
            forall|j: int| 0 <= j < keys.len() ==> #[trigger] counts@[j] == apply_buys(no_orders(), buy.take(i as int), keys@[j]@),
        decreases buy.len() - i,
    {
        let order = &buy_orders[i];
        let ghost k = order_key(*order);
        proof {
            assert(buy.take(i + 1).drop_last() =~= buy.take(i as int));
            assert(buy.take(i + 1).last() == *order);
            lemma_has_order_step(buy, i as int, k);
            assert forall|key: Seq<char>| #[trigger] has_order_for(buy.take(i + 1), key) <==> (has_order_for(buy.take(i as int), key) || order_key(*order) == key) by {
                lemma_has_order_step(buy, i as int, key);
            }
            lemma_buy_counts(buy.take(i as int), k);
        }
        let key = option_key_text(order.item_type, order.item_id);
        match key_position(&keys, &key) {
            Some(j) => {
                let st = counts[j];
                let next = add_buy(st, order);
                counts.set(j, next);
                proof {
                    assert forall|m: int| 0 <= m < keys.len() implies #[trigger] counts@[m] == apply_buys(no_orders(), buy.take(i + 1), keys@[m]@) by {
                        if m != j {
                            assert(keys@[m]@ != k) by {
                                assert(texts(keys@)[m] == keys@[m]@);
                                assert(texts(keys@)[j as int] == keys@[j as int]@);
                            }
                        }
                    }
                    assert(texts(keys@).contains(k)) by {
                        assert(texts(keys@)[j as int] == k);
                    }
                }
            },
            None => {
                let next = add_buy(MarketOrderStats::default(), order);
                let ghost before = keys@;
                keys.push(key);
                counts.push(next);
                proof {
                    assert(texts(keys@) =~= texts(before).push(k));
                    assert forall|key: Seq<char>| #[trigger] texts(keys@).contains(key) <==> (texts(before).contains(key) || key == k) by {
                        if texts(keys@).contains(key) {
                            let m = choose|m: int| 0 <= m < texts(keys@).len() && texts(keys@)[m] == key;
                            if m < before.len() {
                                assert(texts(before)[m] == key);
                            }
                        }
                        if texts(before).contains(key) {
                            let m = choose|m: int| 0 <= m < texts(before).len() && texts(before)[m] == key;
                            assert(texts(keys@)[m] == key);
                        }
                        if key == k {
                            assert(texts(keys@)[texts(keys@).len() - 1] == key);
                        }
                    }
                    assert forall|m: int| 0 <= m < keys.len() implies #[trigger] counts@[m] == apply_buys(no_orders(), buy.take(i + 1), keys@[m]@) by {
                        if m < before.len() {
                            assert(keys@[m]@ != k) by {
                                assert(texts(before)[m] == before[m]@);
                            }
                        }
                    }
                }
            },
        }
        i = i + 1;
    }
    assert(buy.take(buy.len() as int) =~= buy);
    let mut s: usize = 0;
    while s < sell_orders.len()
        invariant
            buy == buy_orders@,
            sell == sell_orders@,
            s <= sell.len(),
            buy.len() + sell.len() <= u64::MAX,
            keys.len() == counts.len(),
            texts(keys@).no_duplicates(),
            forall|key: Seq<char>| #[trigger] texts(keys@).contains(key) <==> (has_order_for(buy, key) || has_order_for(sell.take(s as int), key)),
            forall|j: int| 0 <= j < keys.len() ==> #[trigger] counts@[j] == apply_sells(apply_buys(no_orders(), buy, keys@[j]@), sell.take(s as int), keys@[j]@),
        decreases sell.len() - s,
    {
        let order = &sell_orders[s];
        let ghost k = order_key(*order);
        proof {
            assert(sell.take(s + 1).drop_last() =~= sell.take(s as int));
            assert(sell.take(s + 1).last() == *order);
            assert forall|key: Seq<char>| #[trigger] has_order_for(sell.take(s + 1), key) <==> (has_order_for(sell.take(s as int), key) || order_key(*order) == key) by {
                lemma_has_order_step(sell, s as int, key);
            }
            lemma_buy_counts(buy, k);
            lemma_sell_counts(apply_buys(no_orders(), buy, k), sell.take(s as int), k);
        }
        let key = option_key_text(order.item_type, order.item_id);
        match key_position(&keys, &key) {
            Some(j) => {
                let st = counts[j];
                let next = add_sell(st, order);
                counts.set(j, next);
                proof {
                    assert forall|m: int| 0 <= m < keys.len() implies #[trigger] counts@[m] == apply_sells(apply_buys(no_orders(), buy, keys@[m]@), sell.take(s + 1), keys@[m]@) by {
                        if m != j {
                            assert(keys@[m]@ != k) by {
                                assert(texts(keys@)[m] == keys@[m]@);
                                assert(texts(keys@)[j as int] == keys@[j as int]@);
                            }
                        }
                    }
                    assert(texts(keys@).contains(k)) by {
                        assert(texts(keys@)[j as int] == k);
                    }
                }
            },
            None => {
                proof {
                    assert(!has_order_for(buy, k));
                    assert(!has_order_for(sell.take(s as int), k));
                }
                let next = add_sell(MarketOrderStats::default(), order);
                let ghost before = keys@;
                keys.push(key);
                counts.push(next);
                proof {
                    assert(texts(keys@) =~= texts(before).push(k));
                    assert forall|key: Seq<char>| #[trigger] texts(keys@).contains(key) <==> (texts(before).contains(key) || key == k) by {
                        if texts(keys@).contains(key) {
                            let m = choose|m: int| 0 <= m < texts(keys@).len() && texts(keys@)[m] == key;
                            if m < before.len() {
                                assert(texts(before)[m] == key);
                            }
                        }
                        if texts(before).contains(key) {
                            let m = choose|m: int| 0 <= m < texts(before).len() && texts(before)[m] == key;
                            assert(texts(keys@)[m] == key);
                        }
                        if key == k {
                            assert(texts(keys@)[texts(keys@).len() - 1] == key);
                        }
                    }
                    assert forall|m: int| 0 <= m < keys.len() implies #[trigger] counts@[m] == apply_sells(apply_buys(no_orders(), buy, keys@[m]@), sell.take(s + 1), keys@[m]@) by {
                        if m < before.len() {
                            assert(keys@[m]@ != k) by {
                                assert(texts(before)[m] == before[m]@);
                            }
                        }
                    }
                }
            },
        }
        s = s + 1;
    }
    assert(sell.take(sell.len() as int) =~= sell);
    MarketOrderStatsResponse { item_keys: keys, order_counts: counts }
}

/// The positions, in increasing order, of the first `upto` keys that equal `key`.
pub open spec fn positions_of(keys: Seq<Seq<char>>, key: Seq<char>, upto: int) -> Seq<int>
    decreases upto,
{
    if upto <= 0 {
        Seq::empty()
    } else if keys[upto - 1] == key {
        positions_of(keys, key, upto - 1).push(upto - 1)
    } else {
        positions_of(keys, key, upto - 1)
    }
}

/// Orders grouped by item key: `positions[g]` lists, in order, the positions of the
/// orders of the item `keys[g]`.
#[derive(Debug, PartialEq, Eq)]
pub struct MarketOrderGroups {
    pub keys: Vec<String>,
    pub positions: Vec<Vec<usize>>,
}

/// The positions of a group, as integers.
pub open spec fn group_view(positions: Vec<usize>) -> Seq<int> {
    positions@.map_values(|p: usize| p as int)
}

/// `groups` holds, for each item key of `order_keys` that `wanted` admits, the
/// positions of its orders.
pub open spec fn groups_orders(
    groups: MarketOrderGroups,
    order_keys: Seq<Seq<char>>,
    wanted: spec_fn(Seq<char>) -> bool,
) -> bool {
    &&& groups.keys.len() == groups.positions.len()
    &&& texts(groups.keys@).no_duplicates()
    &&& forall|key: Seq<char>|
        #[trigger] texts(groups.keys@).contains(key) <==> (order_keys.contains(key)
            && wanted(key))
    &&& forall|g: int|
        0 <= g < groups.keys.len() ==> group_view(#[trigger] groups.positions@[g]) == positions_of(
            order_keys,
            groups.keys@[g]@,
            order_keys.len() as int,
        )
}

/// The orders of the selected items, grouped by item key; with `all`, the orders of
/// every item.
fn group_orders(order_keys: &Vec<String>, selected: &Vec<String>, all: bool) -> (groups:
    MarketOrderGroups)
    ensures
        groups_orders(
            groups,
            texts(order_keys@),
            |key: Seq<char>| all || texts(selected@).contains(key),
        ),
{
    let ghost wanted = |key: Seq<char>| all || texts(selected@).contains(key);
    let ghost ks = texts(order_keys@);
    let mut keys: Vec<String> = Vec::new();
    let mut positions: Vec<Vec<usize>> = Vec::new();
    let mut i: usize = 0;
    while i < order_keys.len()
        invariant
            i <= order_keys.len(),
            ks == texts(order_keys@),
            wanted == (|key: Seq<char>| all || texts(selected@).contains(key)),
            keys.len() == positions.len(),
            texts(keys@).no_duplicates(),
            forall|key: Seq<char>|
                #[trigger] texts(keys@).contains(key) <==> (ks.take(i as int).contains(key)
                    && wanted(key)),
            forall|g: int|
                0 <= g < keys.len() ==> group_view(#[trigger] positions@[g]) == positions_of(
                    ks,
                    keys@[g]@,
                    i as int,
                ),
        decreases order_keys.len() - i,
    {
        let key = &order_keys[i];
        let ghost k = key@;
        proof {
            assert(ks[i as int] == k);
            assert(ks.take(i + 1) =~= ks.take(i as int).push(k));
            assert forall|x: Seq<char>| #[trigger] ks.take(i + 1).contains(x) <==> (ks.take(
                i as int,
            ).contains(x) || x == k) by {
                if ks.take(i + 1).contains(x) {
                    let m = choose|m: int| 0 <= m < i + 1 && #[trigger] ks.take(i + 1)[m] == x;
                    if m < i {
                        assert(ks.take(i as int)[m] == x);
                    }
                }
                if ks.take(i as int).contains(x) {
                    let m = choose|m: int| 0 <= m < i && #[trigger] ks.take(i as int)[m] == x;
                    assert(ks.take(i + 1)[m] == x);
                }
                if x == k {
                    assert(ks.take(i + 1)[i as int] == x);
                }
            }
        }
        let want = if all {
            true
        } else {
            match key_position(selected, key) {
                Some(_) => true,
                None => false,
            }
        };
        proof {
            if !all && want {
                let j = choose|j: int| 0 <= j < selected.len() && selected@[j]@ == k;
                assert(texts(selected@)[j] == k);
            }
            assert(want == wanted(k));
        }
        if want {
            match key_position(&keys, key) {
                Some(g) => {
                    let mut group = positions[g].clone();
                    let ghost old_group = group_view(group);
                    group.push(i);
                    assert(group_view(group) =~= old_group.push(i as int));
                    positions.set(g, group);
                    proof {
                        assert forall|h: int| 0 <= h < keys.len() implies group_view(
                            #[trigger] positions@[h],
                        ) == positions_of(ks, keys@[h]@, i + 1) by {
                            if h != g {
                                assert(keys@[h]@ != k) by {
                                    assert(texts(keys@)[h] == keys@[h]@);
                                    assert(texts(keys@)[g as int] == keys@[g as int]@);
                                }
                            }
                        }
                        assert(texts(keys@).contains(k)) by {
                            assert(texts(keys@)[g as int] == k);
                        }
                    }
                },
                None => {
                    let ghost before = keys@;
                    let mut group: Vec<usize> = Vec::new();
                    group.push(i);
                    keys.push(key.clone());
                    proof {
                        assert(!ks.take(i as int).contains(k));
                        assert(positions_of(ks, k, i as int) =~= Seq::<int>::empty()) by {
                            lemma_no_positions(ks, k, i as int);
                        }
                        assert(group_view(group) =~= seq![i as int]);
                    }
                    positions.push(group);
                    proof {
                        assert(texts(keys@) =~= texts(before).push(k));
                        assert forall|x: Seq<char>| #[trigger] texts(keys@).contains(x) <==> (texts(
                            before,
                        ).contains(x) || x == k) by {
                            if texts(keys@).contains(x) {
                                let m = choose|m: int|
                                    0 <= m < texts(keys@).len() && texts(keys@)[m] == x;
                                if m < before.len() {
                                    assert(texts(before)[m] == x);
                                }
                            }
                            if texts(before).contains(x) {
                                let m = choose|m: int|
                                    0 <= m < texts(before).len() && texts(before)[m] == x;
                                assert(texts(keys@)[m] == x);
                            }
                            if x == k {
                                assert(texts(keys@)[texts(keys@).len() - 1] == x);
                            }
                        }
                        assert forall|h: int| 0 <= h < keys.len() implies group_view(
                            #[trigger] positions@[h],
                        ) == positions_of(ks, keys@[h]@, i + 1) by {
                            if h < before.len() {
                                assert(keys@[h]@ != k) by {
                                    assert(texts(before)[h] == before[h]@);
                                }
                            }
                        }
                    }
                },
            }
        } else {
            proof {
                assert forall|h: int| 0 <= h < keys.len() implies group_view(
                    #[trigger] positions@[h],
                ) == positions_of(ks, keys@[h]@, i + 1) by {
                    assert(keys@[h]@ != k) by {
                        assert(texts(keys@)[h] == keys@[h]@);
                        assert(texts(keys@).contains(keys@[h]@));
                    }
                }
            }
        }
        i = i + 1;
    }
    assert(ks.take(i as int) =~= ks);
    MarketOrderGroups { keys, positions }
}

proof fn lemma_no_positions(keys: Seq<Seq<char>>, key: Seq<char>, upto: int)
    requires
        0 <= upto <= keys.len(),
        !keys.take(upto).contains(key),
    ensures
        positions_of(keys, key, upto) == Seq::<int>::empty(),
    decreases upto,
{
    if upto > 0 {
        assert(keys.take(upto)[upto - 1] == keys[upto - 1]);
        assert forall|x: Seq<char>| keys.take(upto - 1).contains(x) implies keys.take(upto).contains(x) by {
            let m = choose|m: int| 0 <= m < upto - 1 && #[trigger] keys.take(upto - 1)[m] == x;
            assert(keys.take(upto)[m] == x);
        }
        lemma_no_positions(keys, key, upto - 1);
    }
}

/// Buy and sell orders grouped by item key.
#[derive(Debug, PartialEq, Eq)]
pub struct MarketOrdersSelection {
    pub buy_orders: MarketOrderGroups,
    pub sell_orders: MarketOrderGroups,
}

/// The item keys a request wants: every key when `return_all` is set, else the keys
/// `items` selects.
pub open spec fn wanted_keys(items: Option<&str>, return_all: Option<bool>) -> spec_fn(Seq<char>) -> bool {
    |key: Seq<char>| return_all == Some(true) || (match items {
        Some(s) => selects(s@, key),
        None => false,
    })
}

/// The item keys of orders, in order (see `order_key`).
pub open spec fn keys_of_orders(orders: Seq<MarketOrder>) -> Seq<Seq<char>> {
    orders.map_values(|o: MarketOrder| order_key(o))
}

fn order_keys(orders: &Vec<MarketOrder>) -> (keys: Vec<String>)
    ensures
        texts(keys@) == keys_of_orders(orders@),
{
    let mut keys: Vec<String> = Vec::new();
    let mut i: usize = 0;
    while i < orders.len()
        invariant
            i <= orders.len(),
            texts(keys@) == keys_of_orders(orders@.take(i as int)),
        decreases orders.len() - i,
    {
        let key = option_key_text(orders[i].item_type, orders[i].item_id);
        let ghost before = keys@;
        keys.push(key);
        proof {
            assert(orders@.take(i + 1) =~= orders@.take(i as int).push(orders@[i as int]));
            assert(texts(keys@) =~= texts(before).push(order_key(orders@[i as int])));
            assert(keys_of_orders(orders@.take(i + 1)) =~= keys_of_orders(orders@.take(i as int)).push(
                order_key(orders@[i as int]),
            ));
        }
        i = i + 1;
    }
    assert(orders@.take(i as int) =~= orders@);
    keys
}

/// The buy and sell orders of the items a request names (see
/// `parse_selected_item_keys`), or of every item with `return_all`, grouped by item
/// key (see `order_key`): each group lists the positions of its orders.
pub fn find_market_place_order(
    buy_orders: &Vec<MarketOrder>,
    sell_orders: &Vec<MarketOrder>,
    items: Option<&str>,
    return_all: Option<bool>,
) -> (selection: MarketOrdersSelection)
    ensures
        groups_orders(selection.buy_orders, keys_of_orders(buy_orders@), wanted_keys(items, return_all)),
        groups_orders(selection.sell_orders, keys_of_orders(sell_orders@), wanted_keys(items, return_all)),
{
    let buy_keys = order_keys(buy_orders);
    let sell_keys = order_keys(sell_orders);
    let selected = parse_selected_item_keys(items);
    let all = match return_all {
        Some(a) => a,
        None => false,
    };
    let buy_orders = group_orders(&buy_keys, &selected, all);
    let sell_orders = group_orders(&sell_keys, &selected, all);
    proof {
        let w1 = |key: Seq<char>| all || texts(selected@).contains(key);
        let w2 = wanted_keys(items, return_all);
        assert forall|key: Seq<char>| #[trigger] w1(key) == w2(key) by {}
        assert(w1 =~= w2);
    }
    MarketOrdersSelection { buy_orders, sell_orders }
}

/// The highest buy price of an item is the highest price among its buy orders
/// and the lowest buy price the lowest; both are absent exactly when it has none.
pub proof fn lemma_buy_price_extremes(st0: MarketOrderStats, orders: Seq<MarketOrder>, key: Seq<char>)
    requires
        st0.buy_price_highest is None,
        st0.buy_price_lowest is None,
    ensures
        ({
            let st = apply_buys(st0, orders, key);
            &&& st.sell_price_highest == st0.sell_price_highest
            &&& st.sell_price_lowest == st0.sell_price_lowest
            &&& (st.buy_price_highest is None <==> !has_order_for(orders, key))
            &&& (st.buy_price_lowest is None <==> !has_order_for(orders, key))
            &&& (st.buy_price_highest matches Some(h) ==> (forall|i: int|
                0 <= i < orders.len() && order_key(#[trigger] orders[i]) == key ==> orders[i].price_threshold
                    <= h) && exists|i: int|
                0 <= i < orders.len() && order_key(#[trigger] orders[i]) == key && orders[i].price_threshold
                    == h)
            &&& (st.buy_price_lowest matches Some(l) ==> (forall|i: int|
                0 <= i < orders.len() && order_key(#[trigger] orders[i]) == key ==> orders[i].price_threshold
                    >= l) && exists|i: int|
                0 <= i < orders.len() && order_key(#[trigger] orders[i]) == key && orders[i].price_threshold
                    == l)
        }),
    decreases orders.len(),
{
    if orders.len() > 0 {
        let rest = orders.drop_last();
        let last = orders.last();
        let n = orders.len() - 1;
        lemma_buy_price_extremes(st0, rest, key);
        let prev = apply_buys(st0, rest, key);
        let st = apply_buys(st0, orders, key);
        assert forall|i: int| 0 <= i < rest.len() implies #[trigger] rest[i] == orders[i] by {}
        assert(orders[n] == last);
        if has_order_for(rest, key) {
            let i = choose|i: int| 0 <= i < rest.len() && order_key(#[trigger] rest[i]) == key;
            assert(order_key(orders[i]) == key);
        }
        if order_key(last) != key {
            assert(st == prev);
            if has_order_for(orders, key) {
                let i = choose|i: int| 0 <= i < orders.len() && order_key(#[trigger] orders[i]) == key;
                assert(order_key(rest[i]) == key);
            }
            if let Some(h) = st.buy_price_highest {
                let j = choose|j: int|
                    0 <= j < rest.len() && order_key(#[trigger] rest[j]) == key && rest[j].price_threshold == h;
                assert(order_key(orders[j]) == key && orders[j].price_threshold == h);
                assert forall|i: int| 0 <= i < orders.len() && order_key(#[trigger] orders[i]) == key implies orders[i].price_threshold <= h by {
                    assert(order_key(rest[i]) == key);
                }
            }
            if let Some(l) = st.buy_price_lowest {
                let j = choose|j: int|
                    0 <= j < rest.len() && order_key(#[trigger] rest[j]) == key && rest[j].price_threshold == l;
                assert(order_key(orders[j]) == key && orders[j].price_threshold == l);
                assert forall|i: int| 0 <= i < orders.len() && order_key(#[trigger] orders[i]) == key implies orders[i].price_threshold >= l by {
                    assert(order_key(rest[i]) == key);
                }
            }
        } else {
            assert(st == with_buy(prev, last));
            assert(order_key(orders[n]) == key);
            assert(has_order_for(orders, key));
            let h = st.buy_price_highest.unwrap();
            if beats_highest(prev.buy_price_highest, last.price_threshold) {
                assert(orders[n].price_threshold == h);
            } else {
                let j = choose|j: int|
                    0 <= j < rest.len() && order_key(#[trigger] rest[j]) == key && rest[j].price_threshold == h;
                assert(order_key(orders[j]) == key && orders[j].price_threshold == h);
            }
            assert forall|i: int| 0 <= i < orders.len() && order_key(#[trigger] orders[i]) == key implies orders[i].price_threshold <= h by {
                if i < n {
                    assert(order_key(rest[i]) == key);
                }
            }
            let l = st.buy_price_lowest.unwrap();
            if beats_lowest(prev.buy_price_lowest, last.price_threshold) {
                assert(orders[n].price_threshold == l);
            } else {
                let j = choose|j: int|
                    0 <= j < rest.len() && order_key(#[trigger] rest[j]) == key && rest[j].price_threshold == l;
                assert(order_key(orders[j]) == key && orders[j].price_threshold == l);
            }
            assert forall|i: int| 0 <= i < orders.len() && order_key(#[trigger] orders[i]) == key implies orders[i].price_threshold >= l by {
                if i < n {
                    assert(order_key(rest[i]) == key);
                }
            }
        }
    }
}

/// The highest sell price of an item is the highest price among its sell orders
/// and the lowest sell price the lowest; both are absent exactly when it has none.
pub proof fn lemma_sell_price_extremes(st0: MarketOrderStats, orders: Seq<MarketOrder>, key: Seq<char>)
    requires
        st0.sell_price_highest is None,
        st0.sell_price_lowest is None,
    ensures
        ({
            let st = apply_sells(st0, orders, key);
            &&& st.buy_price_highest == st0.buy_price_highest
            &&& st.buy_price_lowest == st0.buy_price_lowest
            &&& (st.sell_price_highest is None <==> !has_order_for(orders, key))
            &&& (st.sell_price_lowest is None <==> !has_order_for(orders, key))
            &&& (st.sell_price_highest matches Some(h) ==> (forall|i: int|
                0 <= i < orders.len() && order_key(#[trigger] orders[i]) == key ==> orders[i].price_threshold
                    <= h) && exists|i: int|
                0 <= i < orders.len() && order_key(#[trigger] orders[i]) == key && orders[i].price_threshold
                    == h)
            &&& (st.sell_price_lowest matches Some(l) ==> (forall|i: int|
                0 <= i < orders.len() && order_key(#[trigger] orders[i]) == key ==> orders[i].price_threshold
                    >= l) && exists|i: int|
                0 <= i < orders.len() && order_key(#[trigger] orders[i]) == key && orders[i].price_threshold
                    == l)
        }),
    decreases orders.len(),
{
    if orders.len() > 0 {
        let rest = orders.drop_last();
        let last = orders.last();
        let n = orders.len() - 1;
        lemma_sell_price_extremes(st0, rest, key);
        let prev = apply_sells(st0, rest, key);
        let st = apply_sells(st0, orders, key);
        assert forall|i: int| 0 <= i < rest.len() implies #[trigger] rest[i] == orders[i] by {}
        assert(orders[n] == last);
        if has_order_for(rest, key) {
            let i = choose|i: int| 0 <= i < rest.len() && order_key(#[trigger] rest[i]) == key;
            assert(order_key(orders[i]) == key);
        }
        if order_key(last) != key {
            assert(st == prev);
            if has_order_for(orders, key) {
                let i = choose|i: int| 0 <= i < orders.len() && order_key(#[trigger] orders[i]) == key;
                assert(order_key(rest[i]) == key);
            }
            if let Some(h) = st.sell_price_highest {
                let j = choose|j: int|
                    0 <= j < rest.len() && order_key(#[trigger] rest[j]) == key && rest[j].price_threshold == h;
                assert(order_key(orders[j]) == key && orders[j].price_threshold == h);
                assert forall|i: int| 0 <= i < orders.len() && order_key(#[trigger] orders[i]) == key implies orders[i].price_threshold <= h by {
                    assert(order_key(rest[i]) == key);
                }
            }
            if let Some(l) = st.sell_price_lowest {
                let j = choose|j: int|
                    0 <= j < rest.len() && order_key(#[trigger] rest[j]) == key && rest[j].price_threshold == l;
                assert(order_key(orders[j]) == key && orders[j].price_threshold == l);
                assert forall|i: int| 0 <= i < orders.len() && order_key(#[trigger] orders[i]) == key implies orders[i].price_threshold >= l by {
                    assert(order_key(rest[i]) == key);
                }
            }
        } else {
            assert(st == with_sell(prev, last));
            assert(order_key(orders[n]) == key);
            assert(has_order_for(orders, key));
            let h = st.sell_price_highest.unwrap();
            if beats_highest(prev.sell_price_highest, last.price_threshold) {
                assert(orders[n].price_threshold == h);
            } else {
                let j = choose|j: int|
                    0 <= j < rest.len() && order_key(#[trigger] rest[j]) == key && rest[j].price_threshold == h;
                assert(order_key(orders[j]) == key && orders[j].price_threshold == h);
            }
            assert forall|i: int| 0 <= i < orders.len() && order_key(#[trigger] orders[i]) == key implies orders[i].price_threshold <= h by {
                if i < n {
                    assert(order_key(rest[i]) == key);
                }
            }
            let l = st.sell_price_lowest.unwrap();
            if beats_lowest(prev.sell_price_lowest, last.price_threshold) {
                assert(orders[n].price_threshold == l);
            } else {
                let j = choose|j: int|
                    0 <= j < rest.len() && order_key(#[trigger] rest[j]) == key && rest[j].price_threshold == l;
                assert(order_key(orders[j]) == key && orders[j].price_threshold == l);
            }
            assert forall|i: int| 0 <= i < orders.len() && order_key(#[trigger] orders[i]) == key implies orders[i].price_threshold >= l by {
                if i < n {
                    assert(order_key(rest[i]) == key);
                }
            }
        }
    }
}

/// An item's statistics: the highest and lowest buy price are the extremes of its
/// buy orders' prices and the highest and lowest sell price those of its sell
/// orders, each absent exactly when the item has no order on that side.
pub proof fn lemma_item_stats_extremes(buy: Seq<MarketOrder>, sell: Seq<MarketOrder>, key: Seq<char>)
    ensures
        ({
            let st = item_stats(buy, sell, key);
            &&& (st.buy_price_highest is None <==> !has_order_for(buy, key))
            &&& (st.sell_price_highest is None <==> !has_order_for(sell, key))
            &&& (st.buy_price_highest matches Some(h) ==> (forall|i: int|
                0 <= i < buy.len() && order_key(#[trigger] buy[i]) == key ==> buy[i].price_threshold <= h)
                && exists|i: int|
                0 <= i < buy.len() && order_key(#[trigger] buy[i]) == key && buy[i].price_threshold == h)
            &&& (st.buy_price_lowest matches Some(l) ==> (forall|i: int|
                0 <= i < buy.len() && order_key(#[trigger] buy[i]) == key ==> buy[i].price_threshold >= l)
                && exists|i: int|
                0 <= i < buy.len() && order_key(#[trigger] buy[i]) == key && buy[i].price_threshold == l)
            &&& (st.sell_price_highest matches Some(h) ==> (forall|i: int|
                0 <= i < sell.len() && order_key(#[trigger] sell[i]) == key ==> sell[i].price_threshold <= h)
                && exists|i: int|
                0 <= i < sell.len() && order_key(#[trigger] sell[i]) == key && sell[i].price_threshold == h)
            &&& (st.sell_price_lowest matches Some(l) ==> (forall|i: int|
                0 <= i < sell.len() && order_key(#[trigger] sell[i]) == key ==> sell[i].price_threshold >= l)
                && exists|i: int|
                0 <= i < sell.len() && order_key(#[trigger] sell[i]) == key && sell[i].price_threshold == l)
        }),
{
    lemma_buy_price_extremes(no_orders(), buy, key);
    lemma_sell_price_extremes(apply_buys(no_orders(), buy, key), sell, key);
}

/// The order at `i` is the first order of the item `key` at the price `price`.
pub open spec fn first_at_price(orders: Seq<MarketOrder>, key: Seq<char>, price: i32, i: int) -> bool {
    &&& 0 <= i < orders.len()
    &&& order_key(orders[i]) == key
    &&& orders[i].price_threshold == price
    &&& forall|j: int| 0 <= j < i ==> !(order_key(#[trigger] orders[j]) == key && orders[j].price_threshold == price)
}

proof fn lemma_first_at_price_extends(orders: Seq<MarketOrder>, key: Seq<char>, price: i32, i: int)
    requires
        orders.len() > 0,
        first_at_price(orders.drop_last(), key, price, i),
    ensures
        first_at_price(orders, key, price, i),
{
    let rest = orders.drop_last();
    assert(rest[i] == orders[i]);
    assert forall|j: int| 0 <= j < i implies !(order_key(#[trigger] orders[j]) == key && orders[j].price_threshold
        == price) by {
        assert(rest[j] == orders[j]);
    }
}

proof fn lemma_buy_amounts(st0: MarketOrderStats, orders: Seq<MarketOrder>, key: Seq<char>)
    requires
        st0.buy_price_highest is None,
        st0.buy_price_lowest is None,
        st0.buy_amount_highest is None,
        st0.buy_amount_lowest is None,
    ensures
        ({
            let st = apply_buys(st0, orders, key);
            &&& (st.buy_amount_highest is None <==> st.buy_price_highest is None)
            &&& (st.buy_amount_lowest is None <==> st.buy_price_lowest is None)
            &&& (st.buy_price_highest matches Some(h) ==> exists|i: int|
                first_at_price(orders, key, h, i) && st.buy_amount_highest == Some(#[trigger] orders[i].quantity))
            &&& (st.buy_price_lowest matches Some(l) ==> exists|i: int|
                first_at_price(orders, key, l, i) && st.buy_amount_lowest == Some(#[trigger] orders[i].quantity))
        }),
    decreases orders.len(),
{
    if orders.len() > 0 {
        let rest = orders.drop_last();
        let last = orders.last();
        let n = orders.len() - 1;
        lemma_buy_amounts(st0, rest, key);
        lemma_buy_price_extremes(st0, rest, key);
        let prev = apply_buys(st0, rest, key);
        let st = apply_buys(st0, orders, key);
        assert forall|i: int| 0 <= i < rest.len() implies #[trigger] rest[i] == orders[i] by {}
        assert(orders[n] == last);
        if order_key(last) != key {
            assert(st == prev);
            if let Some(h) = st.buy_price_highest {
                let i = choose|i: int| first_at_price(rest, key, h, i) && st.buy_amount_highest == Some(#[trigger] rest[i].quantity);
                lemma_first_at_price_extends(orders, key, h, i);
                assert(first_at_price(orders, key, h, i));
                assert(st.buy_amount_highest == Some(orders[i].quantity));
            }
            if let Some(l) = st.buy_price_lowest {
                let i = choose|i: int| first_at_price(rest, key, l, i) && st.buy_amount_lowest == Some(#[trigger] rest[i].quantity);
                lemma_first_at_price_extends(orders, key, l, i);
                assert(first_at_price(orders, key, l, i));
                assert(st.buy_amount_lowest == Some(orders[i].quantity));
            }
        } else {
            assert(st == with_buy(prev, last));
            let h = st.buy_price_highest.unwrap();
            if beats_highest(prev.buy_price_highest, last.price_threshold) {
                assert forall|j: int| 0 <= j < n implies !(order_key(#[trigger] orders[j]) == key
                    && orders[j].price_threshold == h) by {
                    if order_key(orders[j]) == key {
                        assert(order_key(rest[j]) == key);
                        assert(has_order_for(rest, key));
                    }
                }
                assert(first_at_price(orders, key, h, n));
                assert(st.buy_amount_highest == Some(orders[n].quantity));
            } else {
                let i = choose|i: int| first_at_price(rest, key, h, i) && prev.buy_amount_highest == Some(#[trigger] rest[i].quantity);
                lemma_first_at_price_extends(orders, key, h, i);
                assert(first_at_price(orders, key, h, i));
                assert(st.buy_amount_highest == Some(orders[i].quantity));
            }
            let l = st.buy_price_lowest.unwrap();
            if beats_lowest(prev.buy_price_lowest, last.price_threshold) {
                assert forall|j: int| 0 <= j < n implies !(order_key(#[trigger] orders[j]) == key
                    && orders[j].price_threshold == l) by {
                    if order_key(orders[j]) == key {
                        assert(order_key(rest[j]) == key);
                        assert(has_order_for(rest, key));
                    }
                }
                assert(first_at_price(orders, key, l, n));
                assert(st.buy_amount_lowest == Some(orders[n].quantity));
            } else {
                let i = choose|i: int| first_at_price(rest, key, l, i) && prev.buy_amount_lowest == Some(#[trigger] rest[i].quantity);
                lemma_first_at_price_extends(orders, key, l, i);
                assert(first_at_price(orders, key, l, i));
                assert(st.buy_amount_lowest == Some(orders[i].quantity));
            }
        }
    }
}

proof fn lemma_sell_amounts(st0: MarketOrderStats, orders: Seq<MarketOrder>, key: Seq<char>)
    requires
        st0.sell_price_highest is None,
        st0.sell_price_lowest is None,
        st0.sell_amount_highest is None,
        st0.sell_amount_lowest is None,
    ensures
        ({
            let st = apply_sells(st0, orders, key);
            &&& (st.sell_amount_highest is None <==> st.sell_price_highest is None)
            &&& (st.sell_amount_lowest is None <==> st.sell_price_lowest is None)
            &&& (st.sell_price_highest matches Some(h) ==> exists|i: int|
                first_at_price(orders, key, h, i) && st.sell_amount_highest == Some(#[trigger] orders[i].quantity))
            &&& (st.sell_price_lowest matches Some(l) ==> exists|i: int|
                first_at_price(orders, key, l, i) && st.sell_amount_lowest == Some(#[trigger] orders[i].quantity))
        }),
    decreases orders.len(),
{
    if orders.len() > 0 {
        let rest = orders.drop_last();
        let last = orders.last();
        let n = orders.len() - 1;
        lemma_sell_amounts(st0, rest, key);
        lemma_sell_price_extremes(st0, rest, key);
        let prev = apply_sells(st0, rest, key);
        let st = apply_sells(st0, orders, key);
        assert forall|i: int| 0 <= i < rest.len() implies #[trigger] rest[i] == orders[i] by {}
        assert(orders[n] == last);
        if order_key(last) != key {
            assert(st == prev);
            if let Some(h) = st.sell_price_highest {
                let i = choose|i: int| first_at_price(rest, key, h, i) && st.sell_amount_highest == Some(#[trigger] rest[i].quantity);
                lemma_first_at_price_extends(orders, key, h, i);
                assert(first_at_price(orders, key, h, i));
                assert(st.sell_amount_highest == Some(orders[i].quantity));
            }
            if let Some(l) = st.sell_price_lowest {
                let i = choose|i: int| first_at_price(rest, key, l, i) && st.sell_amount_lowest == Some(#[trigger] rest[i].quantity);
                lemma_first_at_price_extends(orders, key, l, i);
                assert(first_at_price(orders, key, l, i));
                assert(st.sell_amount_lowest == Some(orders[i].quantity));
            }
        } else {
            assert(st == with_sell(prev, last));
            let h = st.sell_price_highest.unwrap();
            if beats_highest(prev.sell_price_highest, last.price_threshold) {
                assert forall|j: int| 0 <= j < n implies !(order_key(#[trigger] orders[j]) == key
                    && orders[j].price_threshold == h) by {
                    if order_key(orders[j]) == key {
                        assert(order_key(rest[j]) == key);
                        assert(has_order_for(rest, key));
                    }
                }
                assert(first_at_price(orders, key, h, n));
                assert(st.sell_amount_highest == Some(orders[n].quantity));
            } else {
                let i = choose|i: int| first_at_price(rest, key, h, i) && prev.sell_amount_highest == Some(#[trigger] rest[i].quantity);
                lemma_first_at_price_extends(orders, key, h, i);
                assert(first_at_price(orders, key, h, i));
                assert(st.sell_amount_highest == Some(orders[i].quantity));
            }
            let l = st.sell_price_lowest.unwrap();
            if beats_lowest(prev.sell_price_lowest, last.price_threshold) {
                assert forall|j: int| 0 <= j < n implies !(order_key(#[trigger] orders[j]) == key
                    && orders[j].price_threshold == l) by {
                    if order_key(orders[j]) == key {
                        assert(order_key(rest[j]) == key);
                        assert(has_order_for(rest, key));
                    }
                }
                assert(first_at_price(orders, key, l, n));
                assert(st.sell_amount_lowest == Some(orders[n].quantity));
            } else {
                let i = choose|i: int| first_at_price(rest, key, l, i) && prev.sell_amount_lowest == Some(#[trigger] rest[i].quantity);
                lemma_first_at_price_extends(orders, key, l, i);
                assert(first_at_price(orders, key, l, i));
                assert(st.sell_amount_lowest == Some(orders[i].quantity));
            }
        }
    }
}

proof fn lemma_buys_keep_sells(st0: MarketOrderStats, orders: Seq<MarketOrder>, key: Seq<char>)
    ensures
        apply_buys(st0, orders, key).sell_price_highest == st0.sell_price_highest,
        apply_buys(st0, orders, key).sell_price_lowest == st0.sell_price_lowest,
        apply_buys(st0, orders, key).sell_amount_highest == st0.sell_amount_highest,
        apply_buys(st0, orders, key).sell_amount_lowest == st0.sell_amount_lowest,
    decreases orders.len(),
{
    if orders.len() > 0 {
        lemma_buys_keep_sells(st0, orders.drop_last(), key);
    }
}

proof fn lemma_sells_keep_buys(st0: MarketOrderStats, orders: Seq<MarketOrder>, key: Seq<char>)
    ensures
        apply_sells(st0, orders, key).buy_price_highest == st0.buy_price_highest,
        apply_sells(st0, orders, key).buy_price_lowest == st0.buy_price_lowest,
        apply_sells(st0, orders, key).buy_amount_highest == st0.buy_amount_highest,
        apply_sells(st0, orders, key).buy_amount_lowest == st0.buy_amount_lowest,
    decreases orders.len(),
{
    if orders.len() > 0 {
        lemma_sells_keep_buys(st0, orders.drop_last(), key);
    }
}

/// The amounts an item's statistics report go with their prices: on each side, the
/// amount at the highest price is the quantity of the first order of the item at that
/// price, and likewise at the lowest price; an amount is absent exactly when its
/// price is.
pub proof fn lemma_item_stats_amounts(buy: Seq<MarketOrder>, sell: Seq<MarketOrder>, key: Seq<char>)
    ensures
        ({
            let st = item_stats(buy, sell, key);
            &&& (st.buy_amount_highest is None <==> st.buy_price_highest is None)
            &&& (st.buy_amount_lowest is None <==> st.buy_price_lowest is None)
            &&& (st.sell_amount_highest is None <==> st.sell_price_highest is None)
            &&& (st.sell_amount_lowest is None <==> st.sell_price_lowest is None)
            &&& (st.buy_price_highest matches Some(h) ==> exists|i: int|
                first_at_price(buy, key, h, i) && st.buy_amount_highest == Some(#[trigger] buy[i].quantity))
            &&& (st.buy_price_lowest matches Some(l) ==> exists|i: int|
                first_at_price(buy, key, l, i) && st.buy_amount_lowest == Some(#[trigger] buy[i].quantity))
            &&& (st.sell_price_highest matches Some(h) ==> exists|i: int|
                first_at_price(sell, key, h, i) && st.sell_amount_highest == Some(#[trigger] sell[i].quantity))
            &&& (st.sell_price_lowest matches Some(l) ==> exists|i: int|
                first_at_price(sell, key, l, i) && st.sell_amount_lowest == Some(#[trigger] sell[i].quantity))
        }),
{
    lemma_buy_amounts(no_orders(), buy, key);
    let after_buys = apply_buys(no_orders(), buy, key);
    lemma_buys_keep_sells(no_orders(), buy, key);
    lemma_sell_amounts(after_buys, sell, key);
    lemma_sells_keep_buys(after_buys, sell, key);
}

/// The number of orders of the item `key`.
pub open spec fn orders_of_item(orders: Seq<MarketOrder>, key: Seq<char>) -> nat {
    orders.filter(|o: MarketOrder| order_key(o) == key).len()
}

proof fn lemma_buy_count(st0: MarketOrderStats, orders: Seq<MarketOrder>, key: Seq<char>)
    requires
        st0.buy + orders.len() <= u64::MAX,
        st0.total + orders.len() <= u64::MAX,
    ensures
        apply_buys(st0, orders, key).buy == st0.buy + orders_of_item(orders, key),
        apply_buys(st0, orders, key).total == st0.total + orders_of_item(orders, key),
    decreases orders.len(),
{
    if orders.len() > 0 {
        let rest = orders.drop_last();
        lemma_buy_count(st0, rest, key);
        assert(orders =~= rest.push(orders.last()));
        rest.lemma_filter_len_push(|o: MarketOrder| order_key(o) == key, orders.last());
        rest.lemma_filter_len(|o: MarketOrder| order_key(o) == key);
    }
}

proof fn lemma_sell_count(st0: MarketOrderStats, orders: Seq<MarketOrder>, key: Seq<char>)
    requires
        st0.sell + orders.len() <= u64::MAX,
        st0.total + orders.len() <= u64::MAX,
    ensures
        apply_sells(st0, orders, key).sell == st0.sell + orders_of_item(orders, key),
        apply_sells(st0, orders, key).total == st0.total + orders_of_item(orders, key),
    decreases orders.len(),
{
    if orders.len() > 0 {
        let rest = orders.drop_last();
        lemma_sell_count(st0, rest, key);
        assert(orders =~= rest.push(orders.last()));
        rest.lemma_filter_len_push(|o: MarketOrder| order_key(o) == key, orders.last());
        rest.lemma_filter_len(|o: MarketOrder| order_key(o) == key);
    }
}

/// An item's statistics count its orders: its buy orders, its sell orders, and both
/// together.
pub proof fn lemma_item_stats_counts(buy: Seq<MarketOrder>, sell: Seq<MarketOrder>, key: Seq<char>)
    requires
        buy.len() + sell.len() <= u64::MAX,
    ensures
        item_stats(buy, sell, key).buy == orders_of_item(buy, key),
        item_stats(buy, sell, key).sell == orders_of_item(sell, key),
        item_stats(buy, sell, key).total == orders_of_item(buy, key) + orders_of_item(sell, key),
{
    lemma_buy_count(no_orders(), buy, key);
    buy.lemma_filter_len(|o: MarketOrder| order_key(o) == key);
    let after = apply_buys(no_orders(), buy, key);
    lemma_buys_keep_sell_count(no_orders(), buy, key);
    lemma_sell_count(after, sell, key);
    lemma_sells_keep_buy_count(after, sell, key);
}

proof fn lemma_buys_keep_sell_count(st0: MarketOrderStats, orders: Seq<MarketOrder>, key: Seq<char>)
    ensures
        apply_buys(st0, orders, key).sell == st0.sell,
    decreases orders.len(),
{
    if orders.len() > 0 {
        lemma_buys_keep_sell_count(st0, orders.drop_last(), key);
    }
}

proof fn lemma_sells_keep_buy_count(st0: MarketOrderStats, orders: Seq<MarketOrder>, key: Seq<char>)
    ensures
        apply_sells(st0, orders, key).buy == st0.buy,
    decreases orders.len(),
{
    if orders.len() > 0 {
        lemma_sells_keep_buy_count(st0, orders.drop_last(), key);
    }
}

/// What the market page reads of an item or cargo description; a cargo has no item
/// list (0).
#[derive(Debug, PartialEq, Eq)]
pub struct MarketDesc {
    pub kind: ItemKind,
    pub id: i32,
    pub name: String,
    pub rarity: String,
    pub tier: i32,
    pub tag: String,
    pub item_list_id: i32,
}

/// An entry of the market page: its label, its key, and the position of its
/// description.
#[derive(Debug, PartialEq, Eq)]
pub struct MarketOption {
    pub label: String,
    pub key: String,
    pub position: usize,
}

/// The market page offers every cargo and every item outside an item list.
pub open spec fn offered(d: MarketDesc) -> bool {
    !(d.kind == ItemKind::Item && d.item_list_id > 0)
}

/// The key of an entry: 0 for an item, 1 for a cargo, a ':', and the id.
pub open spec fn option_key(kind: ItemKind, id: i32) -> Seq<char> {
    (if kind == ItemKind::Item {
        seq!['0']
    } else {
        seq!['1']
    }) + seq![':'] + decimal(id as int)
}

/// The label of an entry: "name - rarity - Ttier".
pub open spec fn option_label(name: Seq<char>, rarity: Seq<char>, tier: i32) -> Seq<char> {
    name + " - "@ + rarity + " - T"@ + decimal(tier as int)
}

/// `options` lists, in order, the entries of the offered descriptions among the first `n`.
pub open spec fn lists_options(descs: Seq<MarketDesc>, n: int, options: Seq<MarketOption>) -> bool {
    &&& forall|a: int, b: int| 0 <= a < b < options.len() ==> options[a].position < options[b].position
    &&& forall|k: int|
        0 <= k < options.len() ==> {
            let p = (#[trigger] options[k]).position as int;
            &&& 0 <= p < n
            &&& offered(descs[p])
            &&& options[k].key@ == option_key(descs[p].kind, descs[p].id)
            &&& options[k].label@ == option_label(descs[p].name@, descs[p].rarity@, descs[p].tier)
        }
    &&& forall|p: int| 0 <= p < n && offered(#[trigger] descs[p]) ==> exists|k: int|
        0 <= k < options.len() && options[k].position == p
}

/// The tags of the descriptions of the entries.
pub open spec fn option_tags(descs: Seq<MarketDesc>, options: Seq<MarketOption>) -> Seq<String> {
    options.map_values(|o: MarketOption| descs[o.position as int].tag)
}

fn option_key_text(kind: ItemKind, id: i32) -> (key: String)
    ensures
        key@ == option_key(kind, id),
{
    proof {
        reveal_strlit("0:");
        reveal_strlit("1:");
    }
    let mut key = match kind {
        ItemKind::Item => String::from_str("0:"),
        ItemKind::Cargo => String::from_str("1:"),
    };
    let digits = format_i64(id as i64);
    key.append(digits.as_str());
    assert(key@ =~= option_key(kind, id));
    key
}

fn option_label_text(name: &String, rarity: &String, tier: i32) -> (label: String)
    ensures
        label@ == option_label(name@, rarity@, tier),
{
    let mut label = name.clone();
    label.append(" - ");
    label.append(rarity.as_str());
    label.append(" - T");
    let digits = format_i64(tier as i64);
    label.append(digits.as_str());
    assert(label@ =~= option_label(name@, rarity@, tier));
    label
}

/// The entries of the market page (see `lists_options`), and their positions in that
/// list grouped by the tag of their description.
pub fn market_item_cargo_desc(descs: &Vec<MarketDesc>) -> (page: (Vec<MarketOption>, MarketOrderGroups))
    ensures
        lists_options(descs@, descs@.len() as int, page.0@),
        groups_orders(page.1, texts(option_tags(descs@, page.0@)), |key: Seq<char>| true),
{
    let mut options: Vec<MarketOption> = Vec::new();
    let mut tags: Vec<String> = Vec::new();
    let mut i: usize = 0;
    while i < descs.len()
        invariant
            i <= descs.len(),
            lists_options(descs@, i as int, options@),
            tags@ == option_tags(descs@, options@),
        decreases descs.len() - i,
    {
        let d = &descs[i];
        let skip = match d.kind {
            ItemKind::Item => d.item_list_id > 0,
            ItemKind::Cargo => false,
        };
        if !skip {
            let ghost before = options@;
            let key = option_key_text(d.kind, d.id);
            let label = option_label_text(&d.name, &d.rarity, d.tier);
            options.push(MarketOption { label, key, position: i });
            tags.push(d.tag.clone());
            proof {
                assert(tags@ =~= option_tags(descs@, options@));
                assert forall|p: int| 0 <= p < i + 1 && offered(#[trigger] descs@[p]) implies exists|k: int|
                    0 <= k < options@.len() && options@[k].position == p by {
                    if p < i {
                        let k = choose|k: int| 0 <= k < before.len() && before[k].position == p;
                        assert(options@[k].position == p);
                    } else {
                        assert(options@[options@.len() - 1].position == p);
                    }
                }
                assert forall|k: int| 0 <= k < options@.len() implies ({
                    let p = (#[trigger] options@[k]).position as int;
                    &&& 0 <= p < i + 1
                    &&& offered(descs@[p])
                    &&& options@[k].key@ == option_key(descs@[p].kind, descs@[p].id)
                    &&& options@[k].label@ == option_label(descs@[p].name@, descs@[p].rarity@, descs@[p].tier)
                }) by {
                    if k < before.len() {
                        assert(options@[k] == before[k]);
                    }
                }
            }
        } else {
            proof {
                assert forall|p: int| 0 <= p < i + 1 && offered(#[trigger] descs@[p]) implies exists|k: int|
                    0 <= k < options@.len() && options@[k].position == p by {
                    assert(p < i);
                }
            }
        }
        i = i + 1;
    }
    let groups = group_orders(&tags, &Vec::new(), true);
    proof {
        let w1 = |key: Seq<char>| true || texts(Seq::<String>::empty()).contains(key);
        let w2 = |key: Seq<char>| true;
        assert(w1 =~= w2);
    }
    (options, groups)
}

} // verus!
