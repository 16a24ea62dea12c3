//! Text helpers: lower-casing, substring search and ordering of texts.
use vstd::prelude::*;

verus! {

/// The text `str::to_lowercase` makes of `s` (Unicode lower-case mapping).
pub uninterp spec fn lowercase(s: Seq<char>) -> Seq<char>;

/// `str::to_lowercase`.
#[verifier::external_body]
pub(crate) fn to_lowercase(s: &str) -> (lower: String)
    ensures
        lower@ == lowercase(s@),
{
    s.to_lowercase()
}

/// `needle` occurs in `haystack` starting at `start`.
pub open spec fn occurs_at(haystack: Seq<char>, needle: Seq<char>, start: int) -> bool {
    0 <= start && start + needle.len() <= haystack.len() && haystack.subrange(start, start + needle.len())
        == needle
}

/// `needle` occurs somewhere in `haystack` (the empty text occurs in every text).
pub open spec fn contains_text_spec(haystack: Seq<char>, needle: Seq<char>) -> bool {
    exists|start: int| occurs_at(haystack, needle, start)
}

/// Whether `needle` occurs in `haystack`.
pub fn contains_text(haystack: &str, needle: &str) -> (found: bool)
    ensures
        found == contains_text_spec(haystack@, needle@),
{
    let h = haystack.unicode_len();
    let n = needle.unicode_len();
    if n > h {
        proof {
            assert forall|start: int| !occurs_at(haystack@, needle@, start) by {}
        }
        return false;
    }
    if n == 0 {
        assert(haystack@.subrange(0, 0) =~= needle@);
        assert(occurs_at(haystack@, needle@, 0));
        return true;
    }
    let mut start: usize = 0;
    while start <= h - n
        invariant
            h == haystack@.len(),
            n == needle@.len(),
            1 <= n <= h,
            start <= h - n + 1,
            forall|s: int| 0 <= s < start ==> !occurs_at(haystack@, needle@, s),
        decreases h - n + 1 - start,
    {
        let mut j: usize = 0;
        let mut same = true;
        while j < n
            invariant
                h == haystack@.len(),
                n == needle@.len(),
                start + n <= h,
                j <= n,
                same ==> forall|k: int| 0 <= k < j ==> haystack@[start + k] == needle@[k],
                !same ==> !occurs_at(haystack@, needle@, start as int),
            decreases n - j,
        {
            if haystack.get_char(start + j) != needle.get_char(j) {
                proof {
                    assert(haystack@.subrange(start as int, start + n)[j as int] == haystack@[start
                        + j]);
                }
                same = false;
            }
            j = j + 1;
        }
        if same {
            proof {
                assert(haystack@.subrange(start as int, start + n) =~= needle@);
                assert(occurs_at(haystack@, needle@, start as int));
            }
            return true;
        }
        start = start + 1;
    }
    proof {
        assert forall|s: int| !occurs_at(haystack@, needle@, s) by {
            if 0 <= s && s < start {
            }
        }
    }
    false
}

/// Lexicographic order of texts by character code, the order of `String` in std.
pub open spec fn text_le(a: Seq<char>, b: Seq<char>) -> bool
    decreases a.len(),
{
    if a.len() == 0 {
        true
    } else if b.len() == 0 {
        false
    } else if a[0] != b[0] {
        (a[0] as int) < (b[0] as int)
    } else {
        text_le(a.drop_first(), b.drop_first())
    }
}

/// The texts held by a list of strings.
pub open spec fn texts(v: Seq<String>) -> Seq<Seq<char>> {
    v.map_values(|s: String| s@)
}

/// `slice::sort` on a list of strings: the same texts, in increasing order.
#[verifier::external_body]
pub(crate) fn sort_texts(v: &mut Vec<String>)
    ensures
        texts(final(v)@).to_multiset() == texts(old(v)@).to_multiset(),
        forall|i: int, j: int|
            0 <= i < j < final(v)@.len() ==> text_le(#[trigger] final(v)@[i]@, #[trigger] final(v)@[j]@),
{
    v.sort()
}

/// Whether two texts are the same.
pub fn same_text(a: &str, b: &str) -> (same: bool)
    ensures
        same == (a@ == b@),
{
    let n = a.unicode_len();
    if n != b.unicode_len() {
        return false;
    }
    let mut i: usize = 0;
    while i < n
        invariant
            n == a@.len(),
            n == b@.len(),
            i <= n,
            forall|j: int| 0 <= j < i ==> a@[j] == b@[j],
        decreases n - i,
    {
        if a.get_char(i) != b.get_char(i) {
            return false;
        }
        i = i + 1;
    }
    assert(a@ =~= b@);
    true
}

/// The text of `s` from `start` (inclusive) to `end` (exclusive).
pub(crate) fn slice_text(s: &str, start: usize, end: usize) -> (piece: String)
    requires
        start <= end <= s@.len(),
    ensures
        piece@ == s@.subrange(start as int, end as int),
{
    String::from_str(s.substring_char(start, end))
}

/// An ASCII decimal digit.
pub open spec fn is_digit(c: char) -> bool {
    '0' <= c <= '9'
}

/// The number the decimal digits `s` write.
pub open spec fn digits_value(s: Seq<char>) -> int
    decreases s.len(),
{
    if s.len() == 0 {
        0
    } else {
        digits_value(s.drop_last()) * 10 + (s.last() as int - '0' as int)
    }
}

/// Every character is a digit.
pub open spec fn all_digits(s: Seq<char>) -> bool {
    forall|i: int| 0 <= i < s.len() ==> is_digit(#[trigger] s[i])
}

/// `s` without a leading sign.
pub open spec fn unsigned_part(s: Seq<char>) -> Seq<char> {
    if s.len() > 0 && (s[0] == '-' || s[0] == '+') {
        s.drop_first()
    } else {
        s
    }
}

/// What `str::parse::<i64>` gives: an optional `+` or `-`, then one or more ASCII
/// digits, whose value must fit an `i64`; anything else is no number.
pub open spec fn parsed_i64(s: Seq<char>) -> Option<i64> {
    let negative = s.len() > 0 && s[0] == '-';
    let digits = unsigned_part(s);
    if digits.len() == 0 || !all_digits(digits) {
        None
    } else {
        let v = if negative {
            -digits_value(digits)
        } else {
            digits_value(digits)
        };
        if i64::MIN <= v <= i64::MAX {
            Some(v as i64)
        } else {
            None
        }
    }
}

proof fn lemma_digits_grow(s: Seq<char>, i: int, j: int)
    requires
        0 <= i <= j <= s.len(),
        forall|k: int| 0 <= k < s.len() ==> is_digit(#[trigger] s[k]),
    ensures
        0 <= digits_value(s.take(i)) <= digits_value(s.take(j)),
    decreases j - i,
{
    if i < j {
        lemma_digits_grow(s, i, j - 1);
        assert(s.take(j).drop_last() =~= s.take(j - 1));
        assert(s.take(j).last() == s[j - 1]);
    }
    if i == j {
        lemma_digits_nonneg(s.take(i));
    }
}

proof fn lemma_digits_nonneg(s: Seq<char>)
    requires
        forall|k: int| 0 <= k < s.len() ==> is_digit(#[trigger] s[k]),
    ensures
        digits_value(s) >= 0,
    decreases s.len(),
{
    if s.len() > 0 {
        assert(is_digit(s[s.len() - 1]));
        lemma_digits_nonneg(s.drop_last());
    }
}

/// The number `s` writes (see `parsed_i64`).
pub fn parse_i64(s: &str) -> (n: Option<i64>)
    ensures
        n == parsed_i64(s@),
{
    let len = s.unicode_len();
    let mut start: usize = 0;
    let mut negative = false;
    if len > 0 {
        let c = s.get_char(0);
        if c == '-' {
            negative = true;
            start = 1;
        } else if c == '+' {
            start = 1;
        }
    }
    let ghost digits = s@.skip(start as int);
    assert(digits =~= unsigned_part(s@));
    assert(negative == (s@.len() > 0 && s@[0] == '-'));
    if start == len {
        return None;
    }
    let mut k: usize = start;
    while k < len
        invariant
            start <= k <= len,
            len == s@.len(),
            digits == s@.skip(start as int),
            digits == unsigned_part(s@),
            negative == (s@.len() > 0 && s@[0] == '-'),
            forall|m: int| 0 <= m < k - start ==> is_digit(#[trigger] digits[m]),
        decreases len - k,
    {
        let c = s.get_char(k);
        if !('0' <= c && c <= '9') {
            proof {
                assert(digits[k - start] == s@[k as int]);
                assert(!is_digit(digits[k - start]));
                assert(!all_digits(digits));
            }
            return None;
        }
        k = k + 1;
    }
    let mut magnitude: u128 = 0;
    let mut i: usize = start;
    while i < len
        invariant
            start <= i <= len,
            len == s@.len(),
            digits == s@.skip(start as int),
            digits == unsigned_part(s@),
            negative == (s@.len() > 0 && s@[0] == '-'),
            digits.len() > 0,
            forall|m: int| 0 <= m < digits.len() ==> is_digit(#[trigger] digits[m]),
            magnitude == digits_value(digits.take(i - start)),
            magnitude <= 9_223_372_036_854_775_808,
        decreases len - i,
    {
        let c = s.get_char(i);
        assert(c == digits[i - start]);
        assert(is_digit(c));
        let d = (c as u32 - '0' as u32) as u128;
        assert(digits.take(i - start + 1).drop_last() =~= digits.take(i - start));
        let next = magnitude * 10 + d;
        if next > 9_223_372_036_854_775_808 {
            proof {
                lemma_digits_grow(digits, i - start + 1, digits.len() as int);
                assert(digits.take(digits.len() as int) =~= digits);
            }
            return None;
        }
        magnitude = next;
        i = i + 1;
    }
    assert(digits.take(digits.len() as int) =~= digits);
    if negative {
        Some((0i128 - magnitude as i128) as i64)
    } else if magnitude <= 9_223_372_036_854_775_807 {
        Some(magnitude as i64)
    } else {
        None
    }
}

/// The character of the decimal digit `d`.
pub open spec fn digit_char(d: int) -> char {
    (d + 48) as char
}

/// The decimal digits of `m`, most significant first, without leading zeros ("0" for 0).
pub open spec fn digits_of(m: nat) -> Seq<char>
    decreases m,
{
    if m < 10 {
        seq![digit_char(m as int)]
    } else {
        digits_of(m / 10).push(digit_char((m % 10) as int))
    }
}

/// How `n` is written in decimal: a '-' before the digits of a negative number.
pub open spec fn decimal(n: int) -> Seq<char> {
    if n < 0 {
        seq!['-'] + digits_of((-n) as nat)
    } else {
        digits_of(n as nat)
    }
}

/// The chars of a list of digit values.
pub open spec fn digit_chars(ds: Seq<u8>) -> Seq<char> {
    ds.map_values(|d: u8| digit_char(d as int))
}

fn digit_str(d: u8) -> (s: &'static str)
    requires
        d < 10,
    ensures
        s@ == seq![digit_char(d as int)],
{
    proof {
        reveal_strlit("0");
        reveal_strlit("1");
        reveal_strlit("2");
        reveal_strlit("3");
        reveal_strlit("4");
        reveal_strlit("5");
        reveal_strlit("6");
        reveal_strlit("7");
        reveal_strlit("8");
        reveal_strlit("9");
    }
    let s = match d {
        0 => "0",
        1 => "1",
        2 => "2",
        3 => "3",
        4 => "4",
        5 => "5",
        6 => "6",
        7 => "7",
        8 => "8",
        _ => "9",
    };
    assert(s@ =~= seq![digit_char(d as int)]);
    s
}

/// `n` written in decimal (see `decimal`).
pub fn format_i64(n: i64) -> (s: String)
    ensures
        s@ == decimal(n as int),
{
    let m: u64 = if n < 0 {
        (0i128 - n as i128) as u64
    } else {
        n as u64
    };
    assert(m == (if n < 0 { -n } else { n as int }));
    let mut ds: Vec<u8> = Vec::new();
    let mut rest: u64 = m;
    let mut done = false;
    while !done
        invariant
            done ==> digits_of(m as nat) == digit_chars(ds@),
            !done ==> digits_of(m as nat) == digits_of(rest as nat) + digit_chars(ds@),
            forall|i: int| 0 <= i < ds@.len() ==> ds@[i] < 10,
        decreases rest, (if done { 0int } else { 1int }),
    {
        let d = (rest % 10) as u8;
        let ghost before = ds@;
        ds.insert(0, d);
        proof {
            assert(digit_chars(ds@) =~= seq![digit_char(d as int)] + digit_chars(before));
        }
        if rest < 10 {
            proof {
                assert(digits_of(rest as nat) == seq![digit_char(rest as int)]);
                assert(digit_chars(ds@) =~= digits_of(rest as nat) + digit_chars(before));
            }
            done = true;
        } else {
            proof {
                assert(digits_of(rest as nat) == digits_of((rest / 10) as nat).push(digit_char((rest % 10) as int)));
                assert(digits_of(rest as nat) + digit_chars(before) =~= digits_of((rest / 10) as nat) + digit_chars(ds@));
            }
            rest = rest / 10;
        }
    }
    let mut out = if n < 0 {
        proof {
            reveal_strlit("-");
        }
        String::from_str("-")
    } else {
        String::new()
    };
    let ghost prefix = out@;
    assert(prefix == (if n < 0 { seq!['-'] } else { Seq::<char>::empty() }));
    let mut i: usize = 0;
    while i < ds.len()
        invariant
            i <= ds@.len(),
            forall|q: int| 0 <= q < ds@.len() ==> ds@[q] < 10,
            out@ == prefix + digit_chars(ds@).take(i as int),
        decreases ds.len() - i,
    {
        let piece = digit_str(ds[i]);
        out.append(piece);
        assert(digit_chars(ds@).take(i + 1) =~= digit_chars(ds@).take(i as int).push(digit_char(ds@[i as int] as int)));
        assert(out@ =~= prefix + digit_chars(ds@).take(i + 1));
        i = i + 1;
    }
    assert(digit_chars(ds@).take(ds@.len() as int) =~= digit_chars(ds@));
    out
}

proof fn lemma_digits_of(m: nat)
    ensures
        digits_of(m).len() >= 1,
        all_digits(digits_of(m)),
        digits_value(digits_of(m)) == m,
    decreases m,
{
    let d = digits_of(m);
    if m < 10 {
        assert(digit_char(m as int) as int == m + 48);
        assert(d.drop_last() =~= Seq::<char>::empty());
        assert(digits_value(Seq::<char>::empty()) == 0);
        assert('0' as int == 48);
        assert(d.last() == digit_char(m as int));
        assert(digits_value(d) == digits_value(d.drop_last()) * 10 + (d.last() as int - '0' as int));
        assert(is_digit(d[0]));
    } else {
        lemma_digits_of(m / 10);
        let front = digits_of(m / 10);
        assert(digit_char((m % 10) as int) as int == m % 10 + 48);
        assert(d.drop_last() =~= front);
        assert('0' as int == 48);
        assert(d.last() == digit_char((m % 10) as int));
        assert(digits_value(d) == digits_value(d.drop_last()) * 10 + (d.last() as int - '0' as int));
        assert(digits_value(d) == (m / 10) * 10 + m % 10);
        assert forall|i: int| 0 <= i < d.len() implies is_digit(#[trigger] d[i]) by {
            if i < front.len() {
                assert(d[i] == front[i]);
            }
        }
    }
}

/// Reading back a number written in decimal gives the number: `parse_i64` undoes
/// `format_i64`.
pub proof fn lemma_parse_undoes_format(n: i64)
    ensures
        parsed_i64(decimal(n as int)) == Some(n),
{
    let m: nat = if n < 0 { (-n) as nat } else { n as nat };
    lemma_digits_of(m);
    let d = digits_of(m);
    let s = decimal(n as int);
    assert(is_digit(d[0]));
    if n < 0 {
        assert(s[0] == '-');
        assert(s.drop_first() =~= d);
        assert(unsigned_part(s) == d);
    } else {
        assert(s == d);
        assert(s[0] != '-' && s[0] != '+');
        assert(unsigned_part(s) == d);
    }
}

/// `a` comes strictly before `b` in the order of texts.
pub open spec fn text_lt(a: Seq<char>, b: Seq<char>) -> bool {
    text_le(a, b) && a != b
}

/// Any two texts are ordered one way or the other.
pub proof fn lemma_text_le_total(a: Seq<char>, b: Seq<char>)
    ensures
        text_le(a, b) || text_le(b, a),
    decreases a.len(),
{
    if a.len() > 0 && b.len() > 0 {
        if a[0] == b[0] {
            lemma_text_le_total(a.drop_first(), b.drop_first());
        } else {
            assert((a[0] as int) != (b[0] as int));
        }
    }
}

/// Texts ordered both ways are the same.
pub proof fn lemma_text_le_antisymmetric(a: Seq<char>, b: Seq<char>)
    requires
        text_le(a, b),
        text_le(b, a),
    ensures
        a == b,
    decreases a.len(),
{
    if a.len() > 0 && b.len() > 0 {
        lemma_text_le_antisymmetric(a.drop_first(), b.drop_first());
        assert(a =~= seq![a[0]] + a.drop_first());
        assert(b =~= seq![b[0]] + b.drop_first());
    } else {
        assert(a =~= b);
    }
}

/// The order of texts is transitive.
pub proof fn lemma_text_le_transitive(a: Seq<char>, b: Seq<char>, c: Seq<char>)
    requires
        text_le(a, b),
        text_le(b, c),
    ensures
        text_le(a, c),
    decreases a.len(),
{
    if a.len() > 0 && b.len() > 0 && c.len() > 0 && a[0] == b[0] && b[0] == c[0] {
        lemma_text_le_transitive(a.drop_first(), b.drop_first(), c.drop_first());
    }
}

/// Texts that agree on their first `i` characters compare as what follows them.
proof fn lemma_text_le_after_prefix(a: Seq<char>, b: Seq<char>, i: int)
    requires
        0 <= i <= a.len(),
        i <= b.len(),
        forall|j: int| 0 <= j < i ==> a[j] == b[j],
    ensures
        text_le(a, b) == text_le(a.skip(i), b.skip(i)),
    decreases i,
{
    if i > 0 {
        lemma_text_le_after_prefix(a.drop_first(), b.drop_first(), i - 1);
        assert(a.drop_first().skip(i - 1) =~= a.skip(i));
        assert(b.drop_first().skip(i - 1) =~= b.skip(i));
    } else {
        assert(a.skip(0) =~= a);
        assert(b.skip(0) =~= b);
    }
}

/// Whether `a` comes strictly before `b` in the order of texts (see `text_le`).
pub fn text_less(a: &str, b: &str) -> (less: bool)
    ensures
        less == text_lt(a@, b@),
{
    let n = a.unicode_len();
    let m = b.unicode_len();
    let mut i: usize = 0;
    while i < n && i < m
        invariant
            n == a@.len(),
            m == b@.len(),
            i <= n,
            i <= m,
            forall|j: int| 0 <= j < i ==> a@[j] == b@[j],
        decreases n - i,
    {
        let x = a.get_char(i);
        let y = b.get_char(i);
        if x != y {
            proof {
                lemma_text_le_after_prefix(a@, b@, i as int);
                assert(a@.skip(i as int)[0] == x);
                assert(b@.skip(i as int)[0] == y);
            }
            return (x as u32) < (y as u32);
        }
        i = i + 1;
    }
    proof {
        lemma_text_le_after_prefix(a@, b@, i as int);
        if n == m {
            assert(a@ =~= b@);
        } else if i == n {
            assert(a@.skip(i as int).len() == 0);
        } else {
            assert(b@.skip(i as int).len() == 0);
            assert(a@.skip(i as int).len() > 0);
        }
    }
    n < m
}

} // verus!
