//! Characters, numbers and the order of names.

use crate::text::{byte_at, bytes, copy, length, put, slice};
#[allow(unused_imports)]
use crate::text::{lemma_bytes_concat, lemma_bytes_injective, lemma_ends};
use vstd::prelude::*;
use vstd::string::*;
use vstd::utf8::*;

verus! {

// ─── White space ─────────────────────────────────────────────────────────────

/// The characters with Unicode's White_Space property.
pub open spec fn is_white(c: char) -> bool {
    ||| '\u{9}' <= c <= '\u{d}'
    ||| c == ' '
    ||| c == '\u{85}'
    ||| c == '\u{a0}'
    ||| c == '\u{1680}'
    ||| '\u{2000}' <= c <= '\u{200a}'
    ||| c == '\u{2028}'
    ||| c == '\u{2029}'
    ||| c == '\u{202f}'
    ||| c == '\u{205f}'
    ||| c == '\u{3000}'
}

/// Whether `c` is white space.
pub fn white(c: char) -> (r: bool)
    ensures
        r == is_white(c),
{
    let n: u32 = c as u32;
    (0x9 <= n && n <= 0xd) || n == 0x20 || n == 0x85 || n == 0xa0 || n == 0x1680 || (0x2000 <= n && n
        <= 0x200a) || n == 0x2028 || n == 0x2029 || n == 0x202f || n == 0x205f || n == 0x3000
}

/// `t` without the white space it begins with.
pub open spec fn trim_front(t: Seq<char>) -> Seq<char>
    decreases t.len(),
{
    if t.len() > 0 && is_white(t[0]) {
        trim_front(t.drop_first())
    } else {
        t
    }
}

/// `t` without the white space it ends with.
pub open spec fn trim_back(t: Seq<char>) -> Seq<char>
    decreases t.len(),
{
    if t.len() > 0 && is_white(t.last()) {
        trim_back(t.drop_last())
    } else {
        t
    }
}

/// `str::trim_start` takes away the longest run of white space at the front.
pub assume_specification[ str::trim_start ](s: &str) -> (r: &str)
    ensures
        r@ == trim_front(s@),
;

/// `str::trim_end` takes away the longest run of white space at the back.
pub assume_specification[ str::trim_end ](s: &str) -> (r: &str)
    ensures
        r@ == trim_back(s@),
;

/// `str::trim` takes away the white space at both ends.
pub assume_specification[ str::trim ](s: &str) -> (r: &str)
    ensures
        r@ == trim_back(trim_front(s@)),
;

/// What is left after trimming the back is a beginning of the text.
pub proof fn lemma_trim_back_prefix(t: Seq<char>)
    ensures
        trim_back(t).len() <= t.len(),
        trim_back(t) == t.take(trim_back(t).len() as int),
        trim_back(trim_back(t)) == trim_back(t),
    decreases t.len(),
{
    if t.len() > 0 && is_white(t.last()) {
        lemma_trim_back_prefix(t.drop_last());
        let n = trim_back(t).len() as int;
        assert(t.drop_last().take(n) =~= t.take(n));
    } else {
        assert(t.take(t.len() as int) =~= t);
    }
}

/// What is left after trimming the front is an end of the text, and what was
/// trimmed is white space.
pub proof fn lemma_trim_front_suffix(t: Seq<char>)
    ensures
        trim_front(t).len() <= t.len(),
        trim_front(t) == t.skip(t.len() - trim_front(t).len()),
    decreases t.len(),
{
    if t.len() > 0 && is_white(t[0]) {
        lemma_trim_front_suffix(t.drop_first());
        let k = t.len() - trim_front(t).len();
        assert(t.drop_first().skip(k - 1) =~= t.skip(k));
    } else {
        assert(t.skip(0) =~= t);
    }
}

/// The white space that a text begins with.
pub open spec fn white_prefix(t: Seq<char>) -> Seq<char> {
    t.take(t.len() - trim_front(t).len())
}

/// The white space that `t` begins with.
pub fn leading_white(t: &str) -> (r: &str)
    ensures
        r@ == white_prefix(t@),
{
    let rest = t.trim_start();
    proof {
        lemma_trim_front_suffix(t@);
        let p = white_prefix(t@);
        assert(t@ =~= p + rest@);
        lemma_bytes_concat(p, rest@);
        crate::text::lemma_bytes_valid(p);
        crate::text::lemma_bytes_valid(t@);
        crate::text::lemma_suffix_valid(bytes(p), bytes(rest@));
        lemma_ends(t@);
    }
    let n = length(t) - length(rest);
    let r = slice(t, 0, n);
    proof {
        let p = white_prefix(t@);
        assert(bytes(r@) =~= bytes(p));
        lemma_bytes_injective(r@, p);
    }
    r
}

/// The first character of `t`, if it has one.
pub fn first_char(t: &str) -> (r: Option<char>)
    ensures
        match r {
            Some(c) => t@.len() > 0 && t@[0] == c,
            None => t@.len() == 0,
        },
{
    if t.is_empty() {
        None
    } else {
        Some(t.get_char(0))
    }
}

/// A character that ends a tag: white space or a parenthesis.
pub open spec fn ends_tag(c: char) -> bool {
    is_white(c) || c == '(' || c == ')'
}

/// Whether `b` is ASCII white space: space, tab, line feed, form feed or
/// carriage return.
pub open spec fn blank(b: u8) -> bool {
    b == 0x20 || b == 0x09 || b == 0x0a || b == 0x0c || b == 0x0d
}

/// Whether `b` is ASCII white space.
pub fn is_blank(b: u8) -> (r: bool)
    ensures
        r == blank(b),
{
    b == 0x20 || b == 0x09 || b == 0x0a || b == 0x0c || b == 0x0d
}

// ─── Decimal numbers ─────────────────────────────────────────────────────────

/// The character of one decimal digit.
pub open spec fn digit_char(d: nat) -> char {
    (d + 48) as char
}

/// A number written in decimal.
pub open spec fn decimal(n: nat) -> Seq<char>
    decreases n,
{
    if n < 10 {
        seq![digit_char(n)]
    } else {
        decimal(n / 10).push(digit_char(n % 10))
    }
}

/// A signed number written in decimal.
pub open spec fn signed_decimal(n: int) -> Seq<char> {
    if n < 0 {
        seq!['-'] + decimal((-n) as nat)
    } else {
        decimal(n as nat)
    }
}

fn digit_text(d: u64) -> (r: &'static str)
    requires
        d < 10,
    ensures
        r@ == seq![digit_char(d as nat)],
{
    proof {
        reveal_strlit("0");
        reveal_strlit("1");
        reveal_strlit("2");
        reveal_strlit("3");
        reveal_strlit("4");
        reveal_strlit("5");
        reveal_strlit("6");
        reveal_strlit("7");
        reveal_strlit("8");
        reveal_strlit("9");
    }
    let r = match d {
        0 => "0",
        1 => "1",
        2 => "2",
        3 => "3",
        4 => "4",
        5 => "5",
        6 => "6",
        7 => "7",
        8 => "8",
        _ => "9",
    };
    assert(r@ =~= seq![digit_char(d as nat)]);
    r
}

/// `n` written in decimal.
pub fn decimal_text(n: u64) -> (r: String)
    ensures
        r@ == decimal(n as nat),
    decreases n,
{
    if n < 10 {
        copy(digit_text(n))
    } else {
        let mut r = decimal_text(n / 10);
        put(&mut r, digit_text(n % 10));
        assert(r@ =~= decimal((n / 10) as nat).push(digit_char((n % 10) as nat)));
        r
    }
}

/// `n` written in decimal, with a minus sign where it is negative.
pub fn signed_text(n: i32) -> (r: String)
    ensures
        r@ == signed_decimal(n as int),
{
    if n < 0 {
        proof {
            reveal_strlit("-");
        }
        let mut r = copy("-");
        let m: i64 = n as i64;
        let d = decimal_text((-m) as u64);
        put(&mut r, d.as_str());
        assert(r@ =~= seq!['-'] + decimal((-(n as int)) as nat));
        r
    } else {
        decimal_text(n as u64)
    }
}

/// Whether `b` is an ASCII digit.
pub open spec fn digit(b: u8) -> bool {
    48 <= b <= 57
}

/// Whether `b` is an ASCII digit.
pub fn is_digit(b: u8) -> (r: bool)
    ensures
        r == digit(b),
{
    48 <= b && b <= 57
}

/// Whether every byte is an ASCII digit.
pub open spec fn all_digits(s: Seq<u8>) -> bool {
    forall|i: int| 0 <= i < s.len() ==> digit(#[trigger] s[i])
}

/// The number that a run of digits writes.
pub open spec fn digits_value(s: Seq<u8>) -> nat
    decreases s.len(),
{
    if s.len() == 0 {
        0
    } else {
        10 * digits_value(s.drop_last()) + (s.last() - 48) as nat
    }
}

/// The integer that `s` writes: digits with an optional sign before them, in the
/// range of `i32`.
pub open spec fn int_value(s: Seq<u8>) -> Option<int> {
    let signed = s.len() > 0 && (s[0] == 43 || s[0] == 45);
    let body = if signed {
        s.drop_first()
    } else {
        s
    };
    if body.len() == 0 || !all_digits(body) {
        None
    } else {
        let v = if s[0] == 45 {
            -(digits_value(body) as int)
        } else {
            digits_value(body) as int
        };
        if i32::MIN <= v <= i32::MAX {
            Some(v)
        } else {
            None
        }
    }
}

/// A longer run of digits writes no smaller a number.
proof fn lemma_digits_grow(s: Seq<u8>, k: int)
    requires
        all_digits(s),
        0 <= k <= s.len(),
    ensures
        digits_value(s.take(k)) <= digits_value(s),
    decreases s.len(),
{
    if k == s.len() {
        assert(s.take(k) =~= s);
    } else {
        let p = s.drop_last();
        assert(all_digits(p)) by {
            assert forall|i: int| 0 <= i < p.len() implies digit(#[trigger] p[i]) by {
                assert(p[i] == s[i]);
            }
        }
        lemma_digits_grow(p, k);
        assert(p.take(k) =~= s.take(k));
    }
}

/// The number written by the digits `from..` of `t`, up to `limit`; `None` where
/// there are none, where something else stands among them, or where it is more
/// than `limit`.
fn digits_from(t: &str, from: usize, limit: u64) -> (r: Option<u64>)
    requires
        from <= bytes(t@).len(),
        limit <= 0x1_0000_0000,
    ensures
        ({
            let body = bytes(t@).skip(from as int);
            match r {
                Some(v) => body.len() > 0 && all_digits(body) && digits_value(body) == v && v <= limit,
                None => body.len() == 0 || !all_digits(body) || digits_value(body) > limit,
            }
        }),
{
    let n = length(t);
    let ghost body = bytes(t@).skip(from as int);
    if from >= n {
        return None;
    }
    let mut v: u64 = 0;
    let mut i: usize = from;
    let mut big = false;
    while i < n
        invariant
            n == bytes(t@).len(),
            body == bytes(t@).skip(from as int),
            from <= i <= n,
            limit <= 0x1_0000_0000,
            v <= limit,
            all_digits(body.take(i - from)),
            !big ==> digits_value(body.take(i - from)) == v,
            big ==> digits_value(body.take(i - from)) > limit,
        decreases n - i,
    {
        let b = byte_at(t, i);
        assert(b == body[i - from]);
        if !is_digit(b) {
            return None;
        }
        let d: u64 = (b - 48) as u64;
        proof {
            assert(body.take(i - from + 1).drop_last() =~= body.take(i - from));
            assert(all_digits(body.take(i - from + 1))) by {
                assert forall|k: int| 0 <= k < i - from + 1 implies digit(
                    #[trigger] body.take(i - from + 1)[k],
                ) by {
                    if k < i - from {
                        assert(body.take(i - from)[k] == body[k]);
                    }
                }
            }
        }
        if !big {
            if v * 10 + d > limit {
                big = true;
            } else {
                v = v * 10 + d;
            }
        }
        i += 1;
    }
    assert(body.take(n - from) =~= body);
    if big {
        None
    } else {
        Some(v)
    }
}

/// The integer that `t` writes, as `str::parse::<i32>` reads it.
pub fn parse_int(t: &str) -> (r: Option<i32>)
    ensures
        match r {
            Some(v) => int_value(bytes(t@)) == Some(v as int),
            None => int_value(bytes(t@)).is_none(),
        },
{
    let n = length(t);
    if n == 0 {
        return None;
    }
    let b = byte_at(t, 0);
    let signed = b == 43 || b == 45;
    let from: usize = if signed {
        1
    } else {
        0
    };
    proof {
        assert(bytes(t@).skip(1) =~= bytes(t@).drop_first());
        assert(bytes(t@).skip(0) =~= bytes(t@));
    }
    let limit: u64 = if b == 45 {
        0x8000_0000
    } else {
        0x7fff_ffff
    };
    match digits_from(t, from, limit) {
        None => None,
        Some(v) => {
            if b == 45 {
                let w: i64 = v as i64;
                Some((-w) as i32)
            } else {
                Some(v as i32)
            }
        },
    }
}

/// The number that `s` writes: digits with an optional plus before them, in the
/// range of `u32`.
pub open spec fn unsigned_value(s: Seq<u8>) -> Option<int> {
    let body = if s.len() > 0 && s[0] == 43 {
        s.drop_first()
    } else {
        s
    };
    if body.len() > 0 && all_digits(body) && digits_value(body) <= u32::MAX {
        Some(digits_value(body) as int)
    } else {
        None
    }
}

/// The number that `t` writes, as `str::parse::<u32>` reads it.
pub fn parse_unsigned(t: &str) -> (r: Option<u32>)
    ensures
        match r {
            Some(v) => unsigned_value(bytes(t@)) == Some(v as int),
            None => unsigned_value(bytes(t@)).is_none(),
        },
{
    let n = length(t);
    if n == 0 {
        return None;
    }
    let from: usize = if byte_at(t, 0) == 43 {
        1
    } else {
        0
    };
    proof {
        assert(bytes(t@).skip(1) =~= bytes(t@).drop_first());
        assert(bytes(t@).skip(0) =~= bytes(t@));
    }
    match digits_from(t, from, 0xffff_ffff) {
        None => None,
        Some(v) => Some(v as u32),
    }
}

/// How many of the bytes of `s` from `from` on are digits, in one run.
pub open spec fn digit_run(s: Seq<u8>, from: int) -> int
    decreases s.len() - from,
{
    if 0 <= from < s.len() && digit(s[from]) {
        1 + digit_run(s, from + 1)
    } else {
        0
    }
}

/// The end of the run of digits that begins at `from`.
pub fn skip_digits(t: &str, from: usize) -> (r: usize)
    requires
        from <= bytes(t@).len(),
    ensures
        r == from + digit_run(bytes(t@), from as int),
        from <= r <= bytes(t@).len(),
        all_digits(bytes(t@).subrange(from as int, r as int)),
{
    let n = length(t);
    let mut i: usize = from;
    while i < n && is_digit(byte_at(t, i))
        invariant
            n == bytes(t@).len(),
            from <= i <= n,
            from + digit_run(bytes(t@), from as int) == i + digit_run(bytes(t@), i as int),
            all_digits(bytes(t@).subrange(from as int, i as int)),
        decreases n - i,
    {
        i += 1;
        proof {
            assert forall|k: int| 0 <= k < i - from implies digit(
                #[trigger] bytes(t@).subrange(from as int, i as int)[k],
            ) by {
                if k < i - 1 - from {
                    assert(bytes(t@).subrange(from as int, i - 1)[k] == bytes(t@)[from + k]);
                }
            }
        }
    }
    i
}

// ─── The order of names ──────────────────────────────────────────────────────

/// Byte-wise lexicographic order, the order of `str`.
pub open spec fn bytes_lt(a: Seq<u8>, b: Seq<u8>) -> bool
    decreases a.len(),
{
    if b.len() == 0 {
        false
    } else if a.len() == 0 {
        true
    } else if a[0] != b[0] {
        a[0] < b[0]
    } else {
        bytes_lt(a.drop_first(), b.drop_first())
    }
}

/// One name comes before another.
pub open spec fn name_lt(a: Seq<char>, b: Seq<char>) -> bool {
    bytes_lt(bytes(a), bytes(b))
}

/// The order is total: of two different names one comes first.
pub proof fn lemma_bytes_lt_total(a: Seq<u8>, b: Seq<u8>)
    ensures
        bytes_lt(a, b) || bytes_lt(b, a) || a == b,
        !(bytes_lt(a, b) && bytes_lt(b, a)),
        a == b ==> !bytes_lt(a, b),
    decreases a.len(),
{
    if a.len() > 0 && b.len() > 0 && a[0] == b[0] {
        lemma_bytes_lt_total(a.drop_first(), b.drop_first());
        if a.drop_first() == b.drop_first() {
            assert(a =~= seq![a[0]] + a.drop_first());
            assert(b =~= seq![b[0]] + b.drop_first());
        }
    } else if a.len() == 0 && b.len() == 0 {
        assert(a =~= b);
    }
}

/// The order is transitive.
pub proof fn lemma_bytes_lt_trans(a: Seq<u8>, b: Seq<u8>, c: Seq<u8>)
    requires
        bytes_lt(a, b),
        bytes_lt(b, c),
    ensures
        bytes_lt(a, c),
    decreases a.len(),
{
    if a.len() > 0 && b.len() > 0 && c.len() > 0 && a[0] == b[0] && b[0] == c[0] {
        lemma_bytes_lt_trans(a.drop_first(), b.drop_first(), c.drop_first());
    }
}

/// Whether `a` comes before `b`.
pub fn before(a: &str, b: &str) -> (r: bool)
    ensures
        r == name_lt(a@, b@),
{
    let n = length(a);
    let m = length(b);
    let mut i: usize = 0;
    assert(bytes(a@).skip(0) =~= bytes(a@));
    assert(bytes(b@).skip(0) =~= bytes(b@));
    while i < n && i < m
        invariant
            n == bytes(a@).len(),
            m == bytes(b@).len(),
            i <= n,
            i <= m,
            name_lt(a@, b@) == bytes_lt(bytes(a@).skip(i as int), bytes(b@).skip(i as int)),
        decreases n - i,
    {
        let x = byte_at(a, i);
        let y = byte_at(b, i);
        assert(bytes(a@).skip(i as int)[0] == x);
        assert(bytes(b@).skip(i as int)[0] == y);
        if x != y {
            return x < y;
        }
        assert(bytes(a@).skip(i as int).drop_first() =~= bytes(a@).skip(i + 1));
        assert(bytes(b@).skip(i as int).drop_first() =~= bytes(b@).skip(i + 1));
        i += 1;
    }
    i < m
}

/// The texts of a list of strings.
pub open spec fn texts(v: Seq<String>) -> Seq<Seq<char>> {
    Seq::new(v.len(), |i: int| v[i]@)
}

/// How many names at the front of `sorted` come before `x`.
pub open spec fn place_of(sorted: Seq<Seq<char>>, x: Seq<char>) -> int
    decreases sorted.len(),
{
    if sorted.len() > 0 && name_lt(sorted[0], x) {
        1 + place_of(sorted.drop_first(), x)
    } else {
        0
    }
}

/// `sorted` with `x` put at its place.
pub open spec fn insert_name(sorted: Seq<Seq<char>>, x: Seq<char>) -> Seq<Seq<char>> {
    sorted.insert(place_of(sorted, x), x)
}

/// The names in order, each as often as it is given.
pub open spec fn sort_names(names: Seq<Seq<char>>) -> Seq<Seq<char>>
    decreases names.len(),
{
    if names.len() == 0 {
        names
    } else {
        insert_name(sort_names(names.drop_last()), names.last())
    }
}

/// The names in order, each once.
pub open spec fn sort_unique(names: Seq<Seq<char>>) -> Seq<Seq<char>>
    decreases names.len(),
{
    if names.len() == 0 {
        names
    } else {
        let sorted = sort_unique(names.drop_last());
        let x = names.last();
        let p = place_of(sorted, x);
        if p < sorted.len() && sorted[p] == x {
            sorted
        } else {
            insert_name(sorted, x)
        }
    }
}

/// No name comes before one that stands ahead of it.
pub open spec fn in_order(names: Seq<Seq<char>>) -> bool {
    forall|i: int, j: int| 0 <= i < j < names.len() ==> !name_lt(#[trigger] names[j], #[trigger] names[i])
}

/// Each name comes before all that follow it.
pub open spec fn strictly_in_order(names: Seq<Seq<char>>) -> bool {
    forall|i: int, j: int| 0 <= i < j < names.len() ==> name_lt(#[trigger] names[i], #[trigger] names[j])
}

proof fn lemma_place(sorted: Seq<Seq<char>>, x: Seq<char>)
    ensures
        0 <= place_of(sorted, x) <= sorted.len(),
        forall|i: int| 0 <= i < place_of(sorted, x) ==> name_lt(#[trigger] sorted[i], x),
        place_of(sorted, x) < sorted.len() ==> !name_lt(sorted[place_of(sorted, x)], x),
    decreases sorted.len(),
{
    if sorted.len() > 0 && name_lt(sorted[0], x) {
        let rest = sorted.drop_first();
        lemma_place(rest, x);
        assert forall|i: int| 0 <= i < place_of(sorted, x) implies name_lt(#[trigger] sorted[i], x) by {
            if i > 0 {
                assert(rest[i - 1] == sorted[i]);
            }
        }
    }
}

/// Sorting gives the same names in order.
pub proof fn law_sort_names(names: Seq<Seq<char>>)
    ensures
        sort_names(names).len() == names.len(),
        in_order(sort_names(names)),
        sort_names(names).to_multiset() == names.to_multiset(),
    decreases names.len(),
{
    if names.len() > 0 {
        let front = names.drop_last();
        let x = names.last();
        law_sort_names(front);
        let s = sort_names(front);
        lemma_place(s, x);
        let p = place_of(s, x);
        let r = s.insert(p, x);
        assert forall|i: int, j: int| 0 <= i < j < r.len() implies !name_lt(
            #[trigger] r[j],
            #[trigger] r[i],
        ) by {
            lemma_bytes_lt_total(bytes(r[i]), bytes(r[j]));
            if j == p {
                assert(r[i] == s[i]);
                lemma_bytes_lt_total(bytes(s[i]), bytes(x));
            } else if i == p {
                assert(r[j] == s[j - 1]);
                if name_lt(s[j - 1], x) {
                    if j - 1 > p {
                        assert(!name_lt(s[j - 1], s[p]));
                        lemma_bytes_lt_total(bytes(s[p]), bytes(s[j - 1]));
                        if s[p] != s[j - 1] {
                            if bytes(s[p]) == bytes(s[j - 1]) {
                                lemma_bytes_injective(s[p], s[j - 1]);
                            }
                            lemma_bytes_lt_trans(bytes(s[p]), bytes(s[j - 1]), bytes(x));
                        }
                    }
                }
            } else {
                let a = if i < p {
                    i
                } else {
                    i - 1
                };
                let b = if j < p {
                    j
                } else {
                    j - 1
                };
                assert(r[i] == s[a] && r[j] == s[b]);
            }
        }
        vstd::seq_lib::to_multiset_insert(s, p, x);
        assert(names =~= front.push(x));
        vstd::seq_lib::to_multiset_build(front, x);
    } else {
        assert(sort_names(names) =~= names);
    }
}

/// Sorting without repetition gives exactly the names that occur, each once.
pub proof fn law_sort_unique(names: Seq<Seq<char>>)
    ensures
        strictly_in_order(sort_unique(names)),
        forall|x: Seq<char>| #[trigger] sort_unique(names).contains(x) <==> names.contains(x),
    decreases names.len(),
{
    if names.len() > 0 {
        let front = names.drop_last();
        let x = names.last();
        law_sort_unique(front);
        let s = sort_unique(front);
        lemma_place(s, x);
        let p = place_of(s, x);
        let r = sort_unique(names);
        if p < s.len() && s[p] == x {
            assert(r == s);
        } else {
            assert(r == s.insert(p, x));
            assert forall|i: int, j: int| 0 <= i < j < r.len() implies name_lt(
                #[trigger] r[i],
                #[trigger] r[j],
            ) by {
                if j == p {
                    assert(r[i] == s[i]);
                } else if i == p {
                    assert(r[j] == s[j - 1]);
                    lemma_bytes_lt_total(bytes(s[p]), bytes(x));
                    if bytes(s[p]) == bytes(x) {
                        lemma_bytes_injective(s[p], x);
                    }
                    if j - 1 > p {
                        assert(name_lt(s[p], s[j - 1]));
                        lemma_bytes_lt_trans(bytes(x), bytes(s[p]), bytes(s[j - 1]));
                    }
                } else {
                    let a = if i < p {
                        i
                    } else {
                        i - 1
                    };
                    let b = if j < p {
                        j
                    } else {
                        j - 1
                    };
                    assert(r[i] == s[a] && r[j] == s[b]);
                }
            }
        }
        assert forall|y: Seq<char>| #[trigger] r.contains(y) <==> names.contains(y) by {
            if r.contains(y) {
                let i = choose|i: int| 0 <= i < r.len() && r[i] == y;
                if y != x {
                    if r == s {
                        assert(s.contains(y));
                    } else {
                        let a = if i < p {
                            i
                        } else {
                            i - 1
                        };
                        assert(s[a] == y);
                        assert(s.contains(y));
                    }
                    assert(front.contains(y));
                    let k = choose|k: int| 0 <= k < front.len() && front[k] == y;
                    assert(names[k] == y);
                } else {
                    assert(names[names.len() - 1] == y);
                }
            }
            if names.contains(y) {
                if y == x {
                    assert(r[p] == x);
                } else {
                    let k = choose|k: int| 0 <= k < names.len() && names[k] == y;
                    assert(front[k] == y);
                    assert(s.contains(y));
                    let i = choose|i: int| 0 <= i < s.len() && s[i] == y;
                    if r == s {
                    } else if i < p {
                        assert(r[i] == y);
                    } else {
                        assert(r[i + 1] == y);
                    }
                }
            }
        }
    }
}

/// The place of `x` in a sorted list.
fn find_place(sorted: &Vec<String>, x: &str) -> (p: usize)
    ensures
        p == place_of(texts(sorted@), x@),
        p <= sorted.len(),
{
    let ghost all = texts(sorted@);
    let mut p: usize = 0;
    assert(all.skip(0) =~= all);
    while p < sorted.len() && before(sorted[p].as_str(), x)
        invariant
            all == texts(sorted@),
            p <= sorted.len(),
            place_of(all, x@) == p + place_of(all.skip(p as int), x@),
        decreases sorted.len() - p,
    {
        assert(all.skip(p as int)[0] == sorted@[p as int]@);
        assert(all.skip(p as int).drop_first() =~= all.skip(p + 1));
        p += 1;
    }
    assert(p < sorted.len() ==> all.skip(p as int)[0] == sorted@[p as int]@);
    p
}

/// The given names in order.
pub fn sorted_names(names: &Vec<String>) -> (r: Vec<String>)
    ensures
        texts(r@) == sort_names(texts(names@)),
{
    let mut out: Vec<String> = Vec::new();
    let ghost all = texts(names@);
    let mut i: usize = 0;
    assert(texts(out@) =~= sort_names(all.take(0)));
    while i < names.len()
        invariant
            all == texts(names@),
            i <= names.len(),
            texts(out@) == sort_names(all.take(i as int)),
        decreases names.len() - i,
    {
        let p = find_place(&out, names[i].as_str());
        let ghost before_insert = out@;
        out.insert(p, names[i].clone());
        proof {
            assert(texts(out@) =~= texts(before_insert).insert(p as int, names@[i as int]@));
            assert(all.take(i + 1).drop_last() =~= all.take(i as int));
            assert(all.take(i + 1).last() == names@[i as int]@);
        }
        i += 1;
    }
    assert(all.take(i as int) =~= all);
    out
}

/// The given names in order, each once.
pub fn sorted_unique(names: &Vec<String>) -> (r: Vec<String>)
    ensures
        texts(r@) == sort_unique(texts(names@)),
{
    let mut out: Vec<String> = Vec::new();
    let ghost all = texts(names@);
    let mut i: usize = 0;
    assert(texts(out@) =~= sort_unique(all.take(0)));
    while i < names.len()
        invariant
            all == texts(names@),
            i <= names.len(),
            texts(out@) == sort_unique(all.take(i as int)),
        decreases names.len() - i,
    {
        let p = find_place(&out, names[i].as_str());
        let ghost before_insert = out@;
        proof {
            assert(all.take(i + 1).drop_last() =~= all.take(i as int));
            assert(all.take(i + 1).last() == names@[i as int]@);
        }
        let there = p < out.len() && crate::text::same(out[p].as_str(), names[i].as_str());
        if !there {
            out.insert(p, names[i].clone());
            proof {
                assert(texts(out@) =~= texts(before_insert).insert(p as int, names@[i as int]@));
            }
        }
        i += 1;
    }
    assert(all.take(i as int) =~= all);
    out
}

/// The names joined with `sep` between them.
pub open spec fn joined(names: Seq<Seq<char>>, sep: Seq<char>) -> Seq<char>
    decreases names.len(),
{
    if names.len() == 0 {
        Seq::empty()
    } else if names.len() == 1 {
        names[0]
    } else {
        joined(names.drop_last(), sep) + sep + names.last()
    }
}

/// The first `count` names, joined with `sep` between them.
pub fn join_first(names: &Vec<String>, count: usize, sep: &str) -> (r: String)
    requires
        count <= names.len(),
    ensures
        r@ == joined(texts(names@).take(count as int), sep@),
{
    let ghost all = texts(names@);
    let mut out = String::new();
    let mut i: usize = 0;
    assert(out@ =~= joined(all.take(0), sep@));
    while i < count
        invariant
            all == texts(names@),
            i <= count <= names.len(),
            out@ == joined(all.take(i as int), sep@),
        decreases count - i,
    {
        let ghost was = out@;
        if i > 0 {
            put(&mut out, sep);
        }
        put(&mut out, names[i].as_str());
        proof {
            let t = all.take(i + 1);
            assert(t.drop_last() =~= all.take(i as int));
            assert(t.last() == names@[i as int]@);
            if i == 0 {
                assert(was =~= Seq::<char>::empty());
                assert(out@ =~= t[0]);
            }
        }
        i += 1;
    }
    out
}

/// All the names, joined with `sep` between them.
pub fn join_all(names: &Vec<String>, sep: &str) -> (r: String)
    ensures
        r@ == joined(texts(names@), sep@),
{
    assert(texts(names@).take(names.len() as int) =~= texts(names@));
    join_first(names, names.len(), sep)
}

// ─── Numbers there and back ──────────────────────────────────────────────────

/// A number written in decimal is a run of digits that reads as the number.
pub proof fn law_decimal_reads_back(n: nat)
    ensures
        bytes(decimal(n)).len() > 0,
        all_digits(bytes(decimal(n))),
        digits_value(bytes(decimal(n))) == n,
    decreases n,
{
    let d = (n % 10) as nat;
    let c = digit_char(d);
    assert('0' <= c <= '9');
    crate::grammar::lemma_char_bytes(c);
    assert(c as u8 == 48 + d);
    let last = bytes(seq![c]);
    assert(last == seq![c as u8]);
    if n < 10 {
        assert(decimal(n) =~= seq![c]);
        assert(last.drop_last() =~= Seq::<u8>::empty());
        assert(digits_value(last.drop_last()) == 0);
        assert(last.last() == c as u8);
        assert(digits_value(last) == d);
    } else {
        let front = decimal(n / 10);
        law_decimal_reads_back(n / 10);
        lemma_bytes_concat(front, seq![c]);
        assert(decimal(n) =~= front + seq![c]);
        let s = bytes(decimal(n));
        assert(s == bytes(front) + last);
        assert(s.drop_last() =~= bytes(front));
        assert(s.last() == c as u8);
        assert(digits_value(s) == 10 * (n / 10) + d);
        assert forall|i: int| 0 <= i < s.len() implies digit(#[trigger] s[i]) by {
            if i < bytes(front).len() {
                assert(digit(bytes(front)[i]));
            }
        }
    }
}

/// An integer of the range of `i32` is read back as it was written.
pub proof fn law_integer_reads_back(n: int)
    requires
        i32::MIN <= n <= i32::MAX,
    ensures
        int_value(bytes(signed_decimal(n))) == Some(n),
{
    let s = bytes(signed_decimal(n));
    if n < 0 {
        let front = decimal((-n) as nat);
        law_decimal_reads_back((-n) as nat);
        lemma_bytes_concat(seq!['-'], front);
        crate::grammar::lemma_char_bytes('-');
        assert(s == seq![45u8] + bytes(front));
        assert(s.drop_first() =~= bytes(front));
    } else {
        law_decimal_reads_back(n as nat);
        assert(digit(s[0]));
    }
}

/// A number of the range of `u32` is read back as it was written.
pub proof fn law_unsigned_reads_back(n: nat)
    requires
        n <= u32::MAX,
    ensures
        unsigned_value(bytes(decimal(n))) == Some(n as int),
{
    law_decimal_reads_back(n);
    assert(digit(bytes(decimal(n))[0]));
}

} // verus!
