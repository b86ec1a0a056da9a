//! Text as bytes: slicing, searching and joining UTF-8 strings.
//!
//! Every offset in this library counts bytes of the UTF-8 encoding, so the
//! models below speak of `bytes(text)` where a position matters and of the
//! characters themselves where only the wording does.

use vstd::prelude::*;
use vstd::string::*;
use vstd::utf8::*;

verus! {

/// The UTF-8 bytes of a piece of text.
pub open spec fn bytes(text: Seq<char>) -> Seq<u8> {
    encode_utf8(text)
}

/// The text whose UTF-8 encoding is `encoded`.
pub open spec fn text_of(encoded: Seq<u8>) -> Seq<char> {
    decode_utf8(encoded)
}

/// A position at which UTF-8 text may be cut.
pub open spec fn boundary(encoded: Seq<u8>, at: int) -> bool {
    is_char_boundary(encoded, at)
}

// ─── Facts about the encoding ────────────────────────────────────────────────

/// The bytes of two joined texts are the joined bytes.
pub proof fn lemma_bytes_concat(a: Seq<char>, b: Seq<char>)
    ensures
        bytes(a + b) == bytes(a) + bytes(b),
    decreases a.len(),
{
    if a.len() == 0 {
        assert(a + b =~= b);
        assert(bytes(a) =~= Seq::<u8>::empty());
    } else {
        let rest = a.drop_first();
        lemma_bytes_concat(rest, b);
        assert((a + b).drop_first() =~= rest + b);
        assert((a + b)[0] == a[0]);
        assert(bytes(a + b) =~= bytes(a) + bytes(b));
    }
}

/// Two texts with the same bytes are the same text.
pub proof fn lemma_bytes_injective(a: Seq<char>, b: Seq<char>)
    requires
        bytes(a) == bytes(b),
    ensures
        a == b,
{
    encode_utf8_decode_utf8(a);
    encode_utf8_decode_utf8(b);
}

/// Decoding gives back what was encoded, and the encoding is always valid.
pub proof fn lemma_bytes_valid(t: Seq<char>)
    ensures
        valid_utf8(bytes(t)),
        text_of(bytes(t)) == t,
{
    encode_utf8_valid_utf8(t);
    encode_utf8_decode_utf8(t);
}

/// The bytes of a text of ASCII characters are those characters, one each.
pub proof fn lemma_bytes_ascii(t: Seq<char>)
    requires
        is_ascii_chars(t),
    ensures
        bytes(t).len() == t.len(),
        forall|i: int| 0 <= i < t.len() ==> #[trigger] bytes(t)[i] == t[i] as u8 && bytes(t)[i] < 128,
{
    is_ascii_chars_encode_utf8(t);
    assert forall|i: int| 0 <= i < t.len() implies #[trigger] bytes(t)[i] == t[i] as u8 && bytes(t)[i]
        < 128 by {
        assert(t[i] as u8 == encode_utf8(t)[i]);
        assert('\0' <= t[i] <= '\u{7f}');
    }
}

/// Both ends of a text may be cut.
pub proof fn lemma_ends(t: Seq<char>)
    ensures
        boundary(bytes(t), 0),
        boundary(bytes(t), bytes(t).len() as int),
{
    encode_utf8_valid_utf8(t);
    is_char_boundary_start_end_of_seq(bytes(t));
}

/// Text may be cut on either side of an ASCII byte.
pub proof fn lemma_ascii_boundary(t: Seq<char>, i: int)
    requires
        0 <= i < bytes(t).len(),
        bytes(t)[i] < 128,
    ensures
        boundary(bytes(t), i),
        boundary(bytes(t), i + 1),
{
    let s = bytes(t);
    encode_utf8_valid_utf8(t);
    is_char_boundary_iff_not_is_continuation_byte(s, i);
    assert(boundary(s, i));
    valid_utf8_split(s, i);
    let tail = s.subrange(i, s.len() as int);
    assert(tail[0] == s[i]);
    if i + 1 == s.len() {
        is_char_boundary_start_end_of_seq(s);
    } else {
        let rest = pop_first_scalar(tail);
        assert(rest =~= s.subrange(i + 1, s.len() as int));
        assert(valid_utf8(rest));
        assert(rest[0] == s[i + 1]);
        assert(valid_first_scalar(rest));
        is_char_boundary_iff_not_is_continuation_byte(s, i + 1);
    }
}

/// What follows a valid beginning of valid text is valid, and may be cut off.
pub proof fn lemma_suffix_valid(p: Seq<u8>, q: Seq<u8>)
    requires
        valid_utf8(p),
        valid_utf8(p + q),
    ensures
        valid_utf8(q),
        boundary(p + q, p.len() as int),
    decreases p.len(),
{
    if p.len() == 0 {
        assert(p + q =~= q);
    } else {
        let n = length_of_first_scalar(p);
        assert(length_of_first_scalar(p + q) == n);
        let rest = pop_first_scalar(p);
        assert(pop_first_scalar(p + q) =~= rest + q);
        lemma_suffix_valid(rest, q);
        reveal_with_fuel(is_char_boundary, 2);
    }
}

/// A cut of a text is a cut of each beginning of it that reaches that far.
proof fn lemma_boundary_in_prefix(t: Seq<char>, a: int, b: int)
    requires
        0 <= a <= b <= bytes(t).len(),
        boundary(bytes(t), a),
        boundary(bytes(t), b),
    ensures
        boundary(bytes(t).subrange(0, b), a),
        valid_utf8(bytes(t).subrange(0, b)),
        valid_utf8(bytes(t).subrange(a, b)),
{
    let s = bytes(t);
    encode_utf8_valid_utf8(t);
    valid_utf8_split(s, b);
    let p = s.subrange(0, b);
    if a < b {
        is_char_boundary_iff_not_is_continuation_byte(s, a);
        is_char_boundary_iff_not_is_continuation_byte(p, a);
        assert(p[a] == s[a]);
    } else {
        is_char_boundary_start_end_of_seq(p);
    }
    valid_utf8_split(p, a);
    assert(p.subrange(a, b) =~= s.subrange(a, b));
}

/// A stretch of text between two cuts is the text of its bytes.
pub proof fn lemma_between_cuts(t: Seq<char>, a: int, b: int)
    requires
        0 <= a <= b <= bytes(t).len(),
        boundary(bytes(t), a),
        boundary(bytes(t), b),
    ensures
        valid_utf8(bytes(t).subrange(a, b)),
        bytes(text_of(bytes(t).subrange(a, b))) == bytes(t).subrange(a, b),
{
    lemma_boundary_in_prefix(t, a, b);
    decode_utf8_encode_utf8(bytes(t).subrange(a, b));
}

// ─── Slicing and joining ─────────────────────────────────────────────────────

/// The bytes `from..to` of `text`.
pub fn slice(text: &str, from: usize, to: usize) -> (r: &str)
    requires
        from <= to <= bytes(text@).len(),
        boundary(bytes(text@), from as int),
        boundary(bytes(text@), to as int),
    ensures
        bytes(r@) == bytes(text@).subrange(from as int, to as int),
        r@ == text_of(bytes(text@).subrange(from as int, to as int)),
{
    proof {
        lemma_boundary_in_prefix(text@, from as int, to as int);
    }
    let head = text.split_at(to).0;
    let out = head.split_at(from).1;
    proof {
        assert(head.spec_bytes() == bytes(text@).subrange(0, to as int));
        assert(bytes(out@) =~= bytes(text@).subrange(from as int, to as int));
        lemma_bytes_valid(out@);
    }
    out
}

/// The bytes of `text` from `from` on.
pub fn slice_from(text: &str, from: usize) -> (r: &str)
    requires
        from <= bytes(text@).len(),
        boundary(bytes(text@), from as int),
    ensures
        bytes(r@) == bytes(text@).subrange(from as int, bytes(text@).len() as int),
        r@ == text_of(bytes(text@).subrange(from as int, bytes(text@).len() as int)),
{
    let r = text.split_at(from).1;
    proof {
        lemma_bytes_valid(r@);
    }
    r
}

/// The number of bytes in `text`.
pub fn length(text: &str) -> (n: usize)
    ensures
        n == bytes(text@).len(),
{
    text.as_bytes().len()
}

/// The byte at `i`.
pub fn byte_at(text: &str, i: usize) -> (b: u8)
    requires
        i < bytes(text@).len(),
    ensures
        b == bytes(text@)[i as int],
{
    text.as_bytes()[i]
}

/// Append `more` to `out`.
pub fn put(out: &mut String, more: &str)
    ensures
        final(out)@ == old(out)@ + more@,
        bytes(final(out)@) == bytes(old(out)@) + bytes(more@),
{
    proof {
        lemma_bytes_concat(old(out)@, more@);
    }
    out.append(more);
}

/// An owned copy of `text`.
pub fn copy(text: &str) -> (r: String)
    ensures
        r@ == text@,
{
    text.to_owned()
}

/// Whether two texts are equal.
pub fn same(a: &str, b: &str) -> (r: bool)
    ensures
        r == (a@ == b@),
{
    let x = a.as_bytes();
    let y = b.as_bytes();
    if x.len() != y.len() {
        return false;
    }
    let mut i: usize = 0;
    while i < x.len()
        invariant
            i <= x.len(),
            x@.len() == y@.len(),
            x@ == bytes(a@),
            y@ == bytes(b@),
            forall|j: int| 0 <= j < i ==> x@[j] == y@[j],
        decreases x.len() - i,
    {
        if x[i] != y[i] {
            return false;
        }
        i += 1;
    }
    proof {
        assert(x@ =~= y@);
        lemma_bytes_injective(a@, b@);
    }
    true
}

/// Whether the text, if there is one, equals `b`.
pub fn same_opt(a: &Option<String>, b: &str) -> (r: bool)
    ensures
        r == (a.is_some() && a.unwrap()@ == b@),
{
    match a {
        Some(t) => same(t.as_str(), b),
        None => false,
    }
}

// ─── Searching ───────────────────────────────────────────────────────────────

/// `pat` stands at position `i` of `hay`.
pub open spec fn matches_at(hay: Seq<u8>, i: int, pat: Seq<u8>) -> bool {
    0 <= i && i + pat.len() <= hay.len() && hay.subrange(i, i + pat.len()) == pat
}

/// The first position at or after `from` where `pat` stands in `hay`.
pub open spec fn first_match(hay: Seq<u8>, pat: Seq<u8>, from: int) -> Option<int>
    decreases hay.len() - from + 1,
{
    if from < 0 || from + pat.len() > hay.len() {
        None
    } else if matches_at(hay, from, pat) {
        Some(from)
    } else {
        first_match(hay, pat, from + 1)
    }
}

/// What `first_match` finds is a match, and nothing before it is.
pub proof fn lemma_first_match(hay: Seq<u8>, pat: Seq<u8>, from: int)
    requires
        0 <= from,
    ensures
        match first_match(hay, pat, from) {
            Some(i) => {
                &&& from <= i
                &&& matches_at(hay, i, pat)
                &&& forall|j: int| from <= j < i ==> !#[trigger] matches_at(hay, j, pat)
            },
            None => forall|j: int| from <= j ==> !#[trigger] matches_at(hay, j, pat),
        },
    decreases hay.len() - from + 1,
{
    if from + pat.len() > hay.len() {
    } else if matches_at(hay, from, pat) {
    } else {
        lemma_first_match(hay, pat, from + 1);
    }
}

/// A match at or after `from` with none in between is the first one.
pub proof fn lemma_first_match_is(hay: Seq<u8>, pat: Seq<u8>, from: int, i: int)
    requires
        0 <= from <= i,
        matches_at(hay, i, pat),
        forall|j: int| from <= j < i ==> !#[trigger] matches_at(hay, j, pat),
    ensures
        first_match(hay, pat, from) == Some(i),
    decreases i - from,
{
    if from < i {
        assert(!matches_at(hay, from, pat));
        lemma_first_match_is(hay, pat, from + 1, i);
    }
}

/// Whether `pat` stands at byte `i` of `hay`.
pub fn match_at(hay: &str, i: usize, pat: &str) -> (r: bool)
    ensures
        r == matches_at(bytes(hay@), i as int, bytes(pat@)),
{
    let h = hay.as_bytes();
    let p = pat.as_bytes();
    if i > h.len() || p.len() > h.len() - i {
        return false;
    }
    let mut k: usize = 0;
    while k < p.len()
        invariant
            k <= p.len(),
            i + p.len() <= h.len(),
            h@ == bytes(hay@),
            p@ == bytes(pat@),
            forall|j: int| 0 <= j < k ==> h@[i + j] == p@[j],
        decreases p.len() - k,
    {
        if h[i + k] != p[k] {
            proof {
                assert(h@.subrange(i as int, i + p@.len())[k as int] != p@[k as int]);
            }
            return false;
        }
        k += 1;
    }
    proof {
        assert(h@.subrange(i as int, i + p@.len()) =~= p@);
    }
    true
}

/// The byte offset of the first `pat` in `hay` at or after `from`.
pub fn find_from(hay: &str, pat: &str, from: usize) -> (r: Option<usize>)
    ensures
        match r {
            Some(i) => first_match(bytes(hay@), bytes(pat@), from as int) == Some(i as int)
                && matches_at(bytes(hay@), i as int, bytes(pat@)) && from <= i,
            None => first_match(bytes(hay@), bytes(pat@), from as int).is_none(),
        },
{
    let n = length(hay);
    let m = length(pat);
    if m > n {
        return None;
    }
    let mut i: usize = from;
    while i <= n - m
        invariant
            n == bytes(hay@).len(),
            m == bytes(pat@).len(),
            m <= n,
            from <= i,
            i <= n - m + 1 || i == from,
            first_match(bytes(hay@), bytes(pat@), from as int) == first_match(
                bytes(hay@),
                bytes(pat@),
                i as int,
            ),
        decreases n - i,
    {
        if match_at(hay, i, pat) {
            return Some(i);
        }
        if i == n - m {
            assert(first_match(bytes(hay@), bytes(pat@), i + 1).is_none());
            return None;
        }
        i += 1;
    }
    None
}

/// Whether `pat` stands anywhere in `hay`.
pub open spec fn has(hay: Seq<u8>, pat: Seq<u8>) -> bool {
    exists|i: int| matches_at(hay, i, pat)
}

/// Whether `pat` stands anywhere in `hay`.
pub fn contains(hay: &str, pat: &str) -> (r: bool)
    ensures
        r == has(bytes(hay@), bytes(pat@)),
{
    proof {
        lemma_first_match(bytes(hay@), bytes(pat@), 0);
    }
    match find_from(hay, pat, 0) {
        Some(i) => {
            assert(matches_at(bytes(hay@), i as int, bytes(pat@)));
            true
        },
        None => {
            assert forall|i: int| !matches_at(bytes(hay@), i, bytes(pat@)) by {
                if i >= 0 {
                }
            }
            false
        },
    }
}

/// The first position at or after `from` that holds the byte `b`.
pub open spec fn first_byte(s: Seq<u8>, b: u8, from: int) -> Option<int>
    decreases s.len() - from,
{
    if from < 0 || from >= s.len() {
        None
    } else if s[from] == b {
        Some(from)
    } else {
        first_byte(s, b, from + 1)
    }
}

/// What `first_byte` finds is the byte, and nothing before it is.
pub proof fn lemma_first_byte(s: Seq<u8>, b: u8, from: int)
    requires
        0 <= from,
    ensures
        match first_byte(s, b, from) {
            Some(i) => from <= i < s.len() && s[i] == b && forall|j: int|
                from <= j < i ==> #[trigger] s[j] != b,
            None => forall|j: int| from <= j < s.len() ==> #[trigger] s[j] != b,
        },
    decreases s.len() - from,
{
    if from < s.len() && s[from] != b {
        lemma_first_byte(s, b, from + 1);
    }
}

/// The offset of the first byte `b` at or after `from`.
pub fn find_byte(s: &str, b: u8, from: usize) -> (r: Option<usize>)
    ensures
        match r {
            Some(i) => first_byte(bytes(s@), b, from as int) == Some(i as int) && i < bytes(s@).len()
                && from <= i && bytes(s@)[i as int] == b,
            None => first_byte(bytes(s@), b, from as int).is_none(),
        },
{
    let t = s.as_bytes();
    let mut i: usize = from;
    while i < t.len()
        invariant
            t@ == bytes(s@),
            from <= i,
            first_byte(bytes(s@), b, from as int) == first_byte(bytes(s@), b, i as int),
        decreases t.len() - i,
    {
        if t[i] == b {
            return Some(i);
        }
        i += 1;
    }
    None
}

/// The last position that holds the byte `b`.
pub open spec fn last_byte(s: Seq<u8>, b: u8) -> Option<int>
    decreases s.len(),
{
    if s.len() == 0 {
        None
    } else if s.last() == b {
        Some(s.len() - 1)
    } else {
        last_byte(s.drop_last(), b)
    }
}

/// The last byte `b` stands where it is said to.
pub proof fn lemma_last_byte(s: Seq<u8>, b: u8)
    ensures
        match last_byte(s, b) {
            Some(i) => 0 <= i < s.len() && s[i] == b && forall|k: int| i < k < s.len() ==> s[k] != b,
            None => forall|k: int| 0 <= k < s.len() ==> s[k] != b,
        },
    decreases s.len(),
{
    if s.len() > 0 && s.last() != b {
        lemma_last_byte(s.drop_last(), b);
        assert forall|k: int| 0 <= k < s.len() - 1 implies s[k] == s.drop_last()[k] by {}
    }
}

/// The offset of the last byte `b`.
pub fn rfind_byte(s: &str, b: u8) -> (r: Option<usize>)
    ensures
        match r {
            Some(i) => last_byte(bytes(s@), b) == Some(i as int) && i < bytes(s@).len()
                && bytes(s@)[i as int] == b,
            None => last_byte(bytes(s@), b).is_none(),
        },
{
    let t = s.as_bytes();
    let mut i: usize = t.len();
    proof {
        assert(t@.take(i as int) =~= t@);
    }
    while i > 0
        invariant
            t@ == bytes(s@),
            i <= t.len(),
            last_byte(bytes(s@), b) == last_byte(t@.take(i as int), b),
        decreases i,
    {
        i -= 1;
        proof {
            assert(t@.take(i + 1).drop_last() =~= t@.take(i as int));
            assert(t@.take(i + 1).last() == t@[i as int]);
        }
        if t[i] == b {
            return Some(i);
        }
    }
    None
}

/// Whether `t` ends with `end`.
pub fn ends_with(t: &str, end: &str) -> (r: bool)
    ensures
        r == matches_at(bytes(t@), bytes(t@).len() - bytes(end@).len(), bytes(end@)),
{
    let n = length(t);
    let m = length(end);
    m <= n && match_at(t, n - m, end)
}

/// The bytes where ASCII text stands may be cut around: at its beginning and at
/// its end.
pub proof fn lemma_match_boundary(t: Seq<char>, i: int, pat: Seq<char>)
    requires
        matches_at(bytes(t), i, bytes(pat)),
        pat.len() > 0,
        is_ascii_chars(pat),
    ensures
        boundary(bytes(t), i),
        boundary(bytes(t), i + pat.len()),
        bytes(pat).len() == pat.len(),
        i + pat.len() <= bytes(t).len(),
{
    lemma_bytes_ascii(pat);
    let s = bytes(t);
    let n = pat.len() as int;
    assert(s.subrange(i, i + n)[0] == s[i]);
    assert(s.subrange(i, i + n)[n - 1] == s[i + n - 1]);
    lemma_ascii_boundary(t, i);
    lemma_ascii_boundary(t, i + n - 1);
}

/// Text may be cut on either side of a piece of text that stands in it.
pub proof fn lemma_match_cuts(t: Seq<char>, i: int, pat: Seq<char>)
    requires
        matches_at(bytes(t), i, bytes(pat)),
        pat.len() > 0,
    ensures
        boundary(bytes(t), i),
        boundary(bytes(t), i + bytes(pat).len()),
        bytes(pat).len() > 0,
{
    let s = bytes(t);
    let p = bytes(pat);
    lemma_bytes_valid(t);
    lemma_bytes_valid(pat);
    lemma_ends(t);
    lemma_ends(pat);
    if p.len() == 0 {
        assert(p =~= bytes(Seq::<char>::empty()));
        lemma_bytes_injective(pat, Seq::empty());
    }
    assert(s.subrange(i, i + p.len())[0] == s[i]);
    is_char_boundary_iff_not_is_continuation_byte(p, 0);
    is_char_boundary_iff_not_is_continuation_byte(s, i);
    let n = s.len() as int;
    if i + p.len() < n {
        valid_utf8_split(s, i);
        let tail = s.subrange(i, n);
        let rest = s.subrange(i + p.len(), n);
        assert(tail =~= p + rest);
        lemma_suffix_valid(p, rest);
        assert(rest[0] == s[i + p.len()]);
        is_char_boundary_start_end_of_seq(rest);
        is_char_boundary_iff_not_is_continuation_byte(rest, 0);
        is_char_boundary_iff_not_is_continuation_byte(s, i + p.len());
    }
}

/// The bytes `from..to` exchanged for others.
pub open spec fn replaced(s: Seq<u8>, from: int, to: int, with: Seq<u8>) -> Seq<u8> {
    s.subrange(0, from) + with + s.subrange(to, s.len() as int)
}

/// `text` with its bytes `from..to` exchanged for `with`.
pub fn replace(text: &str, from: usize, to: usize, with: &str) -> (r: String)
    requires
        from <= to <= bytes(text@).len(),
        boundary(bytes(text@), from as int),
        boundary(bytes(text@), to as int),
    ensures
        bytes(r@) == replaced(bytes(text@), from as int, to as int, bytes(with@)),
{
    proof {
        lemma_ends(text@);
    }
    let mut out = copy(slice(text, 0, from));
    put(&mut out, with);
    put(&mut out, slice_from(text, to));
    out
}

/// The first `pat` exchanged for `with`.
pub open spec fn replaced_first(s: Seq<u8>, pat: Seq<u8>, with: Seq<u8>) -> Seq<u8> {
    match first_match(s, pat, 0) {
        Some(p) => replaced(s, p, p + pat.len(), with),
        None => s,
    }
}

/// `text` with its first `pat` exchanged for `with`.
pub fn replace_first(text: &str, pat: &str, with: &str) -> (r: String)
    requires
        pat@.len() > 0,
    ensures
        bytes(r@) == replaced_first(bytes(text@), bytes(pat@), bytes(with@)),
{
    match find_from(text, pat, 0) {
        Some(p) => {
            proof {
                lemma_match_cuts(text@, p as int, pat@);
            }
            let n = length(text);
            let m = length(pat);
            assert(p + m <= n);
            replace(text, p, p + m, with)
        },
        None => copy(text),
    }
}

/// The bytes from `i` on with every `pat` exchanged for `with`, from the front and
/// without overlap.
pub open spec fn replaced_all(s: Seq<u8>, pat: Seq<u8>, with: Seq<u8>, i: int) -> Seq<u8>
    decreases s.len() - i,
{
    let n = s.len() as int;
    if i < 0 || i > n {
        Seq::empty()
    } else {
        match first_match(s, pat, i) {
            Some(p) => if pat.len() == 0 || p < i || p + pat.len() > n {
                s.subrange(i, n)
            } else {
                s.subrange(i, p) + with + replaced_all(s, pat, with, p + pat.len())
            },
            None => s.subrange(i, n),
        }
    }
}

/// `text` with every `pat` exchanged for `with`.
pub fn replace_all(text: &str, pat: &str, with: &str) -> (r: String)
    requires
        pat@.len() > 0,
    ensures
        bytes(r@) == replaced_all(bytes(text@), bytes(pat@), bytes(with@), 0),
{
    let ghost s = bytes(text@);
    let ghost p8 = bytes(pat@);
    let ghost w8 = bytes(with@);
    let n = length(text);
    let m = length(pat);
    let mut out = String::new();
    let mut i: usize = 0;
    proof {
        lemma_ends(text@);
        if m == 0 {
            assert(p8 =~= bytes(Seq::<char>::empty()));
            lemma_bytes_injective(pat@, Seq::empty());
        }
        assert(out@ =~= Seq::<char>::empty());
        assert(bytes(out@) =~= Seq::<u8>::empty());
        assert(bytes(out@) + replaced_all(s, p8, w8, 0) =~= replaced_all(s, p8, w8, 0));
    }
    loop
        invariant
            s == bytes(text@),
            p8 == bytes(pat@),
            w8 == bytes(with@),
            n == s.len(),
            m == p8.len(),
            m > 0,
            pat@.len() > 0,
            i <= n,
            boundary(s, i as int),
            bytes(out@) + replaced_all(s, p8, w8, i as int) == replaced_all(s, p8, w8, 0),
        decreases n - i,
    {
        match find_from(text, pat, i) {
            None => {
                put(&mut out, slice_from(text, i));
                return out;
            },
            Some(p) => {
                proof {
                    lemma_match_cuts(text@, p as int, pat@);
                }
                let ghost was = bytes(out@);
                put(&mut out, slice(text, i, p));
                put(&mut out, with);
                assert(p + m <= n);
                proof {
                    let rest = replaced_all(s, p8, w8, p + m);
                    assert(was + (s.subrange(i as int, p as int) + w8 + rest) =~= bytes(out@) + rest);
                }
                i = p + m;
            },
        }
    }
}

} // verus!
