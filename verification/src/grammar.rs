//! How written text reads: which texts parse to which expressions, wherever they
//! stand, and that the parser and the block scanner agree.

use crate::chars::blank;
use crate::scan::{
    closes_at, lex, lex_step, outside, Lex, BACKSLASH, CLOSE, OPEN, QUOTE,
};
use crate::sexp::{
    atom_end, ends_atom, escape_text, escaped, parse_items, parse_node, parse_text, quoted_text,
    string_close, unescaped, ParseError, Sexp,
};
use crate::text::{bytes, lemma_bytes_concat, lemma_bytes_valid, matches_at};
use vstd::prelude::*;
use vstd::utf8::*;

verus! {

// ─── Bytes of a character ────────────────────────────────────────────────────

/// An ASCII character is one byte; every byte of another is past ASCII.
pub proof fn lemma_char_bytes(c: char)
    ensures
        c <= '\u{7f}' ==> bytes(seq![c]) == seq![c as u8] && c as u8 == c as int,
        c > '\u{7f}' ==> forall|i: int|
            0 <= i < bytes(seq![c]).len() ==> #[trigger] bytes(seq![c])[i] >= 128,
        bytes(seq![c]).len() > 0,
{
    let t = seq![c];
    let u = c as u32;
    char_u32_cast(c, u);
    assert(t.drop_first() =~= Seq::<char>::empty());
    assert(bytes(Seq::<char>::empty()) =~= Seq::<u8>::empty());
    assert(bytes(t) =~= encode_scalar(u));
    if u <= 0x7f {
        assert(u & 0x7f == u) by (bit_vector)
            requires
                u <= 0x7f,
        ;
        assert(u as u8 == u) by (bit_vector)
            requires
                u <= 0x7f,
        ;
        assert(bytes(t) =~= seq![c as u8]);
    } else {
        let a = ((u >> 6) & 0x1F) as u8;
        let b = ((u >> 12) & 0x0F) as u8;
        let d = ((u >> 18) & 0x7) as u8;
        let e = (u & 0x3F) as u8;
        let f = ((u >> 6) & 0x3F) as u8;
        let g = ((u >> 12) & 0x3F) as u8;
        assert(0xC0u8 | a >= 128 && 0xE0u8 | b >= 128 && 0xF0u8 | d >= 128 && 0x80u8 | e >= 128 && 0x80u8
            | f >= 128 && 0x80u8 | g >= 128) by (bit_vector);
    }
}

// ─── What a text reads as ────────────────────────────────────────────────────

/// A list of expressions before what was parsed after them.
pub open spec fn before(ns: Seq<Sexp>, r: Result<(Seq<Sexp>, int), ParseError>) -> Result<
    (Seq<Sexp>, int),
    ParseError,
> {
    match r {
        Ok((rest, k)) => Ok((ns + rest, k)),
        Err(e) => Err(e),
    }
}

/// Wherever `t` stands in a list, it reads as these expressions. Where it is not
/// `loose`, this holds only before something that ends a bare word.
pub open spec fn reads(t: Seq<u8>, ns: Seq<Sexp>, loose: bool) -> bool {
    forall|s: Seq<u8>, i: int| #[trigger]
        matches_at(s, i, t) && (loose || ended(s, i + t.len())) ==> parse_items(s, i) == before(
            ns,
            parse_items(s, i + t.len()),
        )
}

/// A bare word before `j` ends there.
pub open spec fn ended(s: Seq<u8>, j: int) -> bool {
    j < s.len() && ends_atom(s[j])
}

/// Wherever `t` stands, it reads as this expression.
pub open spec fn reads_node(t: Seq<u8>, n: Sexp) -> bool {
    forall|s: Seq<u8>, i: int| #[trigger]
        matches_at(s, i, t) ==> parse_node(s, i) == Ok::<(Sexp, int), ParseError>((n, i + t.len()))
}

pub proof fn lemma_over_blanks(s: Seq<u8>, i: int, n: int)
    requires
        0 <= i <= n <= s.len(),
        forall|k: int| i <= k < n ==> blank(#[trigger] s[k]),
    ensures
        parse_items(s, i) == parse_items(s, n),
    decreases n - i,
{
    if i < n {
        assert(blank(s[i]));
        lemma_over_blanks(s, i + 1, n);
    }
}

/// White space reads as nothing.
pub proof fn lemma_reads_blank(t: Seq<u8>)
    requires
        forall|k: int| 0 <= k < t.len() ==> blank(#[trigger] t[k]),
    ensures
        reads(t, Seq::empty(), true),
{
    assert forall|s: Seq<u8>, i: int| #[trigger] matches_at(s, i, t) implies parse_items(s, i) == before(
        Seq::empty(),
        parse_items(s, i + t.len()),
    ) by {
        assert forall|k: int| i <= k < i + t.len() implies blank(#[trigger] s[k]) by {
            assert(s.subrange(i, i + t.len())[k - i] == t[k - i]);
        }
        lemma_over_blanks(s, i, i + t.len());
        if let Ok((rest, k)) = parse_items(s, i + t.len()) {
            assert(Seq::<Sexp>::empty() + rest =~= rest);
        }
    }
}

/// A bare word: at least one byte, and none that would end it.
pub open spec fn is_word(w: Seq<char>) -> bool {
    bytes(w).len() > 0 && forall|k: int| 0 <= k < bytes(w).len() ==> !ends_atom(#[trigger] bytes(w)[k])
}

pub proof fn lemma_atom_end(s: Seq<u8>, i: int, n: int)
    requires
        0 <= i <= n <= s.len(),
        forall|k: int| i <= k < n ==> !ends_atom(#[trigger] s[k]),
        n == s.len() || ends_atom(s[n]),
    ensures
        atom_end(s, i) == n,
    decreases n - i,
{
    if i < n {
        assert(!ends_atom(s[i]));
        lemma_atom_end(s, i + 1, n);
    }
}

/// A bare word reads as itself.
pub proof fn lemma_reads_word(w: Seq<char>)
    requires
        is_word(w),
    ensures
        reads(bytes(w), seq![Sexp::Atom(w)], false),
{
    let t = bytes(w);
    lemma_bytes_valid(w);
    assert forall|s: Seq<u8>, i: int| #[trigger]
        matches_at(s, i, t) && ended(s, i + t.len()) implies parse_items(s, i) == before(
        seq![Sexp::Atom(w)],
        parse_items(s, i + t.len()),
    ) by {
        assert forall|k: int| i <= k < i + t.len() implies !ends_atom(#[trigger] s[k]) by {
            assert(s.subrange(i, i + t.len())[k - i] == t[k - i]);
        }
        lemma_atom_end(s, i, i + t.len());
        assert(!ends_atom(s[i]));
        assert(parse_node(s, i) == Ok::<(Sexp, int), ParseError>((Sexp::Atom(w), i + t.len())));
    }
}

/// What reads as one expression, and begins like one, reads as a list of one.
pub proof fn lemma_reads_one(t: Seq<u8>, n: Sexp)
    requires
        reads_node(t, n),
        t.len() > 0,
        t[0] == OPEN || t[0] == QUOTE,
    ensures
        reads(t, seq![n], true),
{
    assert forall|s: Seq<u8>, i: int| #[trigger] matches_at(s, i, t) implies parse_items(s, i) == before(
        seq![n],
        parse_items(s, i + t.len()),
    ) by {
        assert(s.subrange(i, i + t.len())[0] == t[0]);
        assert(parse_node(s, i) == Ok::<(Sexp, int), ParseError>((n, i + t.len())));
    }
}

/// Two texts one after the other read as both their readings, unless the first
/// could end in a bare word that the second goes on with.
pub proof fn lemma_reads_both(
    a: Seq<u8>,
    x: Seq<Sexp>,
    la: bool,
    b: Seq<u8>,
    y: Seq<Sexp>,
    lb: bool,
)
    requires
        reads(a, x, la),
        reads(b, y, lb),
        b.len() > 0,
        la || ends_atom(b[0]),
    ensures
        reads(a + b, x + y, lb),
{
    let t = a + b;
    assert forall|s: Seq<u8>, i: int| #[trigger]
        matches_at(s, i, t) && (lb || ended(s, i + t.len())) implies parse_items(s, i) == before(
        x + y,
        parse_items(s, i + t.len()),
    ) by {
        let w = s.subrange(i, i + t.len());
        assert(w.subrange(0, a.len() as int) =~= a);
        assert(w.subrange(a.len() as int, t.len() as int) =~= b);
        assert(s.subrange(i, i + a.len()) =~= a);
        assert(s.subrange(i + a.len(), i + a.len() + b.len()) =~= b);
        assert(matches_at(s, i, a));
        assert(matches_at(s, i + a.len(), b));
        assert(w[a.len() as int] == b[0]);
        assert(s[i + a.len()] == b[0]);
        if let Ok((rest, k)) = parse_items(s, i + t.len()) {
            assert(x + (y + rest) =~= (x + y) + rest);
        }
    }
}

/// Expressions between parentheses read as the list of them.
pub proof fn lemma_reads_list(t: Seq<u8>, ns: Seq<Sexp>, loose: bool)
    requires
        reads(t, ns, loose),
    ensures
        reads_node(seq![OPEN] + t + seq![CLOSE], Sexp::List(ns)),
{
    let l = seq![OPEN] + t + seq![CLOSE];
    assert forall|s: Seq<u8>, i: int| #[trigger] matches_at(s, i, l) implies parse_node(s, i) == Ok::<
        (Sexp, int),
        ParseError,
    >((Sexp::List(ns), i + l.len())) by {
        let w = s.subrange(i, i + l.len());
        let e = i + 1 + t.len();
        assert(w[0] == OPEN);
        assert(w[1 + t.len() as int] == CLOSE);
        assert(s[i] == OPEN && s[e] == CLOSE);
        assert(w.subrange(1, 1 + t.len() as int) =~= t);
        assert(s.subrange(i + 1, e) =~= t);
        assert(matches_at(s, i + 1, t));
        assert(parse_items(s, e) == Ok::<(Seq<Sexp>, int), ParseError>((Seq::empty(), e + 1)));
        assert(ns + Seq::<Sexp>::empty() =~= ns);
    }
}

// ─── Writing a list from left to right ───────────────────────────────────────

/// A list that is being written: it is open, and what follows the parenthesis
/// reads as these expressions.
pub open spec fn listing(t: Seq<char>, ns: Seq<Sexp>, loose: bool) -> bool {
    bytes(t).len() > 0 && bytes(t)[0] == OPEN && reads(bytes(t).skip(1), ns, loose)
}

/// A list opened with its tag.
pub proof fn lemma_listing_opens(tag: Seq<char>)
    requires
        is_word(tag),
    ensures
        listing(seq!['('] + tag, seq![Sexp::Atom(tag)], false),
{
    lemma_bytes_concat(seq!['('], tag);
    lemma_char_bytes('(');
    lemma_reads_word(tag);
    assert(bytes(seq!['('] + tag).skip(1) =~= bytes(tag));
}

/// A list goes on.
pub proof fn lemma_listing_more(
    t: Seq<char>,
    x: Seq<Sexp>,
    la: bool,
    b: Seq<char>,
    y: Seq<Sexp>,
    lb: bool,
)
    requires
        listing(t, x, la),
        reads(bytes(b), y, lb),
        bytes(b).len() > 0,
        la || ends_atom(bytes(b)[0]),
    ensures
        listing(t + b, x + y, lb),
{
    lemma_bytes_concat(t, b);
    lemma_reads_both(bytes(t).skip(1), x, la, bytes(b), y, lb);
    assert(bytes(t + b).skip(1) =~= bytes(t).skip(1) + bytes(b));
}

/// White space in a list that is being written.
pub proof fn lemma_listing_blank(t: Seq<char>, x: Seq<Sexp>, la: bool, b: Seq<char>)
    requires
        listing(t, x, la),
        is_ascii_chars(b),
        b.len() > 0,
        forall|k: int| 0 <= k < b.len() ==> #[trigger] b[k] == ' ' || b[k] == '\n' || b[k] == '\t',
    ensures
        listing(t + b, x, true),
{
    crate::text::lemma_bytes_ascii(b);
    assert forall|k: int| 0 <= k < bytes(b).len() implies blank(#[trigger] bytes(b)[k]) by {
        assert(b[k] == ' ' || b[k] == '\n' || b[k] == '\t');
        assert(bytes(b)[k] == b[k] as u8);
    }
    lemma_reads_blank(bytes(b));
    lemma_listing_more(t, x, la, b, Seq::empty(), true);
    assert(x + Seq::<Sexp>::empty() =~= x);
}

/// A list with an expression added.
pub proof fn lemma_listing_node(t: Seq<char>, x: Seq<Sexp>, la: bool, b: Seq<char>, n: Sexp)
    requires
        listing(t, x, la),
        reads_node(bytes(b), n),
        bytes(b).len() > 0,
        bytes(b)[0] == OPEN || bytes(b)[0] == QUOTE,
    ensures
        listing(t + b, x.push(n), true),
{
    lemma_reads_one(bytes(b), n);
    lemma_listing_more(t, x, la, b, seq![n], true);
    assert(x + seq![n] =~= x.push(n));
}

/// A list with a bare word added.
pub proof fn lemma_listing_word(t: Seq<char>, x: Seq<Sexp>, w: Seq<char>)
    requires
        listing(t, x, true),
        is_word(w),
    ensures
        listing(t + w, x.push(Sexp::Atom(w)), false),
{
    lemma_reads_word(w);
    lemma_listing_more(t, x, true, w, seq![Sexp::Atom(w)], false);
    assert(x + seq![Sexp::Atom(w)] =~= x.push(Sexp::Atom(w)));
}

/// A list that is closed is an expression.
pub proof fn lemma_listing_closes(t: Seq<char>, ns: Seq<Sexp>, loose: bool)
    requires
        listing(t, ns, loose),
    ensures
        reads_node(bytes(t + seq![')']), Sexp::List(ns)),
        bytes(t + seq![')']).len() > 0,
        bytes(t + seq![')'])[0] == OPEN,
        closes_at(bytes(t + seq![')']), 0, bytes(t + seq![')']).len() as int),
        parse_text(bytes(t + seq![')'])) == Ok::<Sexp, ParseError>(Sexp::List(ns)),
{
    lemma_bytes_concat(t, seq![')']);
    lemma_char_bytes(')');
    lemma_reads_list(bytes(t).skip(1), ns, loose);
    assert(seq![OPEN] + bytes(t).skip(1) + seq![CLOSE] =~= bytes(t + seq![')']));
    lemma_list_text(bytes(t + seq![')']), Sexp::List(ns));
}

/// A plain text between quotes.
pub proof fn lemma_reads_plain(t: Seq<char>)
    requires
        is_plain(t),
    ensures
        reads_node(bytes(seq!['"'] + t + seq!['"']), Sexp::Str(t)),
        bytes(seq!['"'] + t + seq!['"']).len() > 0,
        bytes(seq!['"'] + t + seq!['"'])[0] == QUOTE,
{
    lemma_escape_plain(t);
    law_quoted_reads_back(t);
    assert(quoted_text(t) =~= seq!['"'] + t + seq!['"']);
    lemma_bytes_concat(seq!['"'] + t, seq!['"']);
    lemma_bytes_concat(seq!['"'], t);
    lemma_char_bytes('"');
}

// ─── Quoted strings ──────────────────────────────────────────────────────────

/// Where the escaped form of `t` stands from `from` on, no quote in it ends the
/// string, its end is not escaped, and unescaping it gives `t`.
proof fn lemma_unescape(s: Seq<u8>, from: int, t: Seq<char>, stop: int)
    requires
        matches_at(s, from, bytes(escape_text(t))),
        from + bytes(escape_text(t)).len() <= stop,
    ensures
        !escaped(s, from, from + bytes(escape_text(t)).len()),
        unescaped(s, from, from + bytes(escape_text(t)).len()) == bytes(t),
        string_close(s, from, from, stop) == string_close(
            s,
            from,
            from + bytes(escape_text(t)).len(),
            stop,
        ),
    decreases t.len(),
{
    let all = bytes(escape_text(t));
    if t.len() == 0 {
        assert(all =~= Seq::<u8>::empty());
        assert(bytes(t) =~= Seq::<u8>::empty());
    } else {
        let front = t.drop_last();
        let c = t.last();
        let ef = escape_text(front);
        let b = bytes(ef);
        assert(t =~= front + seq![c]);
        lemma_bytes_concat(front, seq![c]);
        lemma_char_bytes(c);
        let one = bytes(seq![c]);
        if c == '"' || c == '\\' {
            lemma_char_bytes('\\');
            assert(escape_text(t) =~= ef + (seq!['\\'] + seq![c]));
            lemma_bytes_concat(ef, seq!['\\'] + seq![c]);
            lemma_bytes_concat(seq!['\\'], seq![c]);
            assert(all =~= b + seq![BACKSLASH] + one);
        } else {
            assert(escape_text(t) =~= ef + seq![c]);
            lemma_bytes_concat(ef, seq![c]);
            assert(all =~= b + one);
        }
        let w = s.subrange(from, from + all.len());
        assert(w.subrange(0, b.len() as int) =~= b);
        assert(s.subrange(from, from + b.len()) =~= b);
        lemma_unescape(s, from, front, stop);
        let p = from + b.len();
        assert forall|k: int| 0 <= k < all.len() implies #[trigger] all[k] == s[from + k] by {
            assert(w[k] == s[from + k]);
        }
        if c == '"' || c == '\\' {
            assert(all[b.len() as int] == BACKSLASH);
            assert(all[b.len() as int + 1] == c as u8);
            assert(s[p] == BACKSLASH);
            assert(s[p + 1] == c as u8);
            assert(escaped(s, from, p + 1));
            assert(!escaped(s, from, p + 2));
            assert(unescaped(s, from, p + 1) == bytes(front));
            assert(unescaped(s, from, p + 2) =~= bytes(front).push(c as u8));
            assert(bytes(t) =~= bytes(front).push(c as u8));
            assert(string_close(s, from, p, stop) == string_close(s, from, p + 1, stop));
            assert(string_close(s, from, p + 1, stop) == string_close(s, from, p + 2, stop));
        } else {
            assert forall|k: int| 0 <= k < one.len() implies #[trigger] one[k] != QUOTE && one[k]
                != BACKSLASH by {
                if c <= '\u{7f}' {
                    assert(one == seq![c as u8]);
                    assert(one[k] == c as int);
                }
            }
            assert forall|k: int| p <= k < p + one.len() implies #[trigger] s[k] == one[k - p] by {
                assert(all[k - from] == one[k - p]);
            }
            lemma_plain_run(s, from, p, p + one.len(), stop);
            assert(s.subrange(p, p + one.len()) =~= one);
            assert(bytes(t) =~= bytes(front) + one);
        }
    }
}

proof fn lemma_plain_run(s: Seq<u8>, from: int, p: int, q: int, stop: int)
    requires
        0 <= from <= p <= q <= stop,
        q <= s.len(),
        !escaped(s, from, p),
        forall|k: int| p <= k < q ==> #[trigger] s[k] != QUOTE && s[k] != BACKSLASH,
    ensures
        !escaped(s, from, q),
        unescaped(s, from, q) == unescaped(s, from, p) + s.subrange(p, q),
        string_close(s, from, p, stop) == string_close(s, from, q, stop),
    decreases q - p,
{
    if p < q {
        assert(s[q - 1] != QUOTE && s[q - 1] != BACKSLASH);
        lemma_plain_run(s, from, p, q - 1, stop);
        assert(s.subrange(p, q) =~= s.subrange(p, q - 1).push(s[q - 1]));
        assert(string_close(s, from, q - 1, stop) == string_close(s, from, q, stop));
    } else {
        assert(s.subrange(p, q) =~= Seq::<u8>::empty());
    }
}

/// A quoted text reads back as the text, whatever it holds.
pub proof fn law_quoted_reads_back(t: Seq<char>)
    ensures
        reads_node(bytes(quoted_text(t)), Sexp::Str(t)),
{
    let e = escape_text(t);
    let q = bytes(quoted_text(t));
    lemma_char_bytes('"');
    lemma_bytes_concat(seq!['"'] + e, seq!['"']);
    lemma_bytes_concat(seq!['"'], e);
    lemma_bytes_valid(t);
    let b = bytes(e);
    assert(q =~= seq![QUOTE] + b + seq![QUOTE]);
    assert forall|s: Seq<u8>, i: int| #[trigger] matches_at(s, i, q) implies parse_node(s, i) == Ok::<
        (Sexp, int),
        ParseError,
    >((Sexp::Str(t), i + q.len())) by {
        let w = s.subrange(i, i + q.len());
        let end = i + 1 + b.len();
        assert(w[0] == QUOTE && w[1 + b.len() as int] == QUOTE);
        assert(s[i] == QUOTE && s[end] == QUOTE);
        assert(w.subrange(1, 1 + b.len() as int) =~= b);
        assert(s.subrange(i + 1, end) =~= b);
        lemma_unescape(s, i + 1, t, s.len() as int);
        assert(string_close(s, i + 1, end, s.len() as int) == Some(end));
    }
}

/// A text that needs no escapes: no quote and no backslash in it.
pub open spec fn is_plain(t: Seq<char>) -> bool {
    forall|k: int| 0 <= k < t.len() ==> #[trigger] t[k] != '"' && t[k] != '\\'
}

/// What needs no escapes gets none.
pub proof fn lemma_escape_plain(t: Seq<char>)
    requires
        is_plain(t),
    ensures
        escape_text(t) == t,
    decreases t.len(),
{
    if t.len() > 0 {
        assert(t[t.len() - 1] != '"' && t[t.len() - 1] != '\\');
        let front = t.drop_last();
        assert forall|k: int| 0 <= k < front.len() implies #[trigger] front[k] != '"' && front[k] != '\\' by {
            assert(front[k] == t[k]);
        }
        lemma_escape_plain(front);
        assert(escape_text(t) =~= t);
    } else {
        assert(escape_text(t) =~= t);
    }
}

// ─── Parser and scanner agree ────────────────────────────────────────────────

/// Outside every string: what a scan finds between two expressions.
pub open spec fn between(l: Lex) -> bool {
    !l.in_string && !l.escape
}

proof fn lemma_lex_string(s: Seq<u8>, start: int, from: int, i: int, e: int)
    requires
        0 <= start < from <= i <= e < s.len(),
        between(lex(s, start, from - 1)),
        s[from - 1] == QUOTE,
        string_close(s, from, i, s.len() as int) == Some(e),
        forall|k: int|
            from <= k <= i ==> #[trigger] lex(s, start, k) == (Lex {
                depth: lex(s, start, from - 1).depth,
                in_string: true,
                escape: escaped(s, from, k),
            }),
    ensures
        lex(s, start, e + 1) == lex(s, start, from - 1),
        forall|k: int|
            from <= k <= e + 1 ==> (#[trigger] lex(s, start, k)).depth == lex(
                s,
                start,
                from - 1,
            ).depth,
    decreases e - i,
{
    let l = lex(s, start, i);
    assert(lex(s, start, i + 1) == lex_step(l, s[i]));
    if i < e {
        assert(!(s[i] == QUOTE && !escaped(s, from, i)));
        assert(escaped(s, from, i + 1) == (s[i] == BACKSLASH && !escaped(s, from, i)));
        lemma_lex_string(s, start, from, i + 1, e);
    } else {
        lemma_close_is(s, from, i, s.len() as int);
        assert forall|k: int| from <= k <= e + 1 implies (#[trigger] lex(s, start, k)).depth == lex(
            s,
            start,
            from - 1,
        ).depth by {
            if k <= e {
            }
        }
    }
}

pub proof fn lemma_close_is(s: Seq<u8>, from: int, i: int, stop: int)
    ensures
        match string_close(s, from, i, stop) {
            Some(e) => i <= e < stop && s[e] == QUOTE && !escaped(s, from, e),
            None => true,
        },
    decreases stop - i,
{
    if i < stop && !(s[i] == QUOTE && !escaped(s, from, i)) {
        lemma_close_is(s, from, i + 1, stop);
    }
}

pub proof fn lemma_atom_end_is(s: Seq<u8>, i: int)
    requires
        0 <= i <= s.len(),
    ensures
        i <= atom_end(s, i) <= s.len(),
        forall|k: int| i <= k < atom_end(s, i) ==> !ends_atom(#[trigger] s[k]),
    decreases s.len() - i,
{
    if i < s.len() && !ends_atom(s[i]) {
        lemma_atom_end_is(s, i + 1);
    }
}

proof fn lemma_lex_atom(s: Seq<u8>, start: int, i: int, j: int)
    requires
        start <= i <= j <= s.len(),
        between(lex(s, start, i)),
        forall|k: int| i <= k < j ==> !ends_atom(#[trigger] s[k]),
    ensures
        forall|k: int| i <= k <= j ==> #[trigger] lex(s, start, k) == lex(s, start, i),
    decreases j - i,
{
    if i < j {
        lemma_lex_atom(s, start, i, j - 1);
        assert(!ends_atom(s[j - 1]));
        assert(lex(s, start, j) == lex_step(lex(s, start, j - 1), s[j - 1]));
    }
}

/// After an expression a scan is where it was before it, and meanwhile never
/// further out.
pub proof fn lemma_lex_node(s: Seq<u8>, start: int, i: int)
    requires
        0 <= start <= i,
        parse_node(s, i) is Ok,
        !blank(s[i]),
        between(lex(s, start, i)),
    ensures
        i < parse_node(s, i)->Ok_0.1 <= s.len(),
        lex(s, start, parse_node(s, i)->Ok_0.1) == lex(s, start, i),
        forall|k: int|
            i <= k <= parse_node(s, i)->Ok_0.1 ==> (#[trigger] lex(s, start, k)).depth >= lex(
                s,
                start,
                i,
            ).depth,
        s[i] == OPEN ==> forall|k: int|
            i < k < parse_node(s, i)->Ok_0.1 ==> (#[trigger] lex(s, start, k)).depth > lex(
                s,
                start,
                i,
            ).depth,
    decreases s.len() - i, 0int,
{
    let (n, j) = parse_node(s, i)->Ok_0;
    let l = lex(s, start, i);
    assert(lex(s, start, i + 1) == lex_step(l, s[i]));
    if s[i] == OPEN {
        lemma_lex_items(s, start, i + 1);
    } else if s[i] == QUOTE {
        lemma_close_is(s, i + 1, i + 1, s.len() as int);
        lemma_lex_string(s, start, i + 1, i + 1, j - 1);
        assert forall|k: int| i <= k <= j implies (#[trigger] lex(s, start, k)).depth >= l.depth by {
            if k > i {
            }
        }
    } else {
        lemma_atom_end_is(s, i);
        lemma_atom_end_is(s, i + 1);
        assert(!ends_atom(s[i]));
        lemma_lex_atom(s, start, i, j);
    }
}

/// After the end of a list a scan is one level further out, and until then never
/// further out than inside the list.
pub proof fn lemma_lex_items(s: Seq<u8>, start: int, i: int)
    requires
        0 <= start <= i,
        parse_items(s, i) is Ok,
        between(lex(s, start, i)),
        lex(s, start, i).depth > 0,
    ensures
        i < parse_items(s, i)->Ok_0.1 <= s.len(),
        lex(s, start, parse_items(s, i)->Ok_0.1) == (Lex {
            depth: (lex(s, start, i).depth - 1) as nat,
            ..lex(s, start, i)
        }),
        forall|k: int|
            i <= k < parse_items(s, i)->Ok_0.1 ==> (#[trigger] lex(s, start, k)).depth >= lex(
                s,
                start,
                i,
            ).depth,
    decreases s.len() - i, 1int,
{
    let l = lex(s, start, i);
    let e = parse_items(s, i)->Ok_0.1;
    assert(lex(s, start, i + 1) == lex_step(l, s[i]));
    if blank(s[i]) {
        lemma_lex_items(s, start, i + 1);
        assert forall|k: int| i <= k < e implies (#[trigger] lex(s, start, k)).depth >= l.depth by {
            if k > i {
            }
        }
    } else if s[i] == CLOSE {
    } else {
        lemma_lex_node(s, start, i);
        let j = parse_node(s, i)->Ok_0.1;
        lemma_lex_items(s, start, j);
        assert forall|k: int| i <= k < e implies (#[trigger] lex(s, start, k)).depth >= l.depth by {
            if k <= j {
            }
        }
    }
}

/// What parses as a list is a balanced block with the same end: the parser and the
/// scanner agree on where a block closes.
pub proof fn law_parsed_list_is_a_block(s: Seq<u8>, i: int)
    requires
        0 <= i < s.len(),
        s[i] == OPEN,
        parse_node(s, i) is Ok,
    ensures
        closes_at(s, i, parse_node(s, i)->Ok_0.1),
{
    assert(lex(s, i, i) == outside());
    lemma_lex_node(s, i, i);
}

/// A text that reads as a list is a balanced block, and reads so by itself.
pub proof fn lemma_list_text(t: Seq<u8>, n: Sexp)
    requires
        reads_node(t, n),
        t.len() > 0,
        t[0] == OPEN,
    ensures
        closes_at(t, 0, t.len() as int),
        parse_text(t) == Ok::<Sexp, ParseError>(n),
{
    assert(t.subrange(0, t.len() as int) =~= t);
    assert(matches_at(t, 0, t));
    law_parsed_list_is_a_block(t, 0);
    assert(crate::scan::skip_blank(t, 0) == 0);
}

} // verus!
