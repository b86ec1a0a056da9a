//! What adding a net does to the nets of a board.
//!
//! A net that is added is found again under its name, with the code it was given, and
//! the nets that were there stay what they were.

use crate::board_file::root_close;
use crate::chars::{
    blank, digit, digit_run, is_white, law_decimal_reads_back, law_integer_reads_back,
    lemma_trim_front_suffix, signed_decimal, trim_front,
};
use crate::edit::{edits_fit, Splice};
use crate::fields::lemma_tag_is_word;
use crate::grammar::{
    between, is_plain, lemma_char_bytes, lemma_listing_blank, lemma_listing_closes,
    lemma_listing_node, lemma_listing_opens, lemma_listing_word, lemma_reads_plain,
};
use crate::net::{
    first_numbered, in_quotes, named_match, net_digits, net_head, net_on_board, net_starts, net_tail,
    numbered_match, Net,
};
use crate::placing::{
    is_tag, lemma_block_tag, lemma_inner_closes, lemma_item_put, lemma_kicad_pcb,
    lemma_lex_through, lemma_put_in_text, lemma_root, lemma_tag_ends, lemma_tag_same, put_in,
};
use crate::routing::{added_net, declared_code, highest_code, net_entry_text, with_item};
use crate::scan::{
    block_end, block_starts, closes_at, is_document, law_block_starts, lemma_block_end,
    lemma_block_end_is, lemma_block_moved, lex, lex_step, opens, skip_blank, tag_opens, BACKSLASH,
    CLOSE, OPEN, QUOTE,
};
use crate::sexp::Sexp;
use crate::text::{
    bytes, lemma_ascii_boundary, lemma_between_cuts, lemma_bytes_ascii, lemma_bytes_concat, lemma_bytes_injective,
    lemma_bytes_valid, lemma_ends, matches_at, text_of,
};
use crate::undo::{lemma_decimal_is_word, lemma_has_tag, lemma_leads};
use vstd::prelude::*;

verus! {

// ─── Bytes and lexical state ─────────────────────────────────────────────────

/// A text without quotes and backslashes has no byte that is one.
pub proof fn lemma_plain_bytes(t: Seq<char>)
    requires
        is_plain(t),
    ensures
        forall|k: int| 0 <= k < bytes(t).len() ==> #[trigger] bytes(t)[k] != QUOTE && bytes(t)[k] != BACKSLASH,
    decreases t.len(),
{
    if t.len() > 0 {
        let front = t.drop_last();
        let c = t.last();
        assert forall|k: int| 0 <= k < front.len() implies #[trigger] front[k] != '"' && front[k] != '\\' by {
            assert(front[k] == t[k]);
        }
        lemma_plain_bytes(front);
        assert(t =~= front + seq![c]);
        lemma_bytes_concat(front, seq![c]);
        lemma_char_bytes(c);
        assert(t[t.len() - 1] != '"' && t[t.len() - 1] != '\\');
        let n = bytes(front).len() as int;
        assert forall|k: int| 0 <= k < bytes(t).len() implies #[trigger] bytes(t)[k] != QUOTE
            && bytes(t)[k] != BACKSLASH by {
            if k < n {
                assert(bytes(t)[k] == bytes(front)[k]);
            } else {
                assert(bytes(t)[k] == bytes(seq![c])[k - n]);
            }
        }
    } else {
        assert(bytes(t) =~= Seq::<u8>::empty());
    }
}

/// A parenthesis is the last byte of a text just where it is the last character.
proof fn lemma_last_close(t: Seq<char>)
    requires
        t.len() > 0,
    ensures
        bytes(t).len() > 0,
        (t.last() == ')') == (bytes(t).last() == CLOSE),
{
    let c = t.last();
    assert(t =~= t.drop_last() + seq![c]);
    lemma_bytes_concat(t.drop_last(), seq![c]);
    lemma_char_bytes(c);
    let one = bytes(seq![c]);
    assert(bytes(t).last() == one[one.len() - 1]);
}

/// Without a quote the scan stays outside strings.
pub proof fn lemma_stays_outside(s: Seq<u8>, from: int, i: int, j: int)
    requires
        from <= i <= j,
        between(lex(s, from, i)),
        forall|k: int| i <= k < j ==> #[trigger] s[k] != QUOTE,
    ensures
        between(lex(s, from, j)),
    decreases j - i,
{
    if i < j {
        lemma_stays_outside(s, from, i, j - 1);
        assert(s[j - 1] != QUOTE);
        assert(lex(s, from, j) == lex_step(lex(s, from, j - 1), s[j - 1]));
    }
}

/// Without a quote or a backslash the scan stays in the string it is in.
pub proof fn lemma_stays_inside(s: Seq<u8>, from: int, i: int, j: int)
    requires
        from <= i <= j,
        lex(s, from, i).in_string,
        !lex(s, from, i).escape,
        forall|k: int| i <= k < j ==> #[trigger] s[k] != QUOTE && s[k] != BACKSLASH,
    ensures
        lex(s, from, j) == lex(s, from, i),
    decreases j - i,
{
    if i < j {
        lemma_stays_inside(s, from, i, j - 1);
        assert(s[j - 1] != QUOTE && s[j - 1] != BACKSLASH);
        assert(lex(s, from, j) == lex_step(lex(s, from, j - 1), s[j - 1]));
    }
}

/// The bytes of a plain name between quotes.
proof fn lemma_in_quotes(m: Seq<char>)
    requires
        is_plain(m),
    ensures
        bytes(in_quotes(m)) == seq![QUOTE] + bytes(m) + seq![QUOTE],
        forall|k: int| 0 <= k < bytes(m).len() ==> #[trigger] bytes(m)[k] != QUOTE && bytes(m)[k] != BACKSLASH,
{
    reveal_strlit("\"");
    assert("\""@ =~= seq!['"']);
    lemma_char_bytes('"');
    lemma_bytes_concat("\""@ + m, "\""@);
    lemma_bytes_concat("\""@, m);
    lemma_plain_bytes(m);
}

// ─── An entry by itself ──────────────────────────────────────────────────────

/// White space is trimmed alike whatever follows a text that does not end in it.
proof fn lemma_trim_over(x: Seq<char>, y: Seq<char>)
    requires
        x.len() > 0,
        !is_white(x.last()),
    ensures
        trim_front(x + y) == trim_front(x) + y,
        trim_front(x).len() > 0,
        trim_front(x).last() == x.last(),
    decreases x.len(),
{
    assert((x + y)[0] == x[0]);
    if is_white(x[0]) {
        assert(x.len() > 1);
        assert((x + y).drop_first() =~= x.drop_first() + y);
        lemma_trim_over(x.drop_first(), y);
    }
}

/// What is trimmed off holds no quote.
proof fn lemma_trim_plain(x: Seq<char>)
    ensures
        ({
            let k = x.len() - trim_front(x).len();
            &&& 0 <= k <= x.len()
            &&& x == x.take(k) + trim_front(x)
            &&& is_plain(x.take(k))
        }),
    decreases x.len(),
{
    let k = x.len() - trim_front(x).len();
    lemma_trim_front_suffix(x);
    assert(x =~= x.take(k) + x.skip(k));
    if x.len() > 0 && is_white(x[0]) {
        let rest = x.drop_first();
        lemma_trim_plain(rest);
        assert forall|i: int| 0 <= i < k implies #[trigger] x.take(k)[i] != '"' && x.take(k)[i] != '\\' by {
            if i > 0 {
                assert(rest.take(k - 1)[i - 1] == x[i]);
            }
        }
    }
}

/// A run of digits ends before a byte that is none, whatever follows.
proof fn lemma_run_over(h: Seq<u8>, y: Seq<u8>, k: int)
    requires
        0 <= k < h.len(),
        !digit(h.last()),
    ensures
        digit_run(h + y, k) == digit_run(h, k),
        0 <= digit_run(h, k),
        k + digit_run(h, k) < h.len(),
        forall|j: int| k <= j < k + digit_run(h, k) ==> digit(#[trigger] h[j]),
        !digit(h[k + digit_run(h, k)]),
    decreases h.len() - k,
{
    assert((h + y)[k] == h[k]);
    if digit(h[k]) {
        assert(k + 1 < h.len());
        lemma_run_over(h, y, k + 1);
    }
}

/// The close of a block is outside its strings, so a plain name that begins in the
/// block with its quote ends in it.
proof fn lemma_name_inside(v: Seq<u8>, a: int, y: Seq<u8>, m: Seq<char>)
    requires
        closes_at(v, 0, v.len() as int),
        0 <= a < v.len(),
        v.last() == CLOSE,
        forall|k: int| 0 <= k < a ==> #[trigger] v[k] != QUOTE,
        is_plain(m),
    ensures
        matches_at(v.subrange(a, v.len() as int) + y, 0, bytes(in_quotes(m))) == matches_at(
            v.subrange(a, v.len() as int),
            0,
            bytes(in_quotes(m)),
        ),
{
    let n = v.len() as int;
    let x = v.subrange(a, n);
    let w = x + y;
    let q = bytes(in_quotes(m));
    lemma_in_quotes(m);
    if q.len() <= x.len() {
        assert(w.subrange(0, q.len() as int) =~= x.subrange(0, q.len() as int));
    } else if matches_at(w, 0, q) {
        assert(w.subrange(0, q.len() as int) == q);
        assert forall|j: int| 0 <= j < x.len() implies #[trigger] x[j] == q[j] by {
            assert(w.subrange(0, q.len() as int)[j] == w[j]);
        }
        assert(x[0] == v[a]);
        assert(v[a] == QUOTE);
        assert(x[n - 1 - a] == CLOSE);
        assert(lex(v, 0, 0) == crate::scan::outside());
        lemma_stays_outside(v, 0, 0, a);
        assert(lex(v, 0, a + 1) == lex_step(lex(v, 0, a), v[a]));
        assert forall|k: int| a + 1 <= k < n implies #[trigger] v[k] != QUOTE && v[k] != BACKSLASH by {
            assert(v[k] == x[k - a]);
            assert(q[k - a] == bytes(m)[k - a - 1]);
        }
        lemma_stays_inside(v, 0, a + 1, n);
        assert(lex(v, 0, n).depth == 0);
        assert(lex(v, 0, a).depth == 0);
        if a > 0 {
            assert(lex(v, 0, a).depth > 0);
        }
        assert(v[0] == OPEN);
        assert(false);
    }
}

/// A text cut in two where its bytes are cut after ASCII.
proof fn lemma_after_digits(x: Seq<char>, d: int)
    requires
        0 <= d < bytes(x).len(),
        forall|j: int| 0 <= j < d ==> digit(#[trigger] bytes(x)[j]),
        bytes(x).last() == CLOSE,
    ensures
        ({
            let r = text_of(bytes(x).subrange(d, bytes(x).len() as int));
            &&& bytes(r) == bytes(x).subrange(d, bytes(x).len() as int)
            &&& r.len() > 0
            &&& r.last() == ')'
        }),
{
    let h = bytes(x);
    lemma_ends(x);
    if d > 0 {
        assert(digit(h[d - 1]));
        lemma_ascii_boundary(x, d - 1);
    }
    lemma_between_cuts(x, d, h.len() as int);
    let r = text_of(h.subrange(d, h.len() as int));
    if r.len() == 0 {
        assert(bytes(r) =~= Seq::<u8>::empty());
    }
    lemma_last_close(r);
}

/// What an entry declares is in the entry: nothing behind it matters.
#[verifier::rlimit(40)]
proof fn lemma_entry_alone(u: Seq<char>, x: Seq<char>, s: Seq<u8>, q: int, y: Seq<char>, m: Seq<char>)
    requires
        u == "(net"@ + x,
        x.len() > 0,
        x.last() == ')',
        closes_at(bytes(u), 0, bytes(u).len() as int),
        0 <= q <= s.len(),
        s.subrange(q, s.len() as int) == bytes(u) + bytes(y),
        is_plain(m),
    ensures
        numbered_match(s, q, m) == numbered_match(bytes(u), 0, m),
        named_match(s, q, m) == named_match(bytes(u), 0, m),
        declared_code(s, q) == declared_code(bytes(u), 0),
{
    let v = bytes(u);
    let n = v.len() as int;
    let by = bytes(y);
    let lead = bytes("(net"@);
    reveal_strlit("(net");
    lemma_bytes_ascii("(net"@);
    assert(lead[0] == 40 && lead[1] == 110 && lead[2] == 101 && lead[3] == 116);
    lemma_bytes_concat("(net"@, x);
    assert(v.subrange(4, n) =~= bytes(x));
    let w = s.subrange(q, s.len() as int);
    assert(w.len() == s.len() - q && w.len() == v.len() + by.len());
    assert(s.subrange(q + 4, s.len() as int) =~= w.subrange(4, w.len() as int));
    assert(w.subrange(4, w.len() as int) =~= bytes(x) + by);
    lemma_bytes_concat(x, y);
    lemma_bytes_valid(x);
    lemma_bytes_valid(x + y);
    lemma_trim_over(x, y);
    lemma_trim_plain(x);
    let pre = x.take(x.len() - trim_front(x).len());
    let fx = trim_front(x);
    let h = bytes(fx);
    lemma_bytes_concat(pre, fx);
    lemma_bytes_concat(fx, y);
    lemma_plain_bytes(pre);
    lemma_last_close(fx);
    assert(net_head(v, 0) == h);
    assert(net_head(s, q) == h + by);
    let a = 4 + bytes(pre).len() as int;
    assert(v =~= lead + bytes(pre) + h);
    assert(v.subrange(a, n) =~= h);
    assert forall|k: int| 0 <= k < a implies #[trigger] v[k] != QUOTE by {
        if k >= 4 {
            assert(v[k] == bytes(pre)[k - 4]);
        } else {
            assert(v[k] == lead[k]);
        }
    }
    assert(v.last() == CLOSE);
    lemma_name_inside(v, a, by, m);
    let d = digit_run(h, 0);
    lemma_run_over(h, by, 0);
    assert((h + by).subrange(0, d) =~= h.subrange(0, d));
    lemma_after_digits(fx, d);
    let r = text_of(h.subrange(d, h.len() as int));
    assert((h + by).subrange(d, (h + by).len() as int) =~= bytes(r) + by);
    lemma_bytes_concat(r, y);
    lemma_bytes_valid(r + y);
    lemma_trim_over(r, y);
    lemma_trim_plain(r);
    let gap = r.take(r.len() - trim_front(r).len());
    let z = trim_front(r);
    lemma_bytes_concat(gap, z);
    lemma_bytes_concat(z, y);
    lemma_plain_bytes(gap);
    lemma_last_close(z);
    assert(net_tail(v, 0) == bytes(z));
    assert(net_tail(s, q) == bytes(z) + by);
    let b = a + d + bytes(gap).len() as int;
    assert(v.subrange(b, n) =~= bytes(z)) by {
        assert(v.subrange(a + d, n) =~= h.subrange(d, h.len() as int));
        assert(v.subrange(b, n) =~= v.subrange(a + d, n).subrange(bytes(gap).len() as int, n - a - d));
        assert((bytes(gap) + bytes(z)).subrange(bytes(gap).len() as int, n - a - d) =~= bytes(z));
    }
    assert forall|k: int| 0 <= k < b implies #[trigger] v[k] != QUOTE by {
        if k >= a + d {
            assert(v[k] == h.subrange(d, h.len() as int)[k - a - d]);
            assert(v[k] == bytes(gap)[k - a - d]);
        } else if k >= a {
            assert(v[k] == h[k - a]);
            assert(digit(h[k - a]));
        }
    }
    lemma_name_inside(v, b, by, m);
}

// ─── The entry that is added ─────────────────────────────────────────────────

/// The entry of a net, without the line break before it.
pub open spec fn net_entry(code: int, name: Seq<char>) -> Seq<char> {
    "(net "@ + signed_decimal(code) + " \""@ + name + "\")"@
}

/// A plain name in quotes stands where another name in quotes does only where the two
/// are one.
proof fn lemma_quotes_match(name: Seq<char>, m: Seq<char>, rest: Seq<u8>)
    requires
        is_plain(name),
        is_plain(m),
    ensures
        matches_at(bytes(in_quotes(name)) + rest, 0, bytes(in_quotes(m))) == (name == m),
{
    let h = bytes(in_quotes(name)) + rest;
    let q = bytes(in_quotes(m));
    lemma_in_quotes(name);
    lemma_in_quotes(m);
    let a = bytes(name);
    let b = bytes(m);
    if name == m {
        assert(h.subrange(0, q.len() as int) =~= q);
    } else if matches_at(h, 0, q) {
        let w = h.subrange(0, q.len() as int);
        assert(w == q);
        assert forall|k: int| 0 <= k < q.len() implies #[trigger] h[k] == q[k] by {
            assert(w[k] == h[k]);
        }
        if b.len() < a.len() {
            assert(h[1 + b.len() as int] == a[b.len() as int]);
            assert(q[1 + b.len() as int] == QUOTE);
        } else if a.len() < b.len() {
            assert(h[1 + a.len() as int] == QUOTE);
            assert(q[1 + a.len() as int] == b[a.len() as int]);
        } else {
            assert forall|k: int| 0 <= k < a.len() implies a[k] == b[k] by {
                assert(h[1 + k] == a[k]);
                assert(q[1 + k] == b[k]);
            }
            assert(a =~= b);
            lemma_bytes_injective(name, m);
        }
        assert(false);
    }
}

/// What the added entry declares.
#[verifier::rlimit(40)]
proof fn lemma_entry_declares(code: int, name: Seq<char>, m: Seq<char>)
    requires
        0 <= code <= i32::MAX,
        is_plain(name),
        is_plain(m),
    ensures
        ({
            let v = bytes(net_entry(code, name));
            &&& numbered_match(v, 0, m) == if name == m {
                Some(code)
            } else {
                None
            }
            &&& !named_match(v, 0, m)
            &&& declared_code(v, 0) == Some(code)
        }),
{
    reveal_strlit("(net ");
    reveal_strlit(" \"");
    reveal_strlit("\")");
    reveal_strlit("\"");
    let u = net_entry(code, name);
    let v = bytes(u);
    let dec = signed_decimal(code);
    let tail = " \""@ + name + "\")"@;
    let quoted = in_quotes(name) + seq![')'];
    assert(tail =~= seq![' '] + quoted);
    assert("(net "@ =~= "(net "@.take(4) + seq![' ']);
    let x = seq![' '] + dec + tail;
    assert(u =~= "(net "@.take(4) + x);
    lemma_bytes_concat("(net "@.take(4), x);
    lemma_bytes_ascii("(net "@.take(4));
    assert(v.subrange(4, v.len() as int) =~= bytes(x));
    lemma_bytes_valid(x);
    let y = dec + tail;
    law_decimal_reads_back(code as nat);
    law_integer_reads_back(code);
    let bd = bytes(dec);
    assert(digit(bd[0]));
    lemma_decimal_is_word(code);
    assert(dec.len() > 0);
    assert(!is_white(dec[0])) by {
        lemma_char_bytes(dec[0]);
        assert(dec =~= seq![dec[0]] + dec.drop_first());
        lemma_bytes_concat(seq![dec[0]], dec.drop_first());
    }
    assert(x.drop_first() =~= y);
    assert(y[0] == dec[0]);
    assert(trim_front(y) == y);
    assert(x[0] == ' ');
    assert(trim_front(x) == y);
    let h = bytes(y);
    assert(net_head(v, 0) == h);
    lemma_bytes_concat(dec, tail);
    lemma_bytes_concat(seq![' '], quoted);
    lemma_char_bytes(' ');
    assert(h =~= bd + bytes(tail));
    assert(bytes(tail)[0] == 32);
    lemma_run_is(h, 0, bd.len() as int);
    assert(net_digits(v, 0) =~= bd);
    assert(h.subrange(bd.len() as int, h.len() as int) =~= bytes(tail));
    lemma_bytes_valid(tail);
    assert(tail.drop_first() =~= quoted);
    assert(quoted[0] == '"');
    assert(trim_front(quoted) == quoted);
    assert(tail[0] == ' ');
    assert(trim_front(tail) == quoted);
    lemma_bytes_concat(in_quotes(name), seq![')']);
    assert(net_tail(v, 0) == bytes(in_quotes(name)) + bytes(seq![')']));
    lemma_quotes_match(name, m, bytes(seq![')']));
    lemma_in_quotes(name);
    lemma_in_quotes(m);
    if named_match(v, 0, m) {
        let q = bytes(in_quotes(m));
        assert(h.subrange(0, q.len() as int)[0] == h[0]);
        assert(h[0] == bd[0]);
        assert(false);
    }
}

/// A run of digits that ends at `n`.
proof fn lemma_run_is(h: Seq<u8>, k: int, n: int)
    requires
        0 <= k <= n < h.len(),
        forall|j: int| k <= j < n ==> digit(#[trigger] h[j]),
        !digit(h[n]),
    ensures
        digit_run(h, k) == n - k,
    decreases n - k,
{
    if k < n {
        assert(digit(h[k]));
        lemma_run_is(h, k + 1, n);
    }
}

/// The entry is a `(net …)` block.
proof fn lemma_entry_block(code: int, name: Seq<char>)
    requires
        is_plain(name),
    ensures
        closes_at(bytes(net_entry(code, name)), 0, bytes(net_entry(code, name)).len() as int),
        tag_opens(bytes(net_entry(code, name)), 0, bytes("net"@)),
        is_tag("net"@),
{
    reveal_strlit("(net ");
    reveal_strlit(" \"");
    reveal_strlit("\")");
    reveal_strlit("net");
    reveal_strlit(" ");
    let dec = signed_decimal(code);
    let t = net_entry(code, name);
    lemma_tag_is_word("net"@);
    lemma_leads();
    lemma_decimal_is_word(code);
    lemma_listing_opens("net"@);
    let head = seq!['('] + "net"@;
    lemma_listing_blank(head, seq![Sexp::Atom("net"@)], false, " "@);
    lemma_listing_word(head + " "@, seq![Sexp::Atom("net"@)], dec);
    let two = seq![Sexp::Atom("net"@)].push(Sexp::Atom(dec));
    lemma_listing_blank(head + " "@ + dec, two, false, " "@);
    lemma_reads_plain(name);
    let quoted = seq!['"'] + name + seq!['"'];
    lemma_listing_node(head + " "@ + dec + " "@, two, true, quoted, Sexp::Str(name));
    lemma_listing_closes(head + " "@ + dec + " "@ + quoted, two.push(Sexp::Str(name)), true);
    assert(t =~= head + " "@ + dec + " "@ + quoted + seq![')']);
    let rest = dec + " "@ + quoted + seq![')'];
    assert(t =~= seq!['('] + "net"@ + " "@ + rest);
    lemma_has_tag(t, "net"@, " "@, rest);
}

/// No block opens inside the entry.
proof fn lemma_entry_is_flat(code: int, name: Seq<char>, t: Seq<u8>, a: int, q: int)
    requires
        0 <= a,
        0 <= code,
        is_plain(name),
        matches_at(t, a, bytes(net_entry(code, name))),
        between(lex(t, 0, a)),
        a < q < a + bytes(net_entry(code, name)).len(),
    ensures
        !opens(t, q),
{
    reveal_strlit("(net ");
    reveal_strlit(" \"");
    reveal_strlit("\")");
    let dec = signed_decimal(code);
    let u = net_entry(code, name);
    let v = bytes(u);
    let h = bytes("(net "@);
    let bd = bytes(dec);
    let g = bytes(" \""@);
    let k = bytes("\")"@);
    let bn = bytes(name);
    lemma_bytes_ascii("(net "@);
    lemma_bytes_ascii(" \""@);
    lemma_bytes_ascii("\")"@);
    lemma_bytes_concat("(net "@ + dec + " \""@ + name, "\")"@);
    lemma_bytes_concat("(net "@ + dec + " \""@, name);
    lemma_bytes_concat("(net "@ + dec, " \""@);
    lemma_bytes_concat("(net "@, dec);
    assert(v =~= h + bd + g + bn + k);
    assert(h[0] == 40 && h[1] == 110 && h[2] == 101 && h[3] == 116 && h[4] == 32);
    assert(g[0] == 32 && g[1] == 34);
    assert(k[0] == 34 && k[1] == 41);
    law_decimal_reads_back(code as nat);
    lemma_plain_bytes(name);
    let w = t.subrange(a, a + v.len());
    assert forall|i: int| 0 <= i < v.len() implies #[trigger] v[i] == t[a + i] by {
        assert(w[i] == v[i]);
    }
    let b = h.len() + bd.len() + 1;
    let e = b + 1 + bn.len();
    assert(v[b as int] == 34);
    assert forall|i: int| 0 <= i < b implies #[trigger] v[i] != QUOTE && (i > 0 ==> v[i] != OPEN) by {
        if i < h.len() {
            assert(v[i] == h[i]);
        } else if i < h.len() + bd.len() {
            assert(v[i] == bd[i - h.len()]);
            assert(digit(bd[i - h.len()]));
        } else {
            assert(v[i] == g[0]);
        }
    }
    assert(t[q] == v[q - a]) by {
        assert(v[q - a] == t[a + (q - a)]);
    }
    if q - a > b && q - a < e {
        assert forall|i: int| a <= i < a + b implies #[trigger] t[i] != QUOTE by {
            assert(v[i - a] == t[a + (i - a)]);
        }
        lemma_stays_outside(t, 0, a, a + b);
        assert(t[a + b] == QUOTE) by {
            assert(v[b as int] == t[a + b]);
        }
        assert(lex(t, 0, a + b + 1) == lex_step(lex(t, 0, a + b), t[a + b]));
        assert forall|i: int| a + b + 1 <= i < q implies #[trigger] t[i] != QUOTE && t[i] != BACKSLASH by {
            assert(v[i - a] == t[a + (i - a)]);
            assert(v[i - a] == bn[i - a - b - 1]);
        }
        lemma_stays_inside(t, 0, a + b + 1, q);
    } else if q - a >= e {
        assert(v[q - a] == k[q - a - e]);
    }
}

// ─── The entries of the board ────────────────────────────────────────────────

/// A `(tag …)` block opens at `q`.
spec fn opening(s: Seq<u8>, tag: Seq<u8>, q: int) -> bool {
    opens(s, q) && tag_opens(s, q, tag)
}

proof fn lemma_no_openings(s: Seq<u8>, tag: Seq<u8>, a: int, b: int)
    requires
        0 <= a <= b,
        forall|q: int| a <= q < b ==> !#[trigger] opening(s, tag, q),
    ensures
        block_starts(s, tag, b) == block_starts(s, tag, a),
    decreases b - a,
{
    if a < b {
        assert(!opening(s, tag, b - 1));
        lemma_no_openings(s, tag, a, b - 1);
    }
}

proof fn lemma_same_openings(s: Seq<u8>, t: Seq<u8>, tag: Seq<u8>, n: int)
    requires
        forall|q: int| 0 <= q < n ==> #[trigger] opening(s, tag, q) == opening(t, tag, q),
    ensures
        block_starts(s, tag, n) == block_starts(t, tag, n),
    decreases n,
{
    if n > 0 {
        assert(opening(s, tag, n - 1) == opening(t, tag, n - 1));
        lemma_same_openings(s, t, tag, n - 1);
    }
}

/// What an entry of a board declares is what it declares by itself.
proof fn lemma_entry_at(c: Seq<char>, q: int, f: int, m: Seq<char>)
    requires
        closes_at(bytes(c), q, f),
        tag_opens(bytes(c), q, bytes("net"@)),
        is_plain(m),
    ensures
        ({
            let s = bytes(c);
            let v = s.subrange(q, f);
            &&& numbered_match(s, q, m) == numbered_match(v, 0, m)
            &&& named_match(s, q, m) == named_match(v, 0, m)
            &&& declared_code(s, q) == declared_code(v, 0)
        }),
{
    let s = bytes(c);
    let n = s.len() as int;
    let v = s.subrange(q, f);
    reveal_strlit("net");
    reveal_strlit("(net");
    lemma_bytes_ascii("net"@);
    lemma_bytes_ascii("(net"@);
    let g = bytes("net"@);
    assert(g[0] == 110 && g[1] == 101 && g[2] == 116);
    let w = s.subrange(q + 1, q + 4);
    assert(w == g);
    assert(s[q + 1] == w[0] && s[q + 2] == w[1] && s[q + 3] == w[2]);
    lemma_block_end(s, q, f);
    lemma_block_end_is(s, q);
    assert(s[f - 1] == CLOSE);
    assert(q + 4 < f) by {
        if f - 1 == q + 3 {
        } else if f - 1 == q + 2 {
        } else if f - 1 == q + 1 {
        } else if f - 1 == q {
        }
    }
    lemma_ends(c);
    lemma_ascii_boundary(c, q);
    lemma_ascii_boundary(c, q + 3);
    lemma_ascii_boundary(c, f - 1);
    lemma_between_cuts(c, q, f);
    lemma_between_cuts(c, q + 4, f);
    lemma_between_cuts(c, f, n);
    let u = text_of(v);
    let x = text_of(s.subrange(q + 4, f));
    let y = text_of(s.subrange(f, n));
    if x.len() == 0 {
        assert(bytes(x) =~= Seq::<u8>::empty());
    }
    lemma_last_close(x);
    lemma_bytes_concat("(net"@, x);
    let lead = bytes("(net"@);
    assert(lead[0] == 40 && lead[1] == 110 && lead[2] == 101 && lead[3] == 116);
    assert(lead + bytes(x) =~= v);
    lemma_bytes_injective(u, "(net"@ + x);
    assert forall|i: int| q <= i < f implies #[trigger] s[i] == v[i + -q] by {}
    lemma_block_moved(s, v, q, f, -q);
    assert(s.subrange(q, n) =~= v + bytes(y));
    lemma_entry_alone(u, x, s, q, y, m);
}

/// The entries that were there stand where they stood, and the new one behind them.
#[verifier::rlimit(40)]
proof fn lemma_starts_after(c: Seq<char>, code: int, name: Seq<char>)
    requires
        is_document(bytes(c), bytes("kicad_pcb"@)),
        0 <= code,
        is_plain(name),
    ensures
        ({
            let s = bytes(c);
            let p = root_close(s).unwrap();
            let t = put_in(s, p, bytes("\n  "@ + net_entry(code, name)));
            &&& net_starts(t) == net_starts(s).push(p + 3)
            &&& t.subrange(p + 3, p + 3 + bytes(net_entry(code, name)).len()) == bytes(
                net_entry(code, name),
            )
            &&& closes_at(t, p + 3, p + 3 + bytes(net_entry(code, name)).len())
            &&& forall|i: int|
                0 <= i < net_starts(s).len() ==> entry_before(s, #[trigger] net_starts(s)[i], p)
        }),
{
    let s = bytes(c);
    let lead = "\n  "@;
    let block = net_entry(code, name);
    let root_tag = "kicad_pcb"@;
    let g = bytes("net"@);
    reveal_strlit("\n  ");
    lemma_bytes_ascii(lead);
    lemma_kicad_pcb();
    lemma_leads();
    lemma_entry_block(code, name);
    let l = bytes(lead);
    let bl = bytes(block);
    lemma_item_put(c, root_tag, lead, block);
    lemma_root(s, bytes(root_tag));
    lemma_lex_through(s, bytes(root_tag), l, bl);
    let root = skip_blank(s, 0);
    let e = block_end(s, root).unwrap();
    let p = e - 1;
    let t = put_in(s, p, l + bl);
    let a = p + 3;
    let b = a + bl.len();
    lemma_ascii_boundary(c, p);
    lemma_put_in_text(c, p, lead + block);
    let d = text_of(s.subrange(0, p)) + (lead + block) + text_of(s.subrange(p, s.len() as int));
    assert(bytes(d) == t);
    assert(t[p] == l[0]);
    lemma_tag_ends(c, p);
    lemma_tag_ends(d, p);
    assert forall|k: int| 0 <= k < p implies #[trigger] s[k] == t[k] by {}
    assert forall|q: int| 0 <= q < p implies #[trigger] opening(s, g, q) == opening(t, g, q) by {
        assert(s[q] == t[q]);
        assert(lex(t, 0, q) == lex(s, 0, q));
        if opens(s, q) {
            lemma_tag_same(c, d, q, p, "net"@);
            lemma_tag_same(d, c, q, p, "net"@);
        }
    }
    lemma_same_openings(s, t, g, p);
    assert forall|q: int| p <= q < s.len() implies !#[trigger] opening(s, g, q) by {
        if q > p {
            assert(blank(s[q]));
        }
    }
    lemma_no_openings(s, g, p, s.len() as int);
    assert forall|q: int| p <= q < a implies !#[trigger] opening(t, g, q) by {
        assert(t[q] == l[q - p]);
    }
    lemma_no_openings(t, g, p, a);
    assert(t.subrange(a, b) =~= bl);
    assert(opening(t, g, a)) by {
        assert(t[a] == bl[0]);
        assert(lex(t, 0, a) == lex(s, 0, p));
        lemma_block_tag(block, d, a, "net"@);
    }
    assert forall|q: int| a + 1 <= q < t.len() implies !#[trigger] opening(t, g, q) by {
        if q < b {
            lemma_entry_is_flat(code, name, t, a, q);
        } else if q > b {
            assert(blank(t[q]));
        }
    }
    lemma_no_openings(t, g, a + 1, t.len() as int);
    law_block_starts(s, g, s.len() as int);
    let starts = net_starts(s);
    assert forall|i: int| 0 <= i < starts.len() implies entry_before(s, #[trigger] starts[i], p) by {
        let q = starts[i];
        assert(starts.contains(q));
        assert(opening(s, g, q));
        lemma_entry_inside(c, q);
    }
}

/// A `(net …)` block opens at `q` and closes at or before `p`.
spec fn entry_before(s: Seq<u8>, q: int, p: int) -> bool {
    &&& tag_opens(s, q, bytes("net"@))
    &&& block_end(s, q).is_some()
    &&& closes_at(s, q, block_end(s, q).unwrap())
    &&& block_end(s, q).unwrap() <= p
}

/// The entries of a board are inside its root.
proof fn lemma_entry_inside(c: Seq<char>, q: int)
    requires
        is_document(bytes(c), bytes("kicad_pcb"@)),
        opens(bytes(c), q),
        tag_opens(bytes(c), q, bytes("net"@)),
    ensures
        entry_before(bytes(c), q, root_close(bytes(c)).unwrap()),
{
    let s = bytes(c);
    lemma_root(s, bytes("kicad_pcb"@));
    let root = skip_blank(s, 0);
    let e = block_end(s, root).unwrap();
    let p = e - 1;
    reveal_strlit("net");
    reveal_strlit("kicad_pcb");
    lemma_bytes_ascii("net"@);
    lemma_bytes_ascii("kicad_pcb"@);
    let g = bytes("net"@);
    let k = bytes("kicad_pcb"@);
    if q < root {
        assert(blank(s[q]));
    }
    if q == root {
        assert(s.subrange(q + 1, q + 1 + g.len())[0] == g[0]);
        assert(s.subrange(q + 1, q + 1 + k.len())[0] == k[0]);
        assert(g[0] == 110 && k[0] == 107);
    }
    if q >= e {
        assert(blank(s[q]));
    }
    assert(lex(s, 0, q) == lex(s, root, q));
    lemma_inner_closes(s, root, e, q);
}

// ─── The law ─────────────────────────────────────────────────────────────────

proof fn lemma_run_bounds(s: Seq<u8>, k: int)
    requires
        0 <= k <= s.len(),
    ensures
        0 <= digit_run(s, k) <= s.len() - k,
    decreases s.len() - k,
{
    if k < s.len() && digit(s[k]) {
        lemma_run_bounds(s, k + 1);
    }
}

/// A declared code is no negative number.
proof fn lemma_code_is_natural(s: Seq<u8>, p: int)
    ensures
        declared_code(s, p) matches Some(c) ==> 0 <= c,
{
    let h = net_head(s, p);
    let d = net_digits(s, p);
    lemma_run_bounds(h, 0);
    if d.len() > 0 {
        assert(digit(h[0]));
        assert(d[0] == h[0]);
    }
}

proof fn lemma_highest_is_natural(s: Seq<u8>, starts: Seq<int>, n: int)
    ensures
        highest_code(s, starts, n) matches Some(h) ==> 0 <= h,
    decreases n,
{
    if n > 0 {
        lemma_highest_is_natural(s, starts, n - 1);
        lemma_code_is_natural(s, starts[n - 1]);
    }
}

proof fn lemma_highest_same(s: Seq<u8>, t: Seq<u8>, starts: Seq<int>, a: int, n: int)
    requires
        0 <= n <= starts.len(),
        forall|i: int|
            0 <= i < starts.len() ==> declared_code(s, #[trigger] starts[i]) == declared_code(t, starts[i]),
    ensures
        highest_code(t, starts.push(a), n) == highest_code(s, starts, n),
    decreases n,
{
    if n > 0 {
        lemma_highest_same(s, t, starts, a, n - 1);
        assert(starts.push(a)[n - 1] == starts[n - 1]);
    }
}

proof fn lemma_numbered_after(s: Seq<u8>, t: Seq<u8>, starts: Seq<int>, a: int, m: Seq<char>, k: int)
    requires
        0 <= k <= starts.len(),
        forall|i: int|
            0 <= i < starts.len() ==> numbered_match(s, #[trigger] starts[i], m) == numbered_match(
                t,
                starts[i],
                m,
            ),
    ensures
        first_numbered(t, starts.push(a), m, k) == match first_numbered(s, starts, m, k) {
            Some(x) => Some(x),
            None => numbered_match(t, a, m),
        },
    decreases starts.len() - k,
{
    if k < starts.len() {
        assert(starts.push(a)[k] == starts[k]);
        lemma_numbered_after(s, t, starts, a, m, k + 1);
    } else {
        assert(starts.push(a)[k] == a);
        assert(first_numbered(t, starts.push(a), m, k + 1).is_none());
    }
}

/// What the entries of a board declare once one more stands behind them.
proof fn lemma_entries_after(c: Seq<char>, code: int, name: Seq<char>, m: Seq<char>)
    requires
        is_document(bytes(c), bytes("kicad_pcb"@)),
        0 <= code <= i32::MAX,
        is_plain(name),
        is_plain(m),
    ensures
        ({
            let s = bytes(c);
            let p = root_close(s).unwrap();
            let t = put_in(s, p, bytes("\n  "@ + net_entry(code, name)));
            let starts = net_starts(s);
            &&& net_starts(t) == starts.push(p + 3)
            &&& forall|i: int|
                0 <= i < starts.len() ==> {
                    &&& numbered_match(s, #[trigger] starts[i], m) == numbered_match(t, starts[i], m)
                    &&& named_match(s, starts[i], m) == named_match(t, starts[i], m)
                    &&& declared_code(s, starts[i]) == declared_code(t, starts[i])
                }
            &&& numbered_match(t, p + 3, m) == if name == m {
                Some(code)
            } else {
                None
            }
            &&& !named_match(t, p + 3, m)
            &&& declared_code(t, p + 3) == Some(code)
        }),
{
    let s = bytes(c);
    let p = root_close(s).unwrap();
    let lead = "\n  "@;
    let block = net_entry(code, name);
    let t = put_in(s, p, bytes(lead + block));
    let starts = net_starts(s);
    let g = bytes("net"@);
    lemma_starts_after(c, code, name);
    lemma_root(s, bytes("kicad_pcb"@));
    lemma_ascii_boundary(c, p);
    lemma_put_in_text(c, p, lead + block);
    let d = text_of(s.subrange(0, p)) + (lead + block) + text_of(s.subrange(p, s.len() as int));
    assert(bytes(d) == t);
    law_block_starts(t, g, t.len() as int);
    assert forall|i: int| 0 <= i < starts.len() implies {
        &&& numbered_match(s, #[trigger] starts[i], m) == numbered_match(t, starts[i], m)
        &&& named_match(s, starts[i], m) == named_match(t, starts[i], m)
        &&& declared_code(s, starts[i]) == declared_code(t, starts[i])
    } by {
        let q = starts[i];
        assert(entry_before(s, q, p));
        let f = block_end(s, q).unwrap();
        assert forall|k: int| q <= k < f implies #[trigger] s[k] == t[k + 0] by {}
        lemma_block_moved(s, t, q, f, 0);
        assert(net_starts(t)[i] == q);
        assert(net_starts(t).contains(q));
        lemma_entry_at(c, q, f, m);
        lemma_entry_at(d, q, f, m);
        assert(s.subrange(q, f) =~= t.subrange(q, f));
    }
    assert(net_starts(t)[starts.len() as int] == p + 3);
    assert(net_starts(t).contains(p + 3));
    lemma_entry_at(d, p + 3, p + 3 + bytes(block).len(), m);
    lemma_entry_declares(code, name, m);
}

/// The net that a name denotes once one more entry stands behind the others.
proof fn lemma_net_after(c: Seq<char>, code: int, name: Seq<char>, m: Seq<char>)
    requires
        is_document(bytes(c), bytes("kicad_pcb"@)),
        0 <= code <= i32::MAX,
        is_plain(name),
        is_plain(m),
    ensures
        ({
            let s = bytes(c);
            let t = put_in(s, root_close(s).unwrap(), bytes("\n  "@ + net_entry(code, name)));
            &&& m != name ==> net_on_board(t, m) == net_on_board(s, m)
            &&& m == name && net_on_board(s, m).is_none() ==> net_on_board(t, m) == Some(
                Net::Numbered(code, name),
            )
        }),
{
    let s = bytes(c);
    let p = root_close(s).unwrap();
    let t = put_in(s, p, bytes("\n  "@ + net_entry(code, name)));
    let starts = net_starts(s);
    let all = net_starts(t);
    lemma_entries_after(c, code, name, m);
    lemma_numbered_after(s, t, starts, p + 3, m, 0);
    if exists|k: int| 0 <= k < starts.len() && named_match(s, #[trigger] starts[k], m) {
        let k = choose|k: int| 0 <= k < starts.len() && named_match(s, #[trigger] starts[k], m);
        assert(all[k] == starts[k]);
        assert(named_match(t, all[k], m));
    }
    if exists|k: int| 0 <= k < all.len() && named_match(t, #[trigger] all[k], m) {
        let k = choose|k: int| 0 <= k < all.len() && named_match(t, #[trigger] all[k], m);
        assert(k < starts.len()) by {
            if k == starts.len() {
                assert(all[k] == p + 3);
            }
        }
        assert(all[k] == starts[k]);
        assert(named_match(s, starts[k], m));
    }
}

/// A net that is added to a board is found there under its name, with the code it was
/// given, which is one above the highest that was in use. Every other net stays what
/// it was, and adding the net once more finds it.
///
/// The board must have a table with a code to spare and not have the net. The names
/// must need no escapes: what a name with a quote in it is found as depends on how the
/// file goes on.
pub proof fn law_added_net_is_found(c: Seq<char>, name: Seq<char>, board: Seq<char>)
    requires
        is_document(bytes(c), bytes("kicad_pcb"@)),
        is_plain(name),
        net_on_board(bytes(c), name).is_none(),
        highest_code(bytes(c), net_starts(bytes(c)), net_starts(bytes(c)).len() as int).is_some(),
        highest_code(bytes(c), net_starts(bytes(c)), net_starts(bytes(c)).len() as int).unwrap()
            < i32::MAX,
    ensures
        added_net(bytes(c), name, board) is Ok,
        ({
            let s = bytes(c);
            let h = highest_code(s, net_starts(s), net_starts(s).len() as int).unwrap();
            let (known, code, t) = added_net(s, name, board)->Ok_0;
            let net = Net::Numbered(code, name);
            &&& known.is_none()
            &&& code == h + 1
            &&& net_on_board(t, name) == Some(net)
            &&& added_net(t, name, board) == Ok::<(Option<Net>, int, Seq<u8>), Seq<char>>(
                (Some(net), 0, t),
            )
            &&& highest_code(t, net_starts(t), net_starts(t).len() as int) == Some(code)
            &&& forall|m: Seq<char>|
                is_plain(m) && m != name ==> #[trigger] net_on_board(t, m) == net_on_board(s, m)
        }),
{
    let s = bytes(c);
    let starts = net_starts(s);
    let n = starts.len() as int;
    let h = highest_code(s, starts, n).unwrap();
    let code = h + 1;
    lemma_highest_is_natural(s, starts, n);
    reveal_strlit("\n  (net ");
    reveal_strlit("\n  ");
    reveal_strlit("(net ");
    assert(net_entry_text(code, name) =~= "\n  "@ + net_entry(code, name));
    lemma_kicad_pcb();
    lemma_leads();
    lemma_entry_block(code, name);
    lemma_item_put(c, "kicad_pcb"@, "\n  "@, net_entry(code, name));
    let p = root_close(s).unwrap();
    let ins = bytes("\n  "@ + net_entry(code, name));
    let t = put_in(s, p, ins);
    assert(edits_fit(s, seq![Splice { start: p, end: p, bytes: ins }]));
    assert(with_item(s, net_entry_text(code, name), board) == Ok::<Seq<u8>, Seq<char>>(t));
    lemma_net_after(c, code, name, name);
    assert forall|m: Seq<char>| is_plain(m) && m != name implies #[trigger] net_on_board(t, m)
        == net_on_board(s, m) by {
        lemma_net_after(c, code, name, m);
    }
    lemma_entries_after(c, code, name, name);
    lemma_highest_same(s, t, starts, p + 3, n);
    assert(starts.push(p + 3)[n] == p + 3);
}

} // verus!
