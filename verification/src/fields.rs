//! The small blocks that items are made of: a tag with a word, a pair of words or
//! a quoted text.

#[allow(unused_imports)]
use crate::grammar::{
    is_plain, is_word, lemma_listing_blank, lemma_listing_closes, lemma_listing_node,
    lemma_listing_opens, lemma_listing_word, lemma_reads_plain, listing, reads_node,
};
#[allow(unused_imports)]
use crate::scan::OPEN;
#[allow(unused_imports)]
use crate::sexp::Sexp;
#[allow(unused_imports)]
use crate::text::{bytes, put};
use vstd::prelude::*;
use vstd::string::*;
use vstd::utf8::*;

verus! {

/// `(tag word)`.
pub open spec fn word_field(tag: Seq<char>, w: Seq<char>) -> Seq<char> {
    "("@ + tag + " "@ + w + ")"@
}

/// `(tag a b)`.
pub open spec fn pair_field(tag: Seq<char>, a: Seq<char>, b: Seq<char>) -> Seq<char> {
    "("@ + tag + " "@ + a + " "@ + b + ")"@
}

/// `(tag "text")`, the text as it is.
pub open spec fn text_field(tag: Seq<char>, t: Seq<char>) -> Seq<char> {
    "("@ + tag + " "@ + in_marks(t) + ")"@
}

/// `(tag "a" "b")`, the texts as they are.
pub open spec fn texts_field(tag: Seq<char>, a: Seq<char>, b: Seq<char>) -> Seq<char> {
    "("@ + tag + " "@ + in_marks(a) + " "@ + in_marks(b) + ")"@
}

/// A text between quotes, as it is.
pub open spec fn in_marks(t: Seq<char>) -> Seq<char> {
    "\""@ + t + "\""@
}

/// Writes `(tag word)`.
pub fn put_word_field(out: &mut String, tag: &str, w: &str)
    ensures
        final(out)@ == old(out)@ + word_field(tag@, w@),
{
    let ghost was = out@;
    put(out, "(");
    put(out, tag);
    put(out, " ");
    put(out, w);
    put(out, ")");
    assert(out@ =~= was + word_field(tag@, w@));
}

/// Writes `(tag a b)`.
pub fn put_pair_field(out: &mut String, tag: &str, a: &str, b: &str)
    ensures
        final(out)@ == old(out)@ + pair_field(tag@, a@, b@),
{
    let ghost was = out@;
    put(out, "(");
    put(out, tag);
    put(out, " ");
    put(out, a);
    put(out, " ");
    put(out, b);
    put(out, ")");
    assert(out@ =~= was + pair_field(tag@, a@, b@));
}

fn put_in_marks(out: &mut String, t: &str)
    ensures
        final(out)@ == old(out)@ + in_marks(t@),
{
    let ghost was = out@;
    put(out, "\"");
    put(out, t);
    put(out, "\"");
    assert(out@ =~= was + in_marks(t@));
}

/// Writes `(tag "text")`.
pub fn put_text_field(out: &mut String, tag: &str, t: &str)
    ensures
        final(out)@ == old(out)@ + text_field(tag@, t@),
{
    let ghost was = out@;
    put(out, "(");
    put(out, tag);
    put(out, " ");
    put_in_marks(out, t);
    put(out, ")");
    assert(out@ =~= was + text_field(tag@, t@));
}

/// Writes `(tag "a" "b")`.
pub fn put_texts_field(out: &mut String, tag: &str, a: &str, b: &str)
    ensures
        final(out)@ == old(out)@ + texts_field(tag@, a@, b@),
{
    let ghost was = out@;
    put(out, "(");
    put(out, tag);
    put(out, " ");
    put_in_marks(out, a);
    put(out, " ");
    put_in_marks(out, b);
    put(out, ")");
    assert(out@ =~= was + texts_field(tag@, a@, b@));
}

// ─── How fields read ─────────────────────────────────────────────────────────

/// A text that reads as this expression, and is a block.
pub open spec fn is_block_of(t: Seq<char>, n: Sexp) -> bool {
    reads_node(bytes(t), n) && bytes(t).len() > 0 && bytes(t)[0] == OPEN
}

proof fn lemma_signs()
    ensures
        "("@ == seq!['('],
        ")"@ == seq![')'],
        " "@ == seq![' '],
        "\""@ == seq!['"'],
{
    reveal_strlit("(");
    reveal_strlit(")");
    reveal_strlit(" ");
    reveal_strlit("\"");
    assert("("@ =~= seq!['(']);
    assert(")"@ =~= seq![')']);
    assert(" "@ =~= seq![' ']);
    assert("\""@ =~= seq!['"']);
}

proof fn lemma_tag_and_space(tag: Seq<char>)
    requires
        is_word(tag),
    ensures
        listing("("@ + tag + " "@, seq![Sexp::Atom(tag)], true),
{
    lemma_signs();
    lemma_listing_opens(tag);
    lemma_listing_blank("("@ + tag, seq![Sexp::Atom(tag)], false, " "@);
}

/// How `(tag word)` reads.
pub proof fn lemma_word_field(tag: Seq<char>, w: Seq<char>)
    requires
        is_word(tag),
        is_word(w),
    ensures
        is_block_of(word_field(tag, w), Sexp::List(seq![Sexp::Atom(tag), Sexp::Atom(w)])),
{
    lemma_signs();
    lemma_tag_and_space(tag);
    lemma_listing_word("("@ + tag + " "@, seq![Sexp::Atom(tag)], w);
    let ns = seq![Sexp::Atom(tag)].push(Sexp::Atom(w));
    lemma_listing_closes("("@ + tag + " "@ + w, ns, false);
    assert(ns =~= seq![Sexp::Atom(tag), Sexp::Atom(w)]);
}

/// How `(tag a b)` reads.
pub proof fn lemma_pair_field(tag: Seq<char>, a: Seq<char>, b: Seq<char>)
    requires
        is_word(tag),
        is_word(a),
        is_word(b),
    ensures
        is_block_of(
            pair_field(tag, a, b),
            Sexp::List(seq![Sexp::Atom(tag), Sexp::Atom(a), Sexp::Atom(b)]),
        ),
{
    lemma_signs();
    lemma_tag_and_space(tag);
    let t = "("@ + tag + " "@;
    lemma_listing_word(t, seq![Sexp::Atom(tag)], a);
    let x = seq![Sexp::Atom(tag)].push(Sexp::Atom(a));
    lemma_listing_blank(t + a, x, false, " "@);
    lemma_listing_word(t + a + " "@, x, b);
    lemma_listing_closes(t + a + " "@ + b, x.push(Sexp::Atom(b)), false);
    assert(x.push(Sexp::Atom(b)) =~= seq![Sexp::Atom(tag), Sexp::Atom(a), Sexp::Atom(b)]);
}

/// How `(tag "text")` reads.
pub proof fn lemma_text_field(tag: Seq<char>, t: Seq<char>)
    requires
        is_word(tag),
        is_plain(t),
    ensures
        is_block_of(text_field(tag, t), Sexp::List(seq![Sexp::Atom(tag), Sexp::Str(t)])),
{
    lemma_signs();
    lemma_tag_and_space(tag);
    lemma_reads_plain(t);
    let h = "("@ + tag + " "@;
    lemma_listing_node(h, seq![Sexp::Atom(tag)], true, in_marks(t), Sexp::Str(t));
    let ns = seq![Sexp::Atom(tag)].push(Sexp::Str(t));
    lemma_listing_closes(h + in_marks(t), ns, true);
    assert(ns =~= seq![Sexp::Atom(tag), Sexp::Str(t)]);
}

/// How `(tag "a" "b")` reads.
pub proof fn lemma_texts_field(tag: Seq<char>, a: Seq<char>, b: Seq<char>)
    requires
        is_word(tag),
        is_plain(a),
        is_plain(b),
    ensures
        is_block_of(
            texts_field(tag, a, b),
            Sexp::List(seq![Sexp::Atom(tag), Sexp::Str(a), Sexp::Str(b)]),
        ),
{
    lemma_signs();
    lemma_tag_and_space(tag);
    lemma_reads_plain(a);
    lemma_reads_plain(b);
    let h = "("@ + tag + " "@;
    lemma_listing_node(h, seq![Sexp::Atom(tag)], true, in_marks(a), Sexp::Str(a));
    let x = seq![Sexp::Atom(tag)].push(Sexp::Str(a));
    lemma_listing_blank(h + in_marks(a), x, true, " "@);
    lemma_listing_node(h + in_marks(a) + " "@, x, true, in_marks(b), Sexp::Str(b));
    lemma_listing_closes(h + in_marks(a) + " "@ + in_marks(b), x.push(Sexp::Str(b)), true);
    assert(x.push(Sexp::Str(b)) =~= seq![Sexp::Atom(tag), Sexp::Str(a), Sexp::Str(b)]);
}

/// A block added to a list after white space.
pub proof fn lemma_listing_block(
    t: Seq<char>,
    x: Seq<Sexp>,
    la: bool,
    lead: Seq<char>,
    block: Seq<char>,
    n: Sexp,
)
    requires
        listing(t, x, la),
        is_blank_text(lead),
        is_block_of(block, n),
    ensures
        listing(t + lead + block, x.push(n), true),
{
    lemma_listing_blank(t, x, la, lead);
    lemma_listing_node(t + lead, x, true, block, n);
}

/// Spaces, tabs and line breaks, at least one.
pub open spec fn is_blank_text(t: Seq<char>) -> bool {
    &&& t.len() > 0
    &&& is_ascii_chars(t)
    &&& forall|k: int| 0 <= k < t.len() ==> #[trigger] t[k] == ' ' || t[k] == '\n' || t[k] == '\t'
}

/// A text of letters, digits and underscores is a word.
pub proof fn lemma_tag_is_word(t: Seq<char>)
    requires
        t.len() > 0,
        forall|k: int| 0 <= k < t.len() ==> crate::placing::tag_char(#[trigger] t[k]),
    ensures
        is_word(t),
        crate::placing::is_tag(t),
{
    crate::placing::lemma_tag_chars(t);
    crate::text::lemma_bytes_ascii(t);
    assert forall|k: int| 0 <= k < bytes(t).len() implies !crate::sexp::ends_atom(
        #[trigger] bytes(t)[k],
    ) by {
        assert(crate::blocks::tag_byte(bytes(t)[k]));
    }
}

} // verus!
