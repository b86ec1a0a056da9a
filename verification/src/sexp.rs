//! S-expression trees.

#[allow(unused_imports)]
use crate::chars::{blank, is_blank};
use crate::scan::{BACKSLASH, CLOSE, OPEN, QUOTE};
#[allow(unused_imports)]
use crate::text::{
    boundary, byte_at, bytes, copy, lemma_ascii_boundary, lemma_bytes_valid, lemma_ends, length, put,
    same, slice, text_of,
};
use vstd::prelude::*;
use vstd::string::*;

verus! {

// ─── Quoted strings ──────────────────────────────────────────────────────────

/// Whether the byte at `to`, in a string whose text begins at `from`, has a
/// backslash before it that takes it.
pub open spec fn escaped(s: Seq<u8>, from: int, to: int) -> bool
    decreases to - from,
{
    to > from && s[to - 1] == BACKSLASH && !escaped(s, from, to - 1)
}

/// The bytes of the string text `from..to` with its escapes resolved: a
/// backslash stands for nothing and the byte after it for itself.
pub open spec fn unescaped(s: Seq<u8>, from: int, to: int) -> Seq<u8>
    decreases to - from,
{
    if to <= from {
        Seq::empty()
    } else if s[to - 1] == BACKSLASH && !escaped(s, from, to - 1) {
        unescaped(s, from, to - 1)
    } else {
        unescaped(s, from, to - 1).push(s[to - 1])
    }
}

/// The first quote in `i..stop` that ends a string whose text begins at `from`.
pub open spec fn string_close(s: Seq<u8>, from: int, i: int, stop: int) -> Option<int>
    decreases stop - i,
{
    if i >= stop {
        None
    } else if s[i] == QUOTE && !escaped(s, from, i) {
        Some(i)
    } else {
        string_close(s, from, i + 1, stop)
    }
}

/// The quote that ends the string whose text begins at `from`.
pub open spec fn value_end(s: Seq<u8>, from: int) -> Option<int> {
    string_close(s, from, from, s.len() as int)
}

/// Find the quote that ends the string whose text begins at `from`. A quote behind a
/// backslash does not end it.
pub fn find_value_end(content: &str, from: usize) -> (r: Option<usize>)
    requires
        from <= bytes(content@).len(),
    ensures
        match r {
            Some(e) => value_end(bytes(content@), from as int) == Some(e as int) && from <= e < bytes(
                content@,
            ).len() && bytes(content@)[e as int] == QUOTE,
            None => value_end(bytes(content@), from as int).is_none(),
        },
{
    let ghost s = bytes(content@);
    let n = length(content);
    let mut i: usize = from;
    let mut esc = false;
    while i < n
        invariant
            s == bytes(content@),
            n == s.len(),
            from <= i <= n,
            esc == escaped(s, from as int, i as int),
            value_end(s, from as int) == string_close(s, from as int, i as int, n as int),
        decreases n - i,
    {
        let b = byte_at(content, i);
        if b == QUOTE && !esc {
            return Some(i);
        }
        esc = b == BACKSLASH && !esc;
        i += 1;
    }
    None
}

/// Read the string whose opening quote is at `open`, looking no further than
/// `stop`: its text with the escapes resolved, and the offset of its closing
/// quote.
pub fn read_string(content: &str, open: usize, stop: usize) -> (r: Option<(String, usize)>)
    requires
        open < stop <= bytes(content@).len(),
        bytes(content@)[open as int] == QUOTE,
    ensures
        ({
            let s = bytes(content@);
            match r {
                Some((text, e)) => {
                    &&& string_close(s, open + 1, open + 1, stop as int) == Some(e as int)
                    &&& open < e < stop
                    &&& s[e as int] == QUOTE
                    &&& bytes(text@) == unescaped(s, open + 1, e as int)
                    &&& text@ == text_of(unescaped(s, open + 1, e as int))
                },
                None => string_close(s, open + 1, open + 1, stop as int).is_none(),
            }
        }),
{
    let ghost s = bytes(content@);
    let ghost from = open + 1;
    let mut out = String::new();
    let mut piece: usize = open + 1;
    let mut i: usize = open + 1;
    let mut esc = false;
    proof {
        lemma_ascii_boundary(content@, open as int);
        assert(bytes(out@) =~= Seq::<u8>::empty());
        assert(bytes(out@) + s.subrange(piece as int, i as int) =~= unescaped(s, from, from));
    }
    while i < stop
        invariant
            s == bytes(content@),
            from == open + 1,
            from <= piece <= i,
            piece <= i <= stop <= s.len(),
            boundary(s, piece as int),
            esc == escaped(s, from, i as int),
            bytes(out@) + s.subrange(piece as int, i as int) == unescaped(s, from, i as int),
            string_close(s, from, from, stop as int) == string_close(s, from, i as int, stop as int),
        decreases stop - i,
    {
        let b = byte_at(content, i);
        if b == QUOTE && !esc {
            proof {
                lemma_ascii_boundary(content@, i as int);
            }
            let ghost was = bytes(out@);
            put(&mut out, slice(content, piece, i));
            proof {
                assert(bytes(out@) == unescaped(s, from, i as int));
                lemma_bytes_valid(out@);
            }
            return Some((out, i));
        }
        if b == BACKSLASH && !esc {
            proof {
                lemma_ascii_boundary(content@, i as int);
            }
            put(&mut out, slice(content, piece, i));
            piece = i + 1;
            esc = true;
            assert(bytes(out@) + s.subrange(i + 1, i + 1) =~= unescaped(s, from, i as int));
        } else {
            esc = false;
            assert(s.subrange(piece as int, i + 1) =~= s.subrange(piece as int, i as int).push(b));
            assert(bytes(out@) + s.subrange(piece as int, i + 1) =~= (bytes(out@) + s.subrange(
                piece as int,
                i as int,
            )).push(b));
        }
        i += 1;
    }
    None
}

/// Between quotes the name is one string: each quote in it is escaped, and the quote
/// behind it is not.
pub open spec fn is_quotable(name: Seq<u8>) -> bool {
    &&& forall|k: int| 0 <= k < name.len() && #[trigger] name[k] == QUOTE ==> escaped(name, 0, k)
    &&& !escaped(name, 0, name.len() as int)
}

/// What a name reads as between quotes, where it stands with its escapes.
pub open spec fn read_name(name: Seq<char>) -> Seq<char> {
    text_of(unescaped(bytes(name), 0, bytes(name).len() as int))
}

/// Read a name that is written with its escapes.
pub fn resolve_escapes(name: &str) -> (r: String)
    ensures
        r@ == read_name(name@),
{
    let ghost s = bytes(name@);
    let n = length(name);
    let mut out = String::new();
    let mut piece: usize = 0;
    let mut i: usize = 0;
    let mut esc = false;
    proof {
        lemma_ends(name@);
        assert(bytes(out@) =~= Seq::<u8>::empty());
        assert(bytes(out@) + s.subrange(0, 0) =~= unescaped(s, 0, 0));
    }
    while i < n
        invariant
            s == bytes(name@),
            n == s.len(),
            piece <= i <= n,
            boundary(s, piece as int),
            esc == escaped(s, 0, i as int),
            bytes(out@) + s.subrange(piece as int, i as int) == unescaped(s, 0, i as int),
        decreases n - i,
    {
        let b = byte_at(name, i);
        if b == BACKSLASH && !esc {
            proof {
                lemma_ascii_boundary(name@, i as int);
            }
            put(&mut out, slice(name, piece, i));
            piece = i + 1;
            esc = true;
            assert(bytes(out@) + s.subrange(i + 1, i + 1) =~= unescaped(s, 0, i as int));
        } else {
            esc = false;
            assert(s.subrange(piece as int, i + 1) =~= s.subrange(piece as int, i as int).push(b));
            assert(bytes(out@) + s.subrange(piece as int, i + 1) =~= (bytes(out@) + s.subrange(
                piece as int,
                i as int,
            )).push(b));
        }
        i += 1;
    }
    proof {
        lemma_ends(name@);
    }
    put(&mut out, slice(name, piece, n));
    proof {
        assert(bytes(out@) == unescaped(s, 0, n as int));
        lemma_bytes_valid(out@);
    }
    out
}

/// `text` as a quoted string: quotes and backslashes get a backslash.
pub open spec fn quoted_text(text: Seq<char>) -> Seq<char> {
    seq!['"'] + escape_text(text) + seq!['"']
}

/// `text` with a backslash before each quote and each backslash.
pub open spec fn escape_text(text: Seq<char>) -> Seq<char>
    decreases text.len(),
{
    if text.len() == 0 {
        Seq::empty()
    } else {
        let c = text.last();
        let front = escape_text(text.drop_last());
        if c == '"' || c == '\\' {
            front.push('\\').push(c)
        } else {
            front.push(c)
        }
    }
}

// ─── Trees ───────────────────────────────────────────────────────────────────

/// A node of an S-expression.
#[derive(Debug)]
pub enum SexpNode {
    /// A bare word or number.
    Atom(String),
    /// A quoted string, its escapes resolved.
    Str(String),
    /// A parenthesised list.
    List(Vec<SexpNode>),
}

/// An S-expression as a value.
pub enum Sexp {
    Atom(Seq<char>),
    Str(Seq<char>),
    List(Seq<Sexp>),
}

/// The values of a list of nodes.
pub open spec fn models(v: Seq<SexpNode>) -> Seq<Sexp>
    decreases v,
{
    if v.len() == 0 {
        Seq::empty()
    } else {
        models(v.drop_last()).push(v.last().model())
    }
}

impl SexpNode {
    /// This node as a value.
    pub open spec fn model(&self) -> Sexp
        decreases self,
    {
        match self {
            SexpNode::Atom(t) => Sexp::Atom(t@),
            SexpNode::Str(t) => Sexp::Str(t@),
            SexpNode::List(v) => Sexp::List(models(v@)),
        }
    }
}

impl SexpNode {
    /// A copy of this node.
    pub fn duplicate(&self) -> (r: SexpNode)
        ensures
            r.model() == self.model(),
        decreases self,
    {
        match self {
            SexpNode::Atom(t) => SexpNode::Atom(t.clone()),
            SexpNode::Str(t) => SexpNode::Str(t.clone()),
            SexpNode::List(v) => {
                let mut out: Vec<SexpNode> = Vec::new();
                let mut i: usize = 0;
                while i < v.len()
                    invariant
                        i <= v.len(),
                        self == SexpNode::List(*v),
                        models(out@) == models(v@.take(i as int)),
                    decreases v.len() - i,
                {
                    proof {
                        assert(decreases_to!(self => self->List_0));
                        assert(decreases_to!(self->List_0 => self->List_0[i as int]));
                    }
                    let n = v[i].duplicate();
                    proof {
                        lemma_models_push(out@, n);
                        assert(v@.take(i + 1).drop_last() =~= v@.take(i as int));
                    }
                    out.push(n);
                    i += 1;
                }
                assert(v@.take(i as int) =~= v@);
                SexpNode::List(out)
            },
        }
    }
}

/// The values of a list of nodes are the values of its nodes.
pub proof fn lemma_models(v: Seq<SexpNode>)
    ensures
        models(v).len() == v.len(),
        forall|i: int| 0 <= i < v.len() ==> #[trigger] models(v)[i] == v[i].model(),
    decreases v.len(),
{
    if v.len() > 0 {
        lemma_models(v.drop_last());
        assert forall|i: int| 0 <= i < v.len() implies #[trigger] models(v)[i] == v[i].model() by {
            if i < v.len() - 1 {
                assert(models(v.drop_last())[i] == v.drop_last()[i].model());
            }
        }
    }
}

/// Pushing a node pushes its value.
pub proof fn lemma_models_push(v: Seq<SexpNode>, n: SexpNode)
    ensures
        models(v.push(n)) == models(v).push(n.model()),
{
    assert(v.push(n).drop_last() =~= v);
}


// ─── Parsing ─────────────────────────────────────────────────────────────────

/// Why text is not an S-expression.
#[derive(Clone, Copy, Debug, PartialEq, Eq, Structural)]
pub enum ParseError {
    /// There is nothing but white space.
    Empty,
    /// A `)` stands where an expression should begin.
    UnexpectedClose,
    /// A list never closes.
    UnterminatedList,
    /// A string never closes.
    UnterminatedString,
}

/// A byte that ends a bare word.
pub open spec fn ends_atom(b: u8) -> bool {
    blank(b) || b == OPEN || b == CLOSE || b == QUOTE
}

/// Where the bare word at `i` ends.
pub open spec fn atom_end(s: Seq<u8>, i: int) -> int
    decreases s.len() - i,
{
    if 0 <= i < s.len() && !ends_atom(s[i]) {
        atom_end(s, i + 1)
    } else {
        i
    }
}

/// The expression that begins at `i`, and where it ends.
pub open spec fn parse_node(s: Seq<u8>, i: int) -> Result<(Sexp, int), ParseError>
    decreases s.len() - i, 0int,
{
    if i < 0 || i >= s.len() {
        Err(ParseError::Empty)
    } else if s[i] == OPEN {
        match parse_items(s, i + 1) {
            Ok((items, j)) => Ok((Sexp::List(items), j)),
            Err(e) => Err(e),
        }
    } else if s[i] == CLOSE {
        Err(ParseError::UnexpectedClose)
    } else if s[i] == QUOTE {
        match string_close(s, i + 1, i + 1, s.len() as int) {
            Some(e) => Ok((Sexp::Str(text_of(unescaped(s, i + 1, e))), e + 1)),
            None => Err(ParseError::UnterminatedString),
        }
    } else {
        let j = atom_end(s, i);
        Ok((Sexp::Atom(text_of(s.subrange(i, j))), j))
    }
}

/// The expressions from `i` up to the `)` that closes their list, and where that
/// ends.
pub open spec fn parse_items(s: Seq<u8>, i: int) -> Result<(Seq<Sexp>, int), ParseError>
    decreases s.len() - i, 1int,
{
    if i < 0 || i >= s.len() {
        Err(ParseError::UnterminatedList)
    } else if blank(s[i]) {
        parse_items(s, i + 1)
    } else if s[i] == CLOSE {
        Ok((Seq::empty(), i + 1))
    } else {
        match parse_node(s, i) {
            Err(e) => Err(e),
            Ok((n, j)) => if j <= i || j > s.len() {
                Err(ParseError::UnterminatedList)
            } else {
                match parse_items(s, j) {
                    Err(e) => Err(e),
                    Ok((rest, k)) => Ok((seq![n] + rest, k)),
                }
            },
        }
    }
}

/// The first expression of a text, after any white space.
pub open spec fn parse_text(s: Seq<u8>) -> Result<Sexp, ParseError> {
    match parse_node(s, crate::scan::skip_blank(s, 0)) {
        Ok((n, _)) => Ok(n),
        Err(e) => Err(e),
    }
}

/// Where the bare word at `i` ends.
fn find_atom_end(content: &str, i: usize) -> (r: usize)
    requires
        i < bytes(content@).len(),
        !ends_atom(bytes(content@)[i as int]),
    ensures
        r == atom_end(bytes(content@), i as int),
        i < r <= bytes(content@).len(),
        r < bytes(content@).len() ==> ends_atom(bytes(content@)[r as int]),
{
    let n = length(content);
    let mut k: usize = i + 1;
    while k < n
        invariant
            n == bytes(content@).len(),
            i < k <= n,
            atom_end(bytes(content@), i as int) == atom_end(bytes(content@), k as int),
        decreases n - k,
    {
        let b = byte_at(content, k);
        if is_blank(b) || b == OPEN || b == CLOSE || b == QUOTE {
            return k;
        }
        k += 1;
    }
    k
}

/// The expression that begins at byte `i`, and where it ends.
fn parse_one(content: &str, i: usize) -> (r: Result<(SexpNode, usize), ParseError>)
    requires
        i < bytes(content@).len(),
        !blank(bytes(content@)[i as int]),
        boundary(bytes(content@), i as int),
    ensures
        match r {
            Ok((n, j)) => {
                &&& parse_node(bytes(content@), i as int) == Ok::<(Sexp, int), ParseError>(
                    (n.model(), j as int),
                )
                &&& i < j <= bytes(content@).len()
                &&& boundary(bytes(content@), j as int)
            },
            Err(e) => parse_node(bytes(content@), i as int) == Err::<(Sexp, int), ParseError>(e),
        },
    decreases bytes(content@).len() - i,
{
    let ghost s = bytes(content@);
    let n = length(content);
    let b = byte_at(content, i);
    if b == OPEN {
        let mut items: Vec<SexpNode> = Vec::new();
        let mut k: usize = i + 1;
        proof {
            lemma_ascii_boundary(content@, i as int);
            assert(models(items@) =~= Seq::<Sexp>::empty());
            if let Ok((rest, e)) = parse_items(s, k as int) {
                assert(models(items@) + rest =~= rest);
            }
        }
        while k < n
            invariant
                s == bytes(content@),
                n == s.len(),
                i < k <= n,
                s[i as int] == OPEN,
                boundary(s, k as int),
                match parse_items(s, k as int) {
                    Ok((rest, e)) => parse_items(s, i + 1) == Ok::<(Seq<Sexp>, int), ParseError>(
                        (models(items@) + rest, e),
                    ),
                    Err(e) => parse_items(s, i + 1) == Err::<(Seq<Sexp>, int), ParseError>(e),
                },
            decreases n - k,
        {
            let c = byte_at(content, k);
            if is_blank(c) {
                proof {
                    lemma_ascii_boundary(content@, k as int);
                }
                k += 1;
            } else if c == CLOSE {
                proof {
                    lemma_ascii_boundary(content@, k as int);
                    assert(models(items@) + Seq::<Sexp>::empty() =~= models(items@));
                }
                return Ok((SexpNode::List(items), k + 1));
            } else {
                match parse_one(content, k) {
                    Err(e) => {
                        return Err(e);
                    },
                    Ok((node, j)) => {
                        let ghost was = models(items@);
                        proof {
                            lemma_models_push(items@, node);
                            if let Ok((rest, e)) = parse_items(s, j as int) {
                                assert(was + (seq![node.model()] + rest) =~= was.push(node.model())
                                    + rest);
                            }
                        }
                        items.push(node);
                        k = j;
                    },
                }
            }
        }
        Err(ParseError::UnterminatedList)
    } else if b == CLOSE {
        Err(ParseError::UnexpectedClose)
    } else if b == QUOTE {
        match read_string(content, i, n) {
            None => Err(ParseError::UnterminatedString),
            Some((text, e)) => {
                proof {
                    lemma_ascii_boundary(content@, e as int);
                }
                Ok((SexpNode::Str(text), e + 1))
            },
        }
    } else {
        let j = find_atom_end(content, i);
        proof {
            if j < n {
                lemma_ascii_boundary(content@, j as int);
            } else {
                lemma_ends(content@);
            }
        }
        Ok((SexpNode::Atom(copy(slice(content, i, j))), j))
    }
}


/// Parse the first expression of `content`. What follows it is not looked at.
pub fn parse_sexp(content: &str) -> (r: Result<SexpNode, ParseError>)
    ensures
        match r {
            Ok(n) => parse_text(bytes(content@)) == Ok::<Sexp, ParseError>(n.model()),
            Err(e) => parse_text(bytes(content@)) == Err::<Sexp, ParseError>(e),
        },
{
    let n = length(content);
    let i = crate::scan::skip_blanks(content, 0);
    if i >= n {
        return Err(ParseError::Empty);
    }
    proof {
        lemma_blank_boundary(content@, 0);
        lemma_skip_stops(bytes(content@), 0);
        lemma_ends(content@);
    }
    match parse_one(content, i) {
        Ok((node, _)) => Ok(node),
        Err(e) => Err(e),
    }
}

proof fn lemma_skip_stops(s: Seq<u8>, i: int)
    requires
        0 <= i,
    ensures
        crate::scan::skip_blank(s, i) < s.len() ==> !blank(s[crate::scan::skip_blank(s, i)]),
    decreases s.len() - i,
{
    if i < s.len() && blank(s[i]) {
        lemma_skip_stops(s, i + 1);
    }
}

/// White space may be cut off.
pub proof fn lemma_blank_boundary(t: Seq<char>, i: int)
    requires
        0 <= i <= bytes(t).len(),
        i == 0 || boundary(bytes(t), i),
    ensures
        boundary(bytes(t), crate::scan::skip_blank(bytes(t), i)),
    decreases bytes(t).len() - i,
{
    lemma_ends(t);
    if i < bytes(t).len() && blank(bytes(t)[i]) {
        lemma_ascii_boundary(t, i);
        lemma_blank_boundary(t, i + 1);
    }
}


// ─── Reading a tree ──────────────────────────────────────────────────────────

/// The text of a leaf.
pub open spec fn text_in(n: Sexp) -> Option<Seq<char>> {
    match n {
        Sexp::Atom(t) => Some(t),
        Sexp::Str(t) => Some(t),
        Sexp::List(_) => None,
    }
}

/// The nodes of a list; a leaf has none.
pub open spec fn items_in(n: Sexp) -> Seq<Sexp> {
    match n {
        Sexp::List(items) => items,
        _ => Seq::empty(),
    }
}

/// The tag of a list: the bare word it begins with.
pub open spec fn tag_in(n: Sexp) -> Option<Seq<char>> {
    if items_in(n).len() > 0 {
        match items_in(n)[0] {
            Sexp::Atom(t) => Some(t),
            _ => None,
        }
    } else {
        None
    }
}

/// The node at position `i` of a list.
pub open spec fn item_in(n: Sexp, i: int) -> Option<Sexp> {
    if 0 <= i < items_in(n).len() {
        Some(items_in(n)[i])
    } else {
        None
    }
}

/// The text at position `i` of a list.
pub open spec fn text_at(n: Sexp, i: int) -> Option<Seq<char>> {
    match item_in(n, i) {
        Some(c) => text_in(c),
        None => None,
    }
}

/// The first position at or after `from` of a node with the tag.
pub open spec fn tagged_at(items: Seq<Sexp>, tag: Seq<char>, from: int) -> Option<int>
    decreases items.len() - from,
{
    if from < 0 || from >= items.len() {
        None
    } else if tag_in(items[from]) == Some(tag) {
        Some(from)
    } else {
        tagged_at(items, tag, from + 1)
    }
}

/// The first node with the tag among those of a list.
pub open spec fn child_in(n: Sexp, tag: Seq<char>) -> Option<Sexp> {
    match tagged_at(items_in(n), tag, 0) {
        Some(i) => Some(items_in(n)[i]),
        None => None,
    }
}

/// The first node with the tag has it.
pub proof fn lemma_tagged_at(items: Seq<Sexp>, tag: Seq<char>, from: int)
    ensures
        match tagged_at(items, tag, from) {
            Some(i) => from <= i < items.len() && tag_in(items[i]) == Some(tag),
            None => true,
        },
    decreases items.len() - from,
{
    if 0 <= from < items.len() && tag_in(items[from]) != Some(tag) {
        lemma_tagged_at(items, tag, from + 1);
    }
}

/// The text after the tag of the first node with the tag.
pub open spec fn child_text(n: Sexp, tag: Seq<char>) -> Option<Seq<char>> {
    match child_in(n, tag) {
        Some(c) => text_at(c, 1),
        None => None,
    }
}

/// The nodes with the tag among the first `n` of `items`.
pub open spec fn all_tagged(items: Seq<Sexp>, tag: Seq<char>, n: int) -> Seq<Sexp>
    decreases n,
{
    if n <= 0 {
        Seq::empty()
    } else if tag_in(items[n - 1]) == Some(tag) {
        all_tagged(items, tag, n - 1).push(items[n - 1])
    } else {
        all_tagged(items, tag, n - 1)
    }
}

/// The nodes of a list that have the tag, in order.
pub open spec fn children_in(n: Sexp, tag: Seq<char>) -> Seq<Sexp> {
    all_tagged(items_in(n), tag, items_in(n).len() as int)
}

/// An optional text as a value.
pub open spec fn text_opt(t: Option<&str>) -> Option<Seq<char>> {
    match t {
        Some(x) => Some(x@),
        None => None,
    }
}

/// An optional string as a value.
pub open spec fn string_opt(t: Option<String>) -> Option<Seq<char>> {
    match t {
        Some(x) => Some(x@),
        None => None,
    }
}

/// An optional node as a value.
pub open spec fn node_opt(n: Option<&SexpNode>) -> Option<Sexp> {
    match n {
        Some(x) => Some(x.model()),
        None => None,
    }
}

/// The values of a list of borrowed nodes.
pub open spec fn node_refs(v: Seq<&SexpNode>) -> Seq<Sexp> {
    Seq::new(v.len(), |i: int| v[i].model())
}

/// A bare word.
pub fn atom(text: &str) -> (r: SexpNode)
    ensures
        r.model() == Sexp::Atom(text@),
{
    SexpNode::Atom(copy(text))
}

/// A quoted string.
pub fn qstr(text: &str) -> (r: SexpNode)
    ensures
        r.model() == Sexp::Str(text@),
{
    SexpNode::Str(copy(text))
}

/// Append a node to a list.
pub fn push_node(v: &mut Vec<SexpNode>, n: SexpNode)
    ensures
        models(final(v)@) == models(old(v)@).push(n.model()),
{
    proof {
        lemma_models_push(v@, n);
    }
    v.push(n);
}

/// A list of one tag and one node.
pub fn tagged(tag: &str, arg: SexpNode) -> (r: SexpNode)
    ensures
        r.model() == Sexp::List(seq![Sexp::Atom(tag@), arg.model()]),
{
    let mut v: Vec<SexpNode> = Vec::new();
    let a = atom(tag);
    proof {
        lemma_models_push(v@, a);
        lemma_models_push(v@.push(a), arg);
    }
    v.push(a);
    v.push(arg);
    assert(models(v@) =~= seq![Sexp::Atom(tag@), arg.model()]);
    SexpNode::List(v)
}

impl SexpNode {
    /// Whether this is a list.
    pub fn is_list(&self) -> (r: bool)
        ensures
            r == (self.model() is List),
    {
        match self {
            SexpNode::List(_) => true,
            _ => false,
        }
    }

    /// The text of a leaf.
    pub fn text(&self) -> (r: Option<&str>)
        ensures
            text_opt(r) == text_in(self.model()),
    {
        match self {
            SexpNode::Atom(t) => Some(t.as_str()),
            SexpNode::Str(t) => Some(t.as_str()),
            SexpNode::List(_) => None,
        }
    }

    /// How many nodes this list has.
    pub fn count(&self) -> (r: usize)
        ensures
            r == items_in(self.model()).len(),
    {
        match self {
            SexpNode::List(v) => {
                proof {
                    lemma_models(v@);
                }
                v.len()
            },
            _ => 0,
        }
    }

    /// The node at position `i`; the tag is at position 0.
    pub fn get(&self, i: usize) -> (r: Option<&SexpNode>)
        ensures
            node_opt(r) == item_in(self.model(), i as int),
    {
        match self {
            SexpNode::List(v) => {
                proof {
                    lemma_models(v@);
                }
                if i < v.len() {
                    Some(&v[i])
                } else {
                    None
                }
            },
            _ => None,
        }
    }

    /// The text at position `i`.
    pub fn text_at(&self, i: usize) -> (r: Option<&str>)
        ensures
            text_opt(r) == text_at(self.model(), i as int),
    {
        match self.get(i) {
            Some(c) => c.text(),
            None => None,
        }
    }

    /// The bare word this list begins with.
    pub fn tag(&self) -> (r: Option<&str>)
        ensures
            text_opt(r) == tag_in(self.model()),
    {
        match self.get(0) {
            Some(SexpNode::Atom(t)) => Some(t.as_str()),
            _ => None,
        }
    }

    /// Whether this is a list with the tag.
    pub fn has_tag(&self, tag: &str) -> (r: bool)
        ensures
            r == (tag_in(self.model()) == Some(tag@)),
    {
        match self.tag() {
            Some(t) => same(t, tag),
            None => false,
        }
    }

    /// The text after the tag.
    pub fn value(&self) -> (r: Option<&str>)
        ensures
            text_opt(r) == text_at(self.model(), 1),
    {
        self.text_at(1)
    }

    /// The first node with the tag.
    pub fn find(&self, tag: &str) -> (r: Option<&SexpNode>)
        ensures
            node_opt(r) == child_in(self.model(), tag@),
    {
        match self {
            SexpNode::List(v) => {
                proof {
                    lemma_models(v@);
                }
                let mut i: usize = 0;
                while i < v.len()
                    invariant
                        i <= v.len(),
                        self.model() == Sexp::List(models(v@)),
                        models(v@).len() == v.len(),
                        forall|k: int| 0 <= k < v.len() ==> #[trigger] models(v@)[k] == v[k].model(),
                        tagged_at(models(v@), tag@, 0) == tagged_at(models(v@), tag@, i as int),
                    decreases v.len() - i,
                {
                    assert(models(v@)[i as int] == v[i as int].model());
                    if v[i].has_tag(tag) {
                        return Some(&v[i]);
                    }
                    i += 1;
                }
                None
            },
            _ => None,
        }
    }

    /// The text after the tag of the first node with the tag.
    pub fn find_str(&self, tag: &str) -> (r: Option<&str>)
        ensures
            text_opt(r) == child_text(self.model(), tag@),
    {
        match self.find(tag) {
            Some(c) => c.value(),
            None => None,
        }
    }

    /// The nodes with the tag, in order.
    pub fn find_all(&self, tag: &str) -> (r: Vec<&SexpNode>)
        ensures
            node_refs(r@) == children_in(self.model(), tag@),
    {
        let mut out: Vec<&SexpNode> = Vec::new();
        match self {
            SexpNode::List(v) => {
                proof {
                    lemma_models(v@);
                    assert(node_refs(out@) =~= all_tagged(models(v@), tag@, 0));
                }
                let mut i: usize = 0;
                while i < v.len()
                    invariant
                        i <= v.len(),
                        models(v@).len() == v.len(),
                        forall|k: int| 0 <= k < v.len() ==> #[trigger] models(v@)[k] == v[k].model(),
                        node_refs(out@) == all_tagged(models(v@), tag@, i as int),
                    decreases v.len() - i,
                {
                    assert(models(v@)[i as int] == v[i as int].model());
                    if v[i].has_tag(tag) {
                        let ghost was = out@;
                        out.push(&v[i]);
                        assert(node_refs(out@) =~= node_refs(was).push(v[i as int].model()));
                    }
                    i += 1;
                }
            },
            _ => {
                assert(node_refs(out@) =~= Seq::<Sexp>::empty());
            },
        }
        out
    }

    /// Whether the first node with the tag says `yes` or `no`.
    pub fn get_bool(&self, tag: &str) -> (r: Option<bool>)
        ensures
            r == yes_no(child_text(self.model(), tag@)),
    {
        match self.find_str(tag) {
            Some(t) => {
                if same(t, "yes") {
                    Some(true)
                } else if same(t, "no") {
                    Some(false)
                } else {
                    None
                }
            },
            None => None,
        }
    }
}

/// `yes` and `no` as truth values.
pub open spec fn yes_no(t: Option<Seq<char>>) -> Option<bool> {
    if t == Some("yes"@) {
        Some(true)
    } else if t == Some("no"@) {
        Some(false)
    } else {
        None
    }
}

} // verus!
