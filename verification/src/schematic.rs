//! Schematics as text: finding a placed symbol, renaming it, and embedding the
//! definitions that it needs.

#[allow(unused_imports)]
use crate::edit::{splices, SexpEdit, Splice};
use crate::ident::{is_uuid, new_uuid};
#[allow(unused_imports)]
use crate::library::{extends_from, find_extends, text_pairs};
use crate::lines::{line_bytes, lines, lines_from};
#[allow(unused_imports)]
use crate::scan::{
    balanced_block, block_end, block_starts, closes_at, enclosing_block, find_balanced_block, find_block_end, find_block_starts,
    find_enclosing_block, lemma_block_cuttable, lemma_block_end, lemma_block_end_is, lex, Lexer, offsets, opens, range_of, CLOSE, OPEN, QUOTE,
};
#[allow(unused_imports)]
use crate::sexp::{
    find_value_end, items_in, lemma_models, lemma_models_push, models, parse_sexp, parse_text,
    read_name, resolve_escapes, string_opt, tag_in, text_at, value_end, Sexp, SexpNode,
};
#[allow(unused_imports)]
use crate::text::{
    boundary, byte_at, bytes, contains, copy, find_byte, find_from, first_byte, first_match, has,
    last_byte, lemma_ascii_boundary, lemma_bytes_injective, lemma_ends, lemma_first_byte, length, put,
    replace, replaced, rfind_byte, same, slice, slice_from, text_of,
};
use vstd::prelude::*;
use vstd::string::*;

verus! {

// ─── Placed symbols ──────────────────────────────────────────────────────────

/// The text that a symbol's designator stands in.
pub open spec fn reference_text(reference: Seq<char>) -> Seq<char> {
    "(property \"Reference\" \""@ + reference + "\""@
}

/// A symbol block with the text `t` is a placed symbol: it carries a `lib_id`, which no
/// definition in `lib_symbols` does.
pub open spec fn is_placed(t: Seq<u8>) -> bool {
    block_starts(t, bytes("lib_id"@), t.len() as int).len() > 0
}

/// The block of the first placed symbol with the designator, at or after `i`.
pub open spec fn instance_from(s: Seq<u8>, reference: Seq<char>, i: int) -> Option<(int, int)>
    decreases s.len() - i,
{
    let pat = bytes(reference_text(reference));
    match first_match(s, pat, i) {
        None => None,
        Some(p) => if p < i || pat.len() == 0 || p + pat.len() > s.len() {
            None
        } else {
            match enclosing_block(s, bytes("symbol"@), p) {
                Some((a, b)) => if is_placed(s.subrange(a, b)) {
                    Some((a, b))
                } else {
                    instance_from(s, reference, p + pat.len())
                },
                None => instance_from(s, reference, p + pat.len()),
            }
        },
    }
}

/// The block of the placed symbol with the designator.
pub open spec fn symbol_instance(s: Seq<u8>, reference: Seq<char>) -> Option<(int, int)> {
    instance_from(s, reference, 0)
}

/// The text that a symbol's designator stands in.
pub fn write_reference(reference: &str) -> (r: String)
    ensures
        r@ == reference_text(reference@),
        r@.len() > 0,
{
    let mut out = copy("(property \"Reference\" \"");
    put(&mut out, reference);
    put(&mut out, "\"");
    proof {
        reveal_strlit("(property \"Reference\" \"");
    }
    out
}

/// Byte range of the placed `(symbol …)` block whose Reference property is
/// `reference`.
///
/// Works whatever the indentation, and passes over the library definitions in
/// `lib_symbols`: they carry a Reference property of their own but never a
/// `lib_id`.
pub fn find_symbol_instance_block(content: &str, reference: &str) -> (r: Option<(usize, usize)>)
    ensures
        range_of(r) == symbol_instance(bytes(content@), reference@),
        match r {
            Some((a, b)) => closes_at(bytes(content@), a as int, b as int),
            None => true,
        },
{
    let ghost s = bytes(content@);
    let pat = write_reference(reference);
    let ghost p8 = bytes(pat@);
    let n = length(content);
    let m = length(pat.as_str());
    let mut from: usize = 0;
    proof {
        if p8.len() == 0 {
            assert(p8 =~= bytes(Seq::<char>::empty()));
            lemma_bytes_injective(pat@, Seq::empty());
        }
    }
    while from <= n
        invariant
            s == bytes(content@),
            n == s.len(),
            pat@ == reference_text(reference@),
            p8 == bytes(pat@),
            m == p8.len(),
            m > 0,
            from <= n,
            symbol_instance(s, reference@) == instance_from(s, reference@, from as int),
        decreases n - from,
    {
        let p = match find_from(content, pat.as_str(), from) {
            None => {
                return None;
            },
            Some(p) => p,
        };
        match find_enclosing_block(content, "symbol", p) {
            Some((a, b)) => {
                proof {
                    lemma_block_cuttable(content@, a as int, b as int);
                }
                let ids = find_block_starts(slice(content, a, b), "lib_id");
                assert(offsets(ids@).len() == ids.len());
                if ids.len() > 0 {
                    return Some((a, b));
                }
            },
            None => {},
        }
        assert(p + m <= n);
        from = p + m;
    }
    None
}

// ─── Renaming ────────────────────────────────────────────────────────────────

/// How a rename landed: how many symbol blocks were renamed (a part with several
/// units has one for each) and how many instance entries were rewritten.
#[derive(Debug)]
pub struct RenameOutcome {
    pub units: usize,
    pub instances: usize,
}

/// A rename as a value: its edits, and what it landed on.
pub struct Rename {
    pub edits: Seq<Splice>,
    pub units: int,
    pub instances: int,
}

/// The edits of the `(reference "…")` entries from `k` on in an instances block
/// whose text is `t` and which stands at `at`.
pub open spec fn reference_edits(
    t: Seq<u8>,
    starts: Seq<int>,
    k: int,
    at: int,
    new: Seq<u8>,
) -> Option<Seq<Splice>>
    decreases starts.len() - k,
{
    if k < 0 || k >= starts.len() {
        Some(Seq::empty())
    } else {
        match first_byte(t, QUOTE, starts[k]) {
            None => reference_edits(t, starts, k + 1, at, new),
            Some(q) => match value_end(t, q + 1) {
                None => None,
                Some(e) => match reference_edits(t, starts, k + 1, at, new) {
                    None => None,
                    Some(rest) => Some(
                        seq![Splice { start: at + q + 1, end: at + e, bytes: new }] + rest,
                    ),
                },
            },
        }
    }
}

/// The edits of the instance entries of the symbol block `t`, which stands at
/// `at`; a symbol without an instances block has none.
pub open spec fn instance_edits(t: Seq<u8>, at: int, old: Seq<char>, new: Seq<u8>) -> Result<
    Seq<Splice>,
    Seq<char>,
> {
    let starts = block_starts(t, bytes("instances"@), t.len() as int);
    if starts.len() == 0 {
        Ok(Seq::empty())
    } else {
        match balanced_block(t, starts[0]) {
            None => Err("'"@ + old + "' has a malformed (instances …) block"@),
            Some((a, b)) => {
                let inner = t.subrange(a, b);
                match reference_edits(
                    inner,
                    block_starts(inner, bytes("reference"@), inner.len() as int),
                    0,
                    at + a,
                    new,
                ) {
                    None => Err("'"@ + old + "' has a malformed instance (reference …)"@),
                    Some(v) => Ok(v),
                }
            },
        }
    }
}

/// The edit of the Reference property of the symbol block `t`, which stands at
/// `at` of `s`.
pub open spec fn property_edit(s: Seq<u8>, t: Seq<u8>, at: int, old: Seq<char>, new: Seq<u8>) -> Result<
    Splice,
    Seq<char>,
> {
    let head = bytes("(property \"Reference\" \""@);
    match first_match(t, head, 0) {
        None => Err("'"@ + old + "' has no 'Reference' property"@),
        Some(o) => match value_end(s, at + o + head.len()) {
            None => Err("'Reference' property on '"@ + old + "' is malformed"@),
            Some(e) => Ok(Splice { start: at + o + head.len(), end: e, bytes: new }),
        },
    }
}

/// The edits that rename the placed symbol in `at..to`: the one of its property
/// first, then those of its instance entries.
pub open spec fn symbol_edits(s: Seq<u8>, at: int, to: int, old: Seq<char>, new: Seq<u8>) -> Result<
    Seq<Splice>,
    Seq<char>,
> {
    let t = s.subrange(at, to);
    match property_edit(s, t, at, old, new) {
        Err(e) => Err(e),
        Ok(p) => match instance_edits(t, at, old, new) {
            Err(e) => Err(e),
            Ok(v) => Ok(seq![p] + v),
        },
    }
}

/// The edits that rename the placed symbols at or after `from`.
pub open spec fn renames_from(s: Seq<u8>, old: Seq<char>, new: Seq<u8>, from: int) -> Result<
    Rename,
    Seq<char>,
>
    decreases s.len() - from,
{
    if from < 0 || from > s.len() {
        Ok(Rename { edits: Seq::empty(), units: 0, instances: 0 })
    } else {
        let rest = s.subrange(from, s.len() as int);
        match symbol_instance(rest, old) {
            None => Ok(Rename { edits: Seq::empty(), units: 0, instances: 0 }),
            Some((a, b)) => if !(0 <= a < b <= rest.len()) {
                Ok(Rename { edits: Seq::empty(), units: 0, instances: 0 })
            } else {
                match symbol_edits(s, from + a, from + b, old, new) {
                    Err(e) => Err(e),
                    Ok(v) => match renames_from(s, old, new, from + b) {
                        Err(e) => Err(e),
                        Ok(r) => Ok(
                            Rename {
                                edits: v + r.edits,
                                units: r.units + 1,
                                instances: r.instances + v.len() - 1,
                            },
                        ),
                    },
                }
            },
        }
    }
}

/// What renaming a component comes to.
pub open spec fn renamed(s: Seq<u8>, old: Seq<char>, new: Seq<char>) -> Result<Rename, Seq<char>> {
    match renames_from(s, old, bytes(new), 0) {
        Err(e) => Err(e),
        Ok(r) => if r.units == 0 {
            Err("symbol '"@ + old + "' not found in this schematic"@)
        } else {
            Ok(r)
        },
    }
}

fn with_name(before: &str, name: &str, after: &str) -> (r: String)
    ensures
        r@ == before@ + name@ + after@,
{
    let mut out = copy(before);
    put(&mut out, name);
    put(&mut out, after);
    out
}

/// Collect the edits of a symbol's instance entries.
fn collect_instance_edits(block: &str, at: usize, old: &str, new: &str) -> (r: Result<
    Vec<SexpEdit>,
    String,
>)
    requires
        at + bytes(block@).len() <= usize::MAX,
    ensures
        match instance_edits(bytes(block@), at as int, old@, bytes(new@)) {
            Ok(v) => r is Ok && splices(r->Ok_0@) == v,
            Err(e) => r is Err && r->Err_0@ == e,
        },
{
    let ghost t = bytes(block@);
    let mut out: Vec<SexpEdit> = Vec::new();
    let starts = find_block_starts(block, "instances");
    if starts.len() == 0 {
        assert(splices(out@) =~= Seq::<Splice>::empty());
        assert(block_starts(t, bytes("instances"@), t.len() as int) =~= offsets(starts@));
        return Ok(out);
    }
    assert(block_starts(t, bytes("instances"@), t.len() as int)[0] == starts[0]);
    let (a, b) = match find_balanced_block(block, starts[0]) {
        None => {
            return Err(with_name("'", old, "' has a malformed (instances …) block"));
        },
        Some(x) => x,
    };
    proof {
        lemma_block_cuttable(block@, a as int, b as int);
    }
    let inner = slice(block, a, b);
    let n = length(inner);
    let refs = find_block_starts(inner, "reference");
    let ghost ti = bytes(inner@);
    let ghost all = offsets(refs@);
    let base: usize = at + a;
    let mut k: usize = 0;
    proof {
        let rest = reference_edits(ti, all, 0, base as int, bytes(new@));
        if let Some(v) = rest {
            assert(splices(out@) + v =~= v);
        }
    }
    while k < refs.len()
        invariant
            k <= refs.len(),
            ti == bytes(inner@),
            n == ti.len(),
            t == bytes(block@),
            ti == t.subrange(a as int, b as int),
            a < b <= t.len(),
            all == offsets(refs@),
            all == block_starts(ti, bytes("reference"@), ti.len() as int),
            base == at + a,
            at + t.len() <= usize::MAX,
            block_starts(t, bytes("instances"@), t.len() as int).len() > 0,
            balanced_block(t, block_starts(t, bytes("instances"@), t.len() as int)[0]) == Some(
                (a as int, b as int),
            ),
            forall|i: int| 0 <= i < refs.len() ==> opens(ti, #[trigger] refs[i] as int),
            match reference_edits(ti, all, k as int, base as int, bytes(new@)) {
                None => reference_edits(ti, all, 0, base as int, bytes(new@)).is_none(),
                Some(v) => reference_edits(ti, all, 0, base as int, bytes(new@)) == Some(
                    splices(out@) + v,
                ),
            },
        decreases refs.len() - k,
    {
        let rel = refs[k];
        assert(all[k as int] == rel);
        match find_byte(inner, QUOTE, rel) {
            None => {},
            Some(q) => {
                proof {
                    lemma_first_byte(ti, QUOTE, rel as int);
                }
                match find_value_end(inner, q + 1) {
                    None => {
                        return Err(with_name("'", old, "' has a malformed instance (reference …)"));
                    },
                    Some(e) => {
                        let ghost was = splices(out@);
                        let edit = SexpEdit::replace(base + q + 1, base + e, copy(new));
                        let ghost x = edit.model();
                        out.push(edit);
                        proof {
                            assert(splices(out@) =~= was.push(x));
                            if let Some(v) = reference_edits(
                                ti,
                                all,
                                k + 1,
                                base as int,
                                bytes(new@),
                            ) {
                                assert(was + (seq![x] + v) =~= splices(out@) + v);
                            }
                        }
                    },
                }
            },
        }
        k += 1;
    }
    assert(splices(out@) + Seq::<Splice>::empty() =~= splices(out@));
    Ok(out)
}

/// A block of the rest of a text is one of the text.
proof fn lemma_symbol_cut(t: Seq<char>, from: int, a: int, b: int)
    requires
        0 <= from <= bytes(t).len(),
        closes_at(bytes(t).subrange(from, bytes(t).len() as int), a, b),
    ensures
        closes_at(bytes(t), from + a, from + b),
        boundary(bytes(t), from + b),
{
    let s = bytes(t);
    let rest = s.subrange(from, s.len() as int);
    assert forall|i: int| a <= i < b implies #[trigger] rest[i] == s[i + from] by {}
    crate::scan::lemma_block_moved(rest, s, a, b, from);
    lemma_block_cuttable(t, from + a, from + b);
}

/// Collect the edits that rename the symbol in `at..to`.
fn collect_symbol_edits(content: &str, at: usize, to: usize, old: &str, new: &str) -> (r: Result<
    Vec<SexpEdit>,
    String,
>)
    requires
        closes_at(bytes(content@), at as int, to as int),
    ensures
        match symbol_edits(bytes(content@), at as int, to as int, old@, bytes(new@)) {
            Err(e) => r is Err && r->Err_0@ == e,
            Ok(v) => r is Ok && splices(r->Ok_0@) == v && r->Ok_0.len() > 0,
        },
{
    let ghost s = bytes(content@);
    proof {
        lemma_block_cuttable(content@, at as int, to as int);
        reveal_strlit("(property \"Reference\" \"");
    }
    let head_len: usize = length("(property \"Reference\" \"");
    let block = slice(content, at, to);
    let start: usize = match find_from(block, "(property \"Reference\" \"", 0) {
        None => {
            return Err(with_name("'", old, "' has no 'Reference' property"));
        },
        Some(o) => at + o + head_len,
    };
    let end: usize = match find_value_end(content, start) {
        None => {
            return Err(with_name("'Reference' property on '", old, "' is malformed"));
        },
        Some(e) => e,
    };
    let first = SexpEdit::replace(start, end, copy(new));
    let ghost x = first.model();
    let mut more = match collect_instance_edits(block, at, old, new) {
        Err(e) => {
            return Err(e);
        },
        Ok(v) => v,
    };
    let ghost v = splices(more@);
    let mut edits: Vec<SexpEdit> = Vec::new();
    edits.push(first);
    edits.append(&mut more);
    assert(splices(edits@) =~= seq![x] + v);
    Ok(edits)
}

/// Byte edits that rename a component, updating both places that store a
/// designator.
///
/// A designator lives in the Reference property, which eeschema draws, and in the
/// instance entry of each sheet, which the netlister and the update of a board
/// from its schematic read. Rewriting only the property leaves the two at odds.
/// Every offset is relative to `content`, so that the edits can be applied
/// together with others in one pass.
#[verifier::spinoff_prover]
#[verifier::rlimit(60)]
pub fn rename_symbol_edits(content: &str, old: &str, new: &str) -> (r: Result<
    (Vec<SexpEdit>, RenameOutcome),
    String,
>)
    ensures
        match renamed(bytes(content@), old@, new@) {
            Err(e) => r is Err && r->Err_0@ == e,
            Ok(x) => r is Ok && splices(r->Ok_0.0@) == x.edits && r->Ok_0.1.units == x.units
                && r->Ok_0.1.instances == x.instances,
        },
{
    let ghost s = bytes(content@);
    let ghost nb = bytes(new@);
    let n = length(content);
    let mut edits: Vec<SexpEdit> = Vec::new();
    let mut units: usize = 0;
    let mut instances: usize = 0;
    let mut cursor: usize = 0;
    proof {
        lemma_ends(content@);
        if let Ok(x) = renames_from(s, old@, nb, 0) {
            assert(splices(edits@) + x.edits =~= x.edits);
        }
    }
    loop
        invariant
            s == bytes(content@),
            nb == bytes(new@),
            n == s.len(),
            cursor <= n,
            boundary(s, cursor as int),
            units <= cursor,
            instances == edits.len() - units,
            units <= edits.len(),
            match renames_from(s, old@, nb, cursor as int) {
                Err(e) => renames_from(s, old@, nb, 0) == Err::<Rename, Seq<char>>(e),
                Ok(x) => renames_from(s, old@, nb, 0) == Ok::<Rename, Seq<char>>(
                    Rename {
                        edits: splices(edits@) + x.edits,
                        units: units + x.units,
                        instances: instances + x.instances,
                    },
                ),
            },
        decreases n - cursor,
    {
        let rest = slice_from(content, cursor);
        let (a, b) = match find_symbol_instance_block(rest, old) {
            None => {
                assert(splices(edits@) + Seq::<Splice>::empty() =~= splices(edits@));
                if units == 0 {
                    return Err(with_name("symbol '", old, "' not found in this schematic"));
                }
                return Ok((edits, RenameOutcome { units, instances }));
            },
            Some(x) => x,
        };
        proof {
            lemma_block_cuttable(rest@, a as int, b as int);
            lemma_symbol_cut(content@, cursor as int, a as int, b as int);
        }
        let ghost was = splices(edits@);
        let mut more = match collect_symbol_edits(content, cursor + a, cursor + b, old, new) {
            Err(e) => {
                return Err(e);
            },
            Ok(v) => v,
        };
        let ghost v = splices(more@);
        edits.append(&mut more);
        let total = edits.len();
        proof {
            assert(splices(edits@) =~= was + v);
            if let Ok(y) = renames_from(s, old@, nb, cursor + b) {
                assert(was + (v + y.edits) =~= splices(edits@) + y.edits);
            }
        }
        units += 1;
        instances = total - units;
        cursor = cursor + b;
    }
}

/// A rename writes the new designator and nothing else, once for each unit and
/// once for each instance entry.
pub proof fn law_rename_writes_only_the_name(s: Seq<u8>, old: Seq<char>, new: Seq<u8>, from: int)
    requires
        renames_from(s, old, new, from) is Ok,
    ensures
        ({
            let r = renames_from(s, old, new, from)->Ok_0;
            &&& r.edits.len() == r.units + r.instances
            &&& r.units >= 0
            &&& r.instances >= 0
            &&& forall|i: int| 0 <= i < r.edits.len() ==> (#[trigger] r.edits[i]).bytes == new
        }),
    decreases s.len() - from,
{
    let r = renames_from(s, old, new, from)->Ok_0;
    if 0 <= from <= s.len() {
        let rest = s.subrange(from, s.len() as int);
        if let Some((a, b)) = symbol_instance(rest, old) {
            if 0 <= a < b <= rest.len() {
                let at = from + a;
                let t = s.subrange(at, from + b);
                let p = property_edit(s, t, at, old, new)->Ok_0;
                let v = instance_edits(t, at, old, new)->Ok_0;
                law_rename_writes_only_the_name(s, old, new, from + b);
                let later = renames_from(s, old, new, from + b)->Ok_0;
                lemma_instance_edits(t, at, old, new);
                assert forall|i: int| 0 <= i < r.edits.len() implies (#[trigger] r.edits[i]).bytes
                    == new by {
                    if i == 0 {
                        assert(r.edits[i] == p);
                    } else if i < 1 + v.len() {
                        assert(r.edits[i] == v[i - 1]);
                    } else {
                        assert(r.edits[i] == later.edits[i - 1 - v.len()]);
                    }
                }
            }
        }
    }
}

proof fn lemma_instance_edits(t: Seq<u8>, at: int, old: Seq<char>, new: Seq<u8>)
    requires
        instance_edits(t, at, old, new) is Ok,
    ensures
        forall|i: int|
            0 <= i < instance_edits(t, at, old, new)->Ok_0.len() ==> (#[trigger] instance_edits(
                t,
                at,
                old,
                new,
            )->Ok_0[i]).bytes == new,
{
    let starts = block_starts(t, bytes("instances"@), t.len() as int);
    if starts.len() > 0 {
        if let Some((a, b)) = balanced_block(t, starts[0]) {
            let inner = t.subrange(a, b);
            lemma_reference_edits(
                inner,
                block_starts(inner, bytes("reference"@), inner.len() as int),
                0,
                at + a,
                new,
            );
        }
    }
}

proof fn lemma_reference_edits(t: Seq<u8>, starts: Seq<int>, k: int, at: int, new: Seq<u8>)
    ensures
        match reference_edits(t, starts, k, at, new) {
            Some(v) => forall|i: int| 0 <= i < v.len() ==> (#[trigger] v[i]).bytes == new,
            None => true,
        },
    decreases starts.len() - k,
{
    if 0 <= k < starts.len() {
        lemma_reference_edits(t, starts, k + 1, at, new);
    }
}

// ─── New schematics ──────────────────────────────────────────────────────────

/// The name of a file without its ending: what comes before the last dot, unless
/// that dot begins the name.
pub open spec fn stem(name: Seq<char>) -> Seq<char> {
    let s = bytes(name);
    match last_byte(s, 0x2e) {
        Some(p) => if p > 0 {
            text_of(s.subrange(0, p))
        } else {
            name
        },
        None => name,
    }
}

/// The project name used in the instance entries of symbols and sheets: the
/// schematic's file name without its ending, as eeschema writes it for a root
/// sheet of its own. A path without a file name gives nothing.
pub fn project_name_for(file_name: &Option<String>) -> (r: String)
    ensures
        r@ == (match file_name {
            Some(n) => stem(n@),
            None => ""@,
        }),
{
    match file_name {
        None => copy(""),
        Some(name) => {
            let name = name.as_str();
            match rfind_byte(name, 0x2e) {
                Some(p) => {
                    if p > 0 {
                        proof {
                            lemma_ascii_boundary(name@, p as int);
                            lemma_ends(name@);
                        }
                        copy(slice(name, 0, p))
                    } else {
                        copy(name)
                    }
                },
                None => copy(name),
            }
        },
    }
}

/// A minimal schematic with the root uuid.
pub open spec fn blank_text(uuid: Seq<char>) -> Seq<char> {
    "(kicad_sch\n\t(version 20250610)\n\t(generator \"konnect\")\n\t(generator_version \"10.0\")\n\t(uuid \""@
        + uuid + "\")\n\t(paper \"A4\")\n\t(lib_symbols\n\t)\n)\n"@
}

/// Minimal valid blank schematic, with a fresh root uuid.
///
/// The root uuid is mandatory: KiCAD's netlister resolves the instance paths of
/// symbols against it and forms no nets of wires alone where it is missing.
pub fn blank_schematic_template() -> (r: String)
    ensures
        exists|u: Seq<char>| is_uuid(u) && r@ == #[trigger] blank_text(u),
{
    let uuid = new_uuid();
    let mut out = copy(
        "(kicad_sch\n\t(version 20250610)\n\t(generator \"konnect\")\n\t(generator_version \"10.0\")\n\t(uuid \"",
    );
    put(&mut out, uuid.as_str());
    put(&mut out, "\")\n\t(paper \"A4\")\n\t(lib_symbols\n\t)\n)\n");
    assert(out@ == blank_text(uuid@));
    out
}

/// What of a loaded schematic the library works on: its root uuid and the nodes
/// that it keeps as they are.
#[derive(Debug)]
pub struct Schematic {
    pub uuid: Option<String>,
    pub raw_other: Vec<SexpNode>,
}

/// Root uuid of a loaded schematic, assigning a fresh one to a file that has none;
/// such a file is repaired when it is next written.
pub fn ensure_root_uuid(sch: &mut Schematic) -> (r: String)
    ensures
        final(sch).uuid.is_some(),
        final(sch).uuid.unwrap()@ == r@,
        final(sch).raw_other == old(sch).raw_other,
        old(sch).uuid.is_some() ==> r@ == old(sch).uuid.unwrap()@,
        old(sch).uuid.is_none() ==> is_uuid(r@),
{
    match &sch.uuid {
        Some(u) => copy(u.as_str()),
        None => {
            let u = new_uuid();
            sch.uuid = Some(copy(u.as_str()));
            u
        },
    }
}

/// The parts of the path of KiCAD's configuration: the newest of the version
/// directories that are there, else the base itself where it is there, else the
/// version directory that the first use will make.
pub open spec fn config_path(base: Seq<char>, base_exists: bool, ten: bool, nine: bool, eight: bool) -> Seq<
    Seq<char>,
> {
    if ten {
        seq![base, "10.0"@]
    } else if nine {
        seq![base, "9.0"@]
    } else if eight {
        seq![base, "8.0"@]
    } else if base_exists {
        seq![base]
    } else {
        seq![base, "10.0"@]
    }
}

/// Which directories of KiCAD's configuration are there.
#[derive(Debug)]
pub struct ConfigDirs {
    pub base: bool,
    pub ten: bool,
    pub nine: bool,
    pub eight: bool,
}

/// KiCAD's user configuration directory, as the parts of its path under `base`.
/// Versions are tried in descending order, then the bare directory.
#[verifier::rlimit(40)]
pub fn kicad_config_dir(base: &str, found: &ConfigDirs) -> (r: Vec<String>)
    ensures
        crate::chars::texts(r@) == config_path(base@, found.base, found.ten, found.nine, found.eight),
{
    let mut out: Vec<String> = Vec::new();
    out.push(copy(base));
    if found.ten {
        out.push(copy("10.0"));
    } else if found.nine {
        out.push(copy("9.0"));
    } else if found.eight {
        out.push(copy("8.0"));
    } else if !found.base {
        out.push(copy("10.0"));
    }
    assert(crate::chars::texts(out@) =~= config_path(
        base@,
        found.base,
        found.ten,
        found.nine,
        found.eight,
    ));
    out
}

/// The configuration relevant to running tools.
#[derive(Debug, Clone)]
pub struct ServerConfig {
    pub kicad_cli: String,
    pub kicad_binary: String,
    pub ipc_address: String,
    pub project_dir: Option<String>,
    pub jlcpcb_db_path: Option<String>,
}

// ─── Embedding a definition in the text ──────────────────────────────────────

/// The first `n` lines, each with two tabs before it unless it is empty, joined.
pub open spec fn indented(lines: Seq<Seq<u8>>, n: int) -> Seq<u8>
    decreases n,
{
    if n <= 0 {
        Seq::empty()
    } else {
        (if n == 1 {
            Seq::empty()
        } else {
            indented(lines, n - 1) + bytes("\n"@)
        }) + (if lines[n - 1].len() == 0 {
            Seq::empty()
        } else {
            bytes("\t\t"@) + lines[n - 1]
        })
    }
}

/// A definition as it is put into `lib_symbols`.
pub open spec fn embedded_text(definition: Seq<u8>) -> Seq<u8> {
    let ls = lines_from(definition, 0);
    bytes("\n"@) + indented(ls, ls.len() as int) + bytes("\n\t"@)
}

/// The first place, from `i` on, where a line ends with a closing parenthesis outside
/// strings.
pub open spec fn line_close(s: Seq<u8>, i: int) -> Option<int>
    decreases s.len() - i,
{
    if i < 0 || i + 1 >= s.len() {
        None
    } else if s[i] == CLOSE && s[i + 1] == 0x0a && !lex(s, 0, i).in_string {
        Some(i)
    } else {
        line_close(s, i + 1)
    }
}

/// Where the outermost block of a text ends.
pub open spec fn outer_end(s: Seq<u8>) -> Option<int> {
    match first_byte(s, OPEN, 0) {
        Some(o) => block_end(s, o),
        None => None,
    }
}

/// Where a `lib_symbols` is to be made: after the first line that ends with a closing
/// parenthesis, or at the end of the document where that is all one line.
pub open spec fn section_place(s: Seq<u8>) -> Option<int> {
    match (line_close(s, 0), outer_end(s)) {
        (Some(p), Some(e)) => if p + 1 < e {
            Some(p + 2)
        } else {
            Some(e - 1)
        },
        (Some(p), None) => Some(p + 2),
        (None, Some(e)) => Some(e - 1),
        (None, None) => None,
    }
}

/// The schematic with an empty `lib_symbols`, unless it has one.
pub open spec fn with_lib_symbols(s: Seq<u8>) -> Seq<u8> {
    if block_starts(s, bytes("lib_symbols"@), s.len() as int).len() > 0 {
        s
    } else {
        match section_place(s) {
            Some(p) => replaced(s, p, p, bytes("\n\t(lib_symbols\n\t)\n"@)),
            None => s,
        }
    }
}

/// The schematic with the definition before the end of its `lib_symbols`.
pub open spec fn with_definition(s: Seq<u8>, definition: Seq<u8>) -> Seq<u8> {
    let t = with_lib_symbols(s);
    let starts = block_starts(t, bytes("lib_symbols"@), t.len() as int);
    if starts.len() == 0 {
        t
    } else {
        let e = match block_end(t, starts[0]) {
            Some(e) => e - 1,
            None => starts[0],
        };
        replaced(t, e, e, embedded_text(definition))
    }
}

/// A definition with the name is there already.
pub open spec fn defines(s: Seq<u8>, lib_id: Seq<char>) -> bool {
    has(s, bytes("(symbol \""@ + lib_id + "\""@))
}

fn write_embedded(definition: &str) -> (r: String)
    ensures
        bytes(r@) == embedded_text(bytes(definition@)),
{
    let all = lines(definition);
    let ghost ls = lines_from(bytes(definition@), 0);
    let mut out = copy("\n");
    let ghost head = bytes(out@);
    let mut i: usize = 0;
    assert(head + indented(ls, 0) =~= head);
    while i < all.len()
        invariant
            i <= all.len(),
            ls == line_bytes(all@),
            bytes(out@) == head + indented(ls, i as int),
        decreases all.len() - i,
    {
        let line = all[i];
        assert(ls[i as int] == bytes(line@));
        let ghost was = indented(ls, i as int);
        if i > 0 {
            put(&mut out, "\n");
        }
        if length(line) > 0 {
            put(&mut out, "\t\t");
            put(&mut out, line);
        }
        proof {
            assert(bytes(out@) =~= head + indented(ls, i + 1));
        }
        i += 1;
    }
    put(&mut out, "\n\t");
    out
}

fn find_line_close(content: &str) -> (r: Option<usize>)
    ensures
        match r {
            Some(p) => line_close(bytes(content@), 0) == Some(p as int) && p + 1 < bytes(content@).len()
                && bytes(content@)[p + 1] == 0x0a,
            None => line_close(bytes(content@), 0).is_none(),
        },
{
    let ghost s = bytes(content@);
    let n = length(content);
    let mut st = Lexer::start();
    let mut i: usize = 0;
    while i < n
        invariant
            s == bytes(content@),
            n == s.len(),
            i <= n,
            st.model() == lex(s, 0, i as int),
            st.depth <= i,
            line_close(s, 0) == line_close(s, i as int),
        decreases n - i,
    {
        let b = byte_at(content, i);
        if b == CLOSE && !st.in_string && i + 1 < n && byte_at(content, i + 1) == 0x0a {
            return Some(i);
        }
        st = st.step(b);
        i += 1;
    }
    None
}

/// The closing parenthesis of a block may be cut at.
proof fn lemma_close_cuts(t: Seq<char>, p: int, e: int)
    requires
        closes_at(bytes(t), p, e),
    ensures
        p < e - 1,
        boundary(bytes(t), e - 1),
{
    lemma_block_end(bytes(t), p, e);
    lemma_block_end_is(bytes(t), p);
    lemma_ascii_boundary(t, e - 1);
}

fn find_outer_end(content: &str) -> (r: Option<usize>)
    ensures
        match r {
            Some(e) => outer_end(bytes(content@)) == Some(e as int) && 0 < e <= bytes(content@).len()
                && boundary(bytes(content@), e - 1),
            None => outer_end(bytes(content@)).is_none(),
        },
{
    match find_byte(content, OPEN, 0) {
        None => None,
        Some(o) => {
            proof {
                lemma_first_byte(bytes(content@), OPEN, 0);
            }
            match find_block_end(content, o) {
                None => None,
                Some(e) => {
                    proof {
                        lemma_close_cuts(content@, o as int, e as int);
                    }
                    Some(e)
                },
            }
        },
    }
}

fn find_section_place(content: &str) -> (r: Option<usize>)
    ensures
        match r {
            Some(p) => section_place(bytes(content@)) == Some(p as int) && p <= bytes(content@).len()
                && boundary(bytes(content@), p as int),
            None => section_place(bytes(content@)).is_none(),
        },
{
    let n = length(content);
    match (find_line_close(content), find_outer_end(content)) {
        (Some(p), Some(e)) => {
            assert(p + 1 < n);
            if p + 1 < e {
                proof {
                    lemma_ascii_boundary(content@, p + 1);
                }
                Some(p + 2)
            } else {
                Some(e - 1)
            }
        },
        (Some(p), None) => {
            assert(p + 1 < n);
            proof {
                lemma_ascii_boundary(content@, p + 1);
            }
            Some(p + 2)
        },
        (None, Some(e)) => Some(e - 1),
        (None, None) => None,
    }
}

fn add_lib_symbols(content: &str) -> (r: String)
    ensures
        bytes(r@) == with_lib_symbols(bytes(content@)),
{
    let starts = find_block_starts(content, "lib_symbols");
    if starts.len() > 0 {
        return copy(content);
    }
    match find_section_place(content) {
        Some(p) => replace(content, p, p, "\n\t(lib_symbols\n\t)\n"),
        None => copy(content),
    }
}

/// Put a definition into the schematic's `lib_symbols`.
fn put_definition(content: &str, d: &str) -> (r: String)
    ensures
        bytes(r@) == with_definition(bytes(content@), bytes(d@)),
{
    let t = add_lib_symbols(content);
    let starts = find_block_starts(t.as_str(), "lib_symbols");
    let ghost all = offsets(starts@);
    if starts.len() == 0 {
        return t;
    }
    assert(all[0] == starts[0]);
    let p = starts[0];
    let e: usize = match find_block_end(t.as_str(), p) {
        Some(e) => {
            proof {
                lemma_close_cuts(t@, p as int, e as int);
            }
            e - 1
        },
        None => {
            proof {
                lemma_ascii_boundary(t@, p as int);
            }
            p
        },
    };
    replace(t.as_str(), e, e, write_embedded(d).as_str())
}

/// The schematic with the definition of `lib_id` put in, its parents before it, and
/// whether it could be. At most `fuel` parents are followed.
pub open spec fn with_definitions(
    s: Seq<u8>,
    lib_id: Seq<char>,
    definitions: Seq<(Seq<char>, Seq<char>)>,
    fuel: nat,
) -> (Seq<u8>, bool)
    decreases fuel,
{
    if defines(s, lib_id) {
        (s, true)
    } else {
        match definition_of(definitions, lib_id, 0) {
            None => (s, false),
            Some(raw) => {
                let base = match parent_id(bytes(raw)) {
                    Some(p) => if fuel > 0 {
                        with_definitions(s, p, definitions, (fuel - 1) as nat).0
                    } else {
                        s
                    },
                    None => s,
                };
                (with_definition(base, bytes(raw)), true)
            },
        }
    }
}

fn put_definitions(
    content: &mut String,
    lib_id: &str,
    definitions: &Vec<(String, String)>,
    fuel: usize,
) -> (r: bool)
    ensures
        (bytes(final(content)@), r) == with_definitions(
            bytes(old(content)@),
            lib_id@,
            text_pairs(definitions@),
            fuel as nat,
        ),
    decreases fuel,
{
    let head = with_name("(symbol \"", lib_id, "\"");
    if contains(content.as_str(), head.as_str()) {
        return true;
    }
    match find_definition(definitions, lib_id) {
        None => false,
        Some(d) => {
            match read_parent_id(d.as_str()) {
                Some(p) => {
                    if fuel > 0 {
                        let _ = put_definitions(content, p.as_str(), definitions, fuel - 1);
                    }
                },
                None => {},
            }
            *content = put_definition(content.as_str(), d.as_str());
            true
        },
    }
}

/// Put the definition of `lib_id` into the schematic's `lib_symbols`, which is made
/// where it is missing, with the parents that it extends before it. `definitions` holds
/// what `lib_id` and its parents resolve to.
///
/// Returns `false`, and changes nothing, where the `lib_id` does not resolve:
/// callers must report that rather than write a symbol without a definition.
#[must_use]
pub fn ensure_lib_symbol_in_schematic(
    content: &mut String,
    lib_id: &str,
    definitions: &Vec<(String, String)>,
) -> (r: bool)
    ensures
        (bytes(final(content)@), r) == with_definitions(
            bytes(old(content)@),
            lib_id@,
            text_pairs(definitions@),
            definitions@.len(),
        ),
{
    put_definitions(content, lib_id, definitions, definitions.len())
}

// ─── Embedding a definition in the nodes ─────────────────────────────────────

/// A definition of the name: a `(symbol "name" …)` node.
pub open spec fn is_definition(n: Sexp, lib_id: Seq<char>) -> bool {
    tag_in(n) == Some("symbol"@) && text_at(n, 1) == Some(lib_id)
}

/// Some node is a definition of the name.
pub open spec fn has_definition(items: Seq<Sexp>, lib_id: Seq<char>) -> bool {
    exists|i: int| 0 <= i < items.len() && is_definition(#[trigger] items[i], lib_id)
}

/// Some `lib_symbols` node has a definition of the name.
pub open spec fn defined_in(nodes: Seq<Sexp>, lib_id: Seq<char>) -> bool {
    exists|i: int|
        0 <= i < nodes.len() && tag_in(#[trigger] nodes[i]) == Some("lib_symbols"@) && has_definition(
            items_in(nodes[i]),
            lib_id,
        )
}

/// The parent that a qualified definition extends, where it carries its library's
/// name.
pub open spec fn parent_id(raw: Seq<u8>) -> Option<Seq<char>> {
    match extends_from(raw, 0) {
        None => None,
        Some((a, b)) => {
            let t = raw.subrange(a + 1, b - 1);
            if first_byte(t, 0x3a, 0).is_some() {
                Some(text_of(t))
            } else {
                None
            }
        },
    }
}

/// The position of the first `lib_symbols` node, from `k` on.
pub open spec fn lib_symbols_at(nodes: Seq<Sexp>, k: int) -> Option<int>
    decreases nodes.len() - k,
{
    if k < 0 || k >= nodes.len() {
        None
    } else if tag_in(nodes[k]) == Some("lib_symbols"@) {
        Some(k)
    } else {
        lib_symbols_at(nodes, k + 1)
    }
}

/// The nodes with a definition at the end of `lib_symbols`, which is made at the
/// front where it is missing.
pub open spec fn with_node(nodes: Seq<Sexp>, d: Sexp) -> Seq<Sexp> {
    match lib_symbols_at(nodes, 0) {
        Some(k) => nodes.update(k, Sexp::List(items_in(nodes[k]).push(d))),
        None => nodes.insert(0, Sexp::List(seq![Sexp::Atom("lib_symbols"@), d])),
    }
}

/// The definition of the `lib_id` among those given, from `k` on.
pub open spec fn definition_of(
    definitions: Seq<(Seq<char>, Seq<char>)>,
    lib_id: Seq<char>,
    k: int,
) -> Option<Seq<char>>
    decreases definitions.len() - k,
{
    if k < 0 || k >= definitions.len() {
        None
    } else if definitions[k].0 == lib_id {
        Some(definitions[k].1)
    } else {
        definition_of(definitions, lib_id, k + 1)
    }
}

/// The nodes with the definition of `lib_id` embedded, its parents before it, and
/// whether it could be. A `lib_id` stands with its escapes, as in the library; in the
/// nodes they are resolved. At most `fuel` parents are followed.
pub open spec fn embedded(
    nodes: Seq<Sexp>,
    lib_id: Seq<char>,
    definitions: Seq<(Seq<char>, Seq<char>)>,
    fuel: nat,
) -> (Seq<Sexp>, bool)
    decreases fuel,
{
    if defined_in(nodes, read_name(lib_id)) {
        (nodes, true)
    } else {
        match definition_of(definitions, lib_id, 0) {
            None => (nodes, false),
            Some(raw) => {
                let base = match parent_id(bytes(raw)) {
                    Some(p) => if fuel > 0 {
                        embedded(nodes, p, definitions, (fuel - 1) as nat).0
                    } else {
                        nodes
                    },
                    None => nodes,
                };
                match parse_text(bytes(raw)) {
                    Ok(d) => (with_node(base, d), true),
                    Err(_) => (base, false),
                }
            },
        }
    }
}

/// Whether the node is a definition of the name.
pub fn defines_symbol(n: &SexpNode, lib_id: &str) -> (r: bool)
    ensures
        r == is_definition(n.model(), lib_id@),
{
    n.has_tag("symbol") && (match n.value() {
        Some(t) => same(t, lib_id),
        None => false,
    })
}

/// Whether some `lib_symbols` node has a definition of the name.
fn nodes_define(nodes: &Vec<SexpNode>, name: &str) -> (r: bool)
    ensures
        r == defined_in(models(nodes@), name@),
{
    proof {
        lemma_models(nodes@);
    }
    let ghost all = models(nodes@);
    let mut i: usize = 0;
    while i < nodes.len()
        invariant
            i <= nodes.len(),
            all == models(nodes@),
            all.len() == nodes.len(),
            forall|k: int| 0 <= k < nodes.len() ==> #[trigger] all[k] == nodes[k].model(),
            forall|k: int|
                0 <= k < i ==> !(tag_in(#[trigger] all[k]) == Some("lib_symbols"@) && has_definition(
                    items_in(all[k]),
                    name@,
                )),
        decreases nodes.len() - i,
    {
        assert(all[i as int] == nodes[i as int].model());
        if nodes[i].has_tag("lib_symbols") {
            match &nodes[i] {
                SexpNode::List(v) => {
                    proof {
                        lemma_models(v@);
                    }
                    let ghost items = models(v@);
                    let mut k: usize = 0;
                    while k < v.len()
                        invariant
                            k <= v.len(),
                            i < all.len(),
                            tag_in(all[i as int]) == Some("lib_symbols"@),
                            items == items_in(all[i as int]),
                            all == models(nodes@),
                            items.len() == v.len(),
                            forall|q: int| 0 <= q < v.len() ==> #[trigger] items[q] == v[q].model(),
                            forall|q: int| 0 <= q < k ==> !is_definition(#[trigger] items[q], name@),
                        decreases v.len() - k,
                    {
                        assert(items[k as int] == v[k as int].model());
                        if defines_symbol(&v[k], name) {
                            return true;
                        }
                        k += 1;
                    }
                },
                _ => {},
            }
        }
        i += 1;
    }
    false
}

/// The parent that a qualified definition extends. An `(extends "` inside a string is
/// not taken for the tag.
pub fn read_parent_id(raw: &str) -> (r: Option<String>)
    ensures
        string_opt(r) == parent_id(bytes(raw@)),
{
    match find_extends(raw) {
        None => None,
        Some((a, b)) => {
            let t = slice(raw, a + 1, b - 1);
            match find_byte(t, 0x3a, 0) {
                Some(_) => Some(copy(t)),
                None => None,
            }
        },
    }
}

fn add_node(nodes: &mut Vec<SexpNode>, d: SexpNode)
    ensures
        models(final(nodes)@) == with_node(models(old(nodes)@), d.model()),
{
    let ghost all = models(nodes@);
    let ghost dm = d.model();
    proof {
        lemma_models(nodes@);
    }
    let mut k: usize = 0;
    while k < nodes.len()
        invariant
            k <= nodes.len(),
            all == models(nodes@),
            all == models(old(nodes)@),
            dm == d.model(),
            all.len() == nodes.len(),
            forall|i: int| 0 <= i < nodes.len() ==> #[trigger] all[i] == nodes[i].model(),
            lib_symbols_at(all, 0) == lib_symbols_at(all, k as int),
        decreases nodes.len() - k,
    {
        assert(all[k as int] == nodes[k as int].model());
        if nodes[k].has_tag("lib_symbols") {
            let found = nodes[k].duplicate();
            match found {
                SexpNode::List(mut v) => {
                    proof {
                        lemma_models(v@);
                        lemma_models_push(v@, d);
                    }
                    v.push(d);
                    let ghost was = nodes@;
                    nodes.set(k, SexpNode::List(v));
                    proof {
                        lemma_models(nodes@);
                        lemma_models(was);
                        assert(models(nodes@) =~= with_node(all, dm));
                    }
                },
                _ => {},
            }
            return;
        }
        k += 1;
    }
    let mut items: Vec<SexpNode> = Vec::new();
    items.push(SexpNode::Atom(copy("lib_symbols")));
    let ghost one = items@;
    proof {
        lemma_models_push(one, d);
        lemma_models(one);
    }
    items.push(d);
    proof {
        assert(models(one) =~= seq![Sexp::Atom("lib_symbols"@)]);
        assert(models(items@) =~= seq![Sexp::Atom("lib_symbols"@), dm]);
    }
    let ghost was = nodes@;
    nodes.insert(0, SexpNode::List(items));
    proof {
        lemma_models(nodes@);
        lemma_models(was);
        assert(models(nodes@) =~= with_node(all, dm));
    }
}

fn find_definition<'a>(definitions: &'a Vec<(String, String)>, lib_id: &str) -> (r: Option<&'a String>)
    ensures
        match r {
            Some(d) => definition_of(text_pairs(definitions@), lib_id@, 0) == Some(d@),
            None => definition_of(text_pairs(definitions@), lib_id@, 0).is_none(),
        },
{
    let ghost all = text_pairs(definitions@);
    let mut k: usize = 0;
    while k < definitions.len()
        invariant
            k <= definitions.len(),
            all == text_pairs(definitions@),
            definition_of(all, lib_id@, 0) == definition_of(all, lib_id@, k as int),
        decreases definitions.len() - k,
    {
        assert(all[k as int] == (definitions[k as int].0@, definitions[k as int].1@));
        if same(definitions[k].0.as_str(), lib_id) {
            return Some(&definitions[k].1);
        }
        k += 1;
    }
    None
}

/// The definition to look up after those that are there: the parent that the last of
/// them extends, unless it is among them.
pub open spec fn next_wanted(definitions: Seq<(Seq<char>, Seq<char>)>) -> Option<Seq<char>> {
    if definitions.len() == 0 {
        None
    } else {
        match parent_id(bytes(definitions.last().1)) {
            Some(p) => if definition_of(definitions, p, 0).is_none() {
                Some(p)
            } else {
                None
            },
            None => None,
        }
    }
}

/// Which definition to look up next, so that in the end a symbol's definition and
/// those of its parents are together. A ring of parents comes to an end.
pub fn next_definition(definitions: &Vec<(String, String)>) -> (r: Option<String>)
    ensures
        string_opt(r) == next_wanted(text_pairs(definitions@)),
{
    let n = definitions.len();
    let ghost all = text_pairs(definitions@);
    if n == 0 {
        return None;
    }
    assert(all.last() == all[n - 1]);
    assert(all[n - 1] == (definitions[n - 1].0@, definitions[n - 1].1@));
    match read_parent_id(definitions[n - 1].1.as_str()) {
        None => None,
        Some(p) => match find_definition(definitions, p.as_str()) {
            Some(_) => None,
            None => Some(p),
        },
    }
}

fn embed(
    nodes: &mut Vec<SexpNode>,
    lib_id: &str,
    definitions: &Vec<(String, String)>,
    fuel: usize,
) -> (r: bool)
    ensures
        (models(final(nodes)@), r) == embedded(
            models(old(nodes)@),
            lib_id@,
            text_pairs(definitions@),
            fuel as nat,
        ),
    decreases fuel,
{
    if nodes_define(nodes, resolve_escapes(lib_id).as_str()) {
        return true;
    }
    let raw = match find_definition(definitions, lib_id) {
        None => {
            return false;
        },
        Some(d) => d,
    };
    match read_parent_id(raw.as_str()) {
        Some(p) => {
            if fuel > 0 {
                let _ = embed(nodes, p.as_str(), definitions, fuel - 1);
            }
        },
        None => {},
    }
    match parse_sexp(raw.as_str()) {
        Ok(d) => {
            add_node(nodes, d);
            true
        },
        Err(_) => false,
    }
}

/// Embed the definition of `lib_id` in the schematic's `lib_symbols`, unless it is
/// there already, with the parents that it extends before it. `definitions` holds
/// what `lib_id` and its parents resolve to.
///
/// Returns `false` where the `lib_id` does not resolve: callers must report that,
/// since a symbol without its definition is invisible to KiCAD's netlister.
#[must_use]
pub fn ensure_lib_symbol(
    schematic: &mut Schematic,
    lib_id: &str,
    definitions: &Vec<(String, String)>,
) -> (r: bool)
    ensures
        (models(final(schematic).raw_other@), r) == embedded(
            models(old(schematic).raw_other@),
            lib_id@,
            text_pairs(definitions@),
            definitions@.len(),
        ),
        final(schematic).uuid == old(schematic).uuid,
{
    let mut nodes: Vec<SexpNode> = Vec::new();
    std::mem::swap(&mut nodes, &mut schematic.raw_other);
    let r = embed(&mut nodes, lib_id, definitions, definitions.len());
    schematic.raw_other = nodes;
    r
}

pub proof fn lemma_lib_symbols_at(nodes: Seq<Sexp>, k: int)
    ensures
        match lib_symbols_at(nodes, k) {
            Some(i) => k <= i < nodes.len() && tag_in(nodes[i]) == Some("lib_symbols"@),
            None => true,
        },
    decreases nodes.len() - k,
{
    if 0 <= k < nodes.len() && tag_in(nodes[k]) != Some("lib_symbols"@) {
        lemma_lib_symbols_at(nodes, k + 1);
    }
}

} // verus!
