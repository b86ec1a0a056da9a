//! Changes to many elements of a schematic at once.
//!
//! Each of them reads the file once, collects every change as an edit of that text
//! and writes at most once: where nothing matched, nothing is written, so that a
//! batch of typos cannot pass for a successful change. What is written is still one
//! balanced schematic.

use crate::blocks::quoted;
use crate::board_file::{commit, committed, written};
use crate::chars::{decimal, decimal_text, is_white, texts, white};
use crate::edit::{splices, SexpEdit, Splice};
use crate::graphics::append_place;
use crate::ident::{is_uuid, new_uuid};
use crate::number::{is_number, number};
use crate::sch_components::{field_place, find_field, no_instances_text};
#[allow(unused_imports)]
use crate::scan::{
    block_with_lead, cuttable, find_block_with_leading_whitespace, find_top_level_item,
    lemma_block_cuttable, range_of, top_level_item, CLOSE,
};
use crate::schematic::{find_symbol_instance_block, rename_symbol_edits, renamed, symbol_instance};
#[allow(unused_imports)]
use crate::sexp::{quoted_text, string_opt};
#[allow(unused_imports)]
use crate::text::{
    bytes, copy, find_byte, find_from, first_byte, first_match, lemma_ascii_boundary,
    lemma_bytes_ascii, lemma_bytes_injective, lemma_first_byte, lemma_match_boundary, length, put,
    rfind_byte, same, slice, text_of,
};
use vstd::prelude::*;
use vstd::string::*;

verus! {

// ─── What a batch comes to ───────────────────────────────────────────────────

/// A batch while it is collected: its edits, what it did and what it could not.
#[verifier::ext_equal]
pub struct Batch {
    pub edits: Seq<Splice>,
    pub done: Seq<Seq<char>>,
    pub errors: Seq<Seq<char>>,
}

/// A batch that has done nothing yet.
pub open spec fn empty_batch() -> Batch {
    Batch { edits: Seq::empty(), done: Seq::empty(), errors: Seq::empty() }
}

/// A batch with one more edit.
pub open spec fn with_edit(b: Batch, e: Splice, what: Seq<char>) -> Batch {
    Batch { edits: b.edits.push(e), done: b.done.push(what), ..b }
}

/// A batch with one more failure.
pub open spec fn with_error(b: Batch, why: Seq<char>) -> Batch {
    Batch { errors: b.errors.push(why), ..b }
}

/// What a batch came to.
#[derive(Debug)]
pub struct BatchOutcome {
    pub done: Vec<String>,
    pub errors: Vec<String>,
    /// The new schematic; `None` where nothing matched and nothing is to be
    /// written.
    pub content: Option<String>,
}

/// What a batch comes to on a schematic.
pub open spec fn finished(r: Result<BatchOutcome, String>, b: Batch, s: Seq<u8>, file: Seq<char>) -> bool {
    if b.edits.len() == 0 {
        r is Ok && texts(r->Ok_0.done@) == b.done && texts(r->Ok_0.errors@) == b.errors
            && r->Ok_0.content.is_none()
    } else {
        match committed(s, b.edits, "kicad_sch"@, file) {
            Err(e) => r is Err && r->Err_0@ == e,
            Ok(t) => r is Ok && texts(r->Ok_0.done@) == b.done && texts(r->Ok_0.errors@) == b.errors
                && r->Ok_0.content.is_some() && bytes(r->Ok_0.content.unwrap()@) == t,
        }
    }
}

/// A batch while it is collected.
struct Collected {
    edits: Vec<SexpEdit>,
    done: Vec<String>,
    errors: Vec<String>,
}

impl Collected {
    spec fn model(&self) -> Batch {
        Batch { edits: splices(self.edits@), done: texts(self.done@), errors: texts(self.errors@) }
    }

    fn start() -> (r: Collected)
        ensures
            r.model() == empty_batch(),
    {
        let r = Collected { edits: Vec::new(), done: Vec::new(), errors: Vec::new() };
        assert(r.model() =~= empty_batch());
        r
    }

    fn edit(&mut self, e: SexpEdit, what: &str)
        ensures
            final(self).model() == with_edit(old(self).model(), e.model(), what@),
    {
        let ghost was = self.model();
        let ghost m = e.model();
        self.edits.push(e);
        self.done.push(copy(what));
        assert(self.model() =~= with_edit(was, m, what@));
    }

    fn error(&mut self, why: String)
        ensures
            final(self).model() == with_error(old(self).model(), why@),
    {
        let ghost was = self.model();
        let ghost m = why@;
        self.errors.push(why);
        assert(self.model() =~= with_error(was, m));
    }

    fn finish(self, content: &str, file: &str) -> (r: Result<BatchOutcome, String>)
        ensures
            finished(r, self.model(), bytes(content@), file@),
    {
        if self.edits.len() == 0 {
            return Ok(BatchOutcome { done: self.done, errors: self.errors, content: None });
        }
        match commit(content, &self.edits, "kicad_sch", file) {
            Err(e) => Err(e),
            Ok(t) => Ok(BatchOutcome { done: self.done, errors: self.errors, content: Some(t) }),
        }
    }
}

fn around(before: &str, name: &str, after: &str) -> (r: String)
    ensures
        r@ == before@ + name@ + after@,
{
    let mut out = copy(before);
    put(&mut out, name);
    put(&mut out, after);
    out
}

// ─── Deleting ────────────────────────────────────────────────────────────────

/// The block of the symbol with the designator, with the white space before it.
pub open spec fn symbol_with_lead(s: Seq<u8>, reference: Seq<char>) -> Option<(int, int)> {
    match symbol_instance(s, reference) {
        None => None,
        Some((a, _)) => block_with_lead(s, a),
    }
}

/// Find the block of the symbol with the designator, with the white space before
/// it, so that deleting it leaves no blank line.
pub fn find_symbol_block(content: &str, reference: &str) -> (r: Option<(usize, usize)>)
    ensures
        range_of(r) == symbol_with_lead(bytes(content@), reference@),
        match r {
            Some((a, b)) => cuttable(bytes(content@), a as int, b as int) && a < b,
            None => true,
        },
{
    match find_symbol_instance_block(content, reference) {
        None => None,
        Some((a, _)) => find_block_with_leading_whitespace(content, a),
    }
}

/// The text that an item's uuid stands in.
pub open spec fn uuid_text(uuid: Seq<char>) -> Seq<char> {
    "(uuid \""@ + uuid + "\")"@
}

/// The deletion of the item with the uuid.
pub open spec fn delete_uuid_step(b: Batch, s: Seq<u8>, uuid: Seq<char>) -> Batch {
    match first_match(s, bytes(uuid_text(uuid)), 0) {
        None => with_error(b, "UUID '"@ + uuid + "' not found"@),
        Some(p) => match top_level_item(s, p) {
            None => with_error(b, "Cannot locate block for UUID '"@ + uuid + "'"@),
            Some((a, _)) => match block_with_lead(s, a) {
                None => with_error(b, "Cannot locate block for UUID '"@ + uuid + "'"@),
                Some((x, y)) => with_edit(
                    b,
                    Splice { start: x, end: y, bytes: Seq::empty() },
                    uuid,
                ),
            },
        },
    }
}

/// The deletion of the component with the designator.
pub open spec fn delete_reference_step(b: Batch, s: Seq<u8>, reference: Seq<char>) -> Batch {
    match symbol_with_lead(s, reference) {
        None => with_error(b, "Component '"@ + reference + "' not found"@),
        Some((x, y)) => with_edit(b, Splice { start: x, end: y, bytes: Seq::empty() }, reference),
    }
}

/// The deletion of the first `n` items by uuid.
pub open spec fn delete_uuids(s: Seq<u8>, uuids: Seq<Seq<char>>, n: int) -> Batch
    decreases n,
{
    if n <= 0 {
        empty_batch()
    } else {
        delete_uuid_step(delete_uuids(s, uuids, n - 1), s, uuids[n - 1])
    }
}

/// The deletion of the first `n` components, after `b`.
pub open spec fn delete_references(b: Batch, s: Seq<u8>, refs: Seq<Seq<char>>, n: int) -> Batch
    decreases n,
{
    if n <= 0 {
        b
    } else {
        delete_reference_step(delete_references(b, s, refs, n - 1), s, refs[n - 1])
    }
}

/// The deletion of items by uuid and of components by designator.
pub open spec fn deleted(s: Seq<u8>, uuids: Seq<Seq<char>>, refs: Seq<Seq<char>>) -> Batch {
    delete_references(delete_uuids(s, uuids, uuids.len() as int), s, refs, refs.len() as int)
}

impl Collected {
    fn delete_uuid(&mut self, content: &str, uuid: &str)
        ensures
            final(self).model() == delete_uuid_step(old(self).model(), bytes(content@), uuid@),
    {
        let pattern = around("(uuid \"", uuid, "\")");
        proof {
            reveal_strlit("(uuid \"");
            if bytes(pattern@).len() == 0 {
                assert(bytes(pattern@) =~= bytes(Seq::<char>::empty()));
                lemma_bytes_injective(pattern@, Seq::empty());
            }
        }
        match find_from(content, pattern.as_str(), 0) {
            None => {
                self.error(around("UUID '", uuid, "' not found"));
            },
            Some(p) => match find_top_level_item(content, p) {
                None => {
                    self.error(around("Cannot locate block for UUID '", uuid, "'"));
                },
                Some((a, _)) => match find_block_with_leading_whitespace(content, a) {
                    None => {
                        self.error(around("Cannot locate block for UUID '", uuid, "'"));
                    },
                    Some((x, y)) => {
                        self.edit(SexpEdit::delete(x, y), uuid);
                    },
                },
            },
        }
    }

    fn delete_reference(&mut self, content: &str, reference: &str)
        ensures
            final(self).model() == delete_reference_step(
                old(self).model(),
                bytes(content@),
                reference@,
            ),
    {
        match find_symbol_block(content, reference) {
            None => {
                self.error(around("Component '", reference, "' not found"));
            },
            Some((x, y)) => {
                self.edit(SexpEdit::delete(x, y), reference);
            },
        }
    }

    fn delete_all(&mut self, content: &str, refs: &Vec<String>)
        ensures
            final(self).model() == delete_references(
                old(self).model(),
                bytes(content@),
                texts(refs@),
                refs.len() as int,
            ),
    {
        let ghost all = texts(refs@);
        let ghost was = self.model();
        let mut i: usize = 0;
        while i < refs.len()
            invariant
                i <= refs.len(),
                all == texts(refs@),
                self.model() == delete_references(was, bytes(content@), all, i as int),
            decreases refs.len() - i,
        {
            assert(all[i as int] == refs[i as int]@);
            self.delete_reference(content, refs[i].as_str());
            i += 1;
        }
    }
}

/// Delete items by uuid and components by designator.
pub fn batch_delete(content: &str, uuids: &Vec<String>, references: &Vec<String>, file: &str) -> (r:
    Result<BatchOutcome, String>)
    ensures
        finished(
            r,
            deleted(bytes(content@), texts(uuids@), texts(references@)),
            bytes(content@),
            file@,
        ),
{
    let ghost s = bytes(content@);
    let ghost all = texts(uuids@);
    let mut b = Collected::start();
    let mut i: usize = 0;
    while i < uuids.len()
        invariant
            i <= uuids.len(),
            s == bytes(content@),
            all == texts(uuids@),
            b.model() == delete_uuids(s, all, i as int),
        decreases uuids.len() - i,
    {
        assert(all[i as int] == uuids[i as int]@);
        b.delete_uuid(content, uuids[i].as_str());
        i += 1;
    }
    b.delete_all(content, references);
    b.finish(content, file)
}

/// Delete components by designator.
pub fn batch_delete_components(content: &str, references: &Vec<String>, file: &str) -> (r: Result<
    BatchOutcome,
    String,
>)
    ensures
        finished(
            r,
            delete_references(
                empty_batch(),
                bytes(content@),
                texts(references@),
                references.len() as int,
            ),
            bytes(content@),
            file@,
        ),
{
    let mut b = Collected::start();
    b.delete_all(content, references);
    b.finish(content, file)
}

// ─── Moving ──────────────────────────────────────────────────────────────────

/// The words of a text up to its last white space, and what follows it.
pub open spec fn white_words_and_rest(t: Seq<char>) -> (Seq<Seq<char>>, Seq<char>)
    decreases t.len(),
{
    if t.len() == 0 {
        (Seq::empty(), Seq::empty())
    } else {
        let (done, rest) = white_words_and_rest(t.drop_last());
        if !is_white(t.last()) {
            (done, rest.push(t.last()))
        } else if rest.len() > 0 {
            (done.push(rest), Seq::empty())
        } else {
            (done, rest)
        }
    }
}

/// The words of a text, parted by white space.
pub open spec fn white_words(t: Seq<char>) -> Seq<Seq<char>> {
    let (done, rest) = white_words_and_rest(t);
    if rest.len() > 0 {
        done.push(rest)
    } else {
        done
    }
}

/// The words of a text.
pub fn split_white(t: &str) -> (r: Vec<String>)
    ensures
        texts(r@) == white_words(t@),
{
    let mut out: Vec<String> = Vec::new();
    let mut word = String::new();
    let mut rest = t;
    let ghost mut done: Seq<char> = Seq::empty();
    assert(texts(out@) =~= white_words_and_rest(done).0);
    while !rest.is_empty()
        invariant
            t@ == done + rest@,
            texts(out@) == white_words_and_rest(done).0,
            word@ == white_words_and_rest(done).1,
        decreases rest@.len(),
    {
        let c = rest.get_char(0);
        let tail = rest.substring_char(1, rest.unicode_len());
        let head = rest.substring_char(0, 1);
        proof {
            assert(head@ =~= seq![c]);
            assert(rest@ =~= seq![c] + tail@);
            assert(done + rest@ =~= done.push(c) + tail@);
            assert(done.push(c).drop_last() =~= done);
        }
        if white(c) {
            if !word.as_str().is_empty() {
                let ghost was = texts(out@);
                let ghost w = word@;
                out.push(word);
                assert(texts(out@) =~= was.push(w));
                word = String::new();
            }
        } else {
            let ghost was = word@;
            put(&mut word, head);
            assert(word@ =~= was.push(c));
        }
        proof {
            done = done.push(c);
        }
        rest = tail;
    }
    proof {
        assert(t@ =~= done);
    }
    if !word.as_str().is_empty() {
        let ghost was = texts(out@);
        let ghost w = word@;
        out.push(word);
        assert(texts(out@) =~= was.push(w));
    }
    out
}

/// The number that the word at `i` writes, or zero.
pub open spec fn number_or_zero(words: Seq<Seq<char>>, i: int) -> Seq<char> {
    if 0 <= i < words.len() && is_number(bytes(words[i])) {
        words[i]
    } else {
        "0"@
    }
}

/// Where a component stands, as far as a move needs it.
#[derive(Debug)]
pub enum MoveTarget {
    /// There is no such component.
    NotFound,
    /// Its block states no position.
    NoPosition,
    /// Its position stands at these bytes and reads so.
    At { start: usize, end: usize, x: String, y: String, rotation: String },
}

/// A move's target as a value.
pub enum Target {
    NotFound,
    NoPosition,
    At { start: int, end: int, x: Seq<char>, y: Seq<char>, rotation: Seq<char> },
}

impl MoveTarget {
    pub open spec fn model(&self) -> Target {
        match self {
            MoveTarget::NotFound => Target::NotFound,
            MoveTarget::NoPosition => Target::NoPosition,
            MoveTarget::At { start, end, x, y, rotation } => Target::At {
                start: *start as int,
                end: *end as int,
                x: x@,
                y: y@,
                rotation: rotation@,
            },
        }
    }
}

/// Where the component with the designator stands: the first `(at …)` of its
/// block.
pub open spec fn move_target(s: Seq<u8>, reference: Seq<char>) -> Target {
    match symbol_instance(s, reference) {
        None => Target::NotFound,
        Some((a, b)) => {
            let t = s.subrange(a, b);
            match first_match(t, bytes("(at "@), 0) {
                None => Target::NoPosition,
                Some(o) => {
                    let e = match first_byte(t, CLOSE, o) {
                        Some(e) => e,
                        None => o + 4,
                    };
                    let words = white_words(text_of(s.subrange(a + o + 4, a + e)));
                    Target::At {
                        start: a + o + 4,
                        end: a + e,
                        x: number_or_zero(words, 0),
                        y: number_or_zero(words, 1),
                        rotation: number_or_zero(words, 2),
                    }
                },
            }
        },
    }
}

fn word_or_zero(words: &Vec<String>, i: usize) -> (r: String)
    ensures
        r@ == number_or_zero(texts(words@), i as int),
{
    if i < words.len() {
        assert(texts(words@)[i as int] == words[i as int]@);
        if number(words[i].as_str()) {
            return copy(words[i].as_str());
        }
    }
    copy("0")
}

/// Find where the component with the designator stands.
pub fn find_move_target(content: &str, reference: &str) -> (r: MoveTarget)
    ensures
        r.model() == move_target(bytes(content@), reference@),
{
    let ghost s = bytes(content@);
    let (a, b) = match find_symbol_instance_block(content, reference) {
        None => {
            return MoveTarget::NotFound;
        },
        Some(x) => x,
    };
    proof {
        lemma_block_cuttable(content@, a as int, b as int);
    }
    let block = slice(content, a, b);
    let o = match find_from(block, "(at ", 0) {
        None => {
            return MoveTarget::NoPosition;
        },
        Some(o) => o,
    };
    let n = length(block);
    proof {
        reveal_strlit("(at ");
        lemma_bytes_ascii("(at "@);
        lemma_match_boundary(block@, o as int, "(at "@);
    }
    let ghost t = bytes(block@);
    let e = match find_byte(block, CLOSE, o) {
        Some(e) => {
            proof {
                lemma_first_byte(t, CLOSE, o as int);
                lemma_ascii_boundary(block@, e as int);
                assert forall|k: int| o <= k < o + 4 implies t[k] != CLOSE by {
                    assert(t.subrange(o as int, o + 4)[k - o] == t[k]);
                    assert(bytes("(at "@)[k - o] == t[k]);
                }
            }
            e
        },
        None => {
            assert(o + 4 <= n);
            o + 4
        },
    };
    let words = split_white(slice(block, o + 4, e));
    proof {
        assert(t.subrange(o + 4, e as int) =~= s.subrange(a + o + 4, a + e));
    }
    MoveTarget::At {
        start: a + o + 4,
        end: a + e,
        x: word_or_zero(&words, 0),
        y: word_or_zero(&words, 1),
        rotation: word_or_zero(&words, 2),
    }
}

/// Where components stand.
pub fn find_move_targets(content: &str, references: &Vec<String>) -> (r: Vec<MoveTarget>)
    ensures
        r.len() == references.len(),
        forall|i: int|
            0 <= i < r.len() ==> (#[trigger] r[i]).model() == move_target(
                bytes(content@),
                references[i]@,
            ),
{
    let mut out: Vec<MoveTarget> = Vec::new();
    let mut i: usize = 0;
    while i < references.len()
        invariant
            i <= references.len(),
            out.len() == i,
            forall|k: int|
                0 <= k < i ==> (#[trigger] out[k]).model() == move_target(
                    bytes(content@),
                    references[k]@,
                ),
        decreases references.len() - i,
    {
        out.push(find_move_target(content, references[i].as_str()));
        i += 1;
    }
    out
}

/// Where a component goes, in the text to be written.
#[derive(Debug)]
pub struct NewPlace {
    pub x: String,
    pub y: String,
    pub rotation: String,
}

/// The move of one component.
pub open spec fn move_step(b: Batch, s: Seq<u8>, reference: Seq<char>, to: NewPlace) -> Batch {
    match move_target(s, reference) {
        Target::NotFound => with_error(b, "'"@ + reference + "' not found"@),
        Target::NoPosition => with_error(b, "No (at) in symbol '"@ + reference + "'"@),
        Target::At { start, end, .. } => with_edit(
            b,
            Splice { start, end, bytes: bytes(to.x@ + " "@ + to.y@ + " "@ + to.rotation@) },
            reference,
        ),
    }
}

/// The moves of the first `n` components.
pub open spec fn moves(s: Seq<u8>, refs: Seq<Seq<char>>, to: Seq<NewPlace>, n: int) -> Batch
    decreases n,
{
    if n <= 0 {
        empty_batch()
    } else {
        move_step(moves(s, refs, to, n - 1), s, refs[n - 1], to[n - 1])
    }
}

/// Move components, each to its place.
pub fn bulk_move(content: &str, references: &Vec<String>, to: &Vec<NewPlace>, file: &str) -> (r: Result<
    BatchOutcome,
    String,
>)
    requires
        references.len() == to.len(),
    ensures
        finished(
            r,
            moves(bytes(content@), texts(references@), to@, references.len() as int),
            bytes(content@),
            file@,
        ),
{
    let ghost s = bytes(content@);
    let ghost all = texts(references@);
    let mut b = Collected::start();
    let mut i: usize = 0;
    while i < references.len()
        invariant
            i <= references.len(),
            references.len() == to.len(),
            s == bytes(content@),
            all == texts(references@),
            b.model() == moves(s, all, to@, i as int),
        decreases references.len() - i,
    {
        assert(all[i as int] == references[i as int]@);
        let reference = references[i].as_str();
        match find_move_target(content, reference) {
            MoveTarget::NotFound => {
                b.error(around("'", reference, "' not found"));
            },
            MoveTarget::NoPosition => {
                b.error(around("No (at) in symbol '", reference, "'"));
            },
            MoveTarget::At { start, end, .. } => {
                let mut place = copy(to[i].x.as_str());
                put(&mut place, " ");
                put(&mut place, to[i].y.as_str());
                put(&mut place, " ");
                put(&mut place, to[i].rotation.as_str());
                b.edit(SexpEdit::replace(start, end, place), reference);
            },
        }
        i += 1;
    }
    b.finish(content, file)
}

// ─── Editing ─────────────────────────────────────────────────────────────────

/// A change to a component as it was asked for; what is not given, or not a text,
/// is `None`.
#[derive(Debug)]
pub struct EditSpec {
    pub reference: Option<String>,
    pub new_reference: Option<String>,
    pub value: Option<String>,
    pub footprint: Option<String>,
    pub fields: Vec<(String, Option<String>)>,
}

/// The changes made to one component.
#[derive(Debug)]
pub struct ComponentChanges {
    pub reference: String,
    pub changes: Vec<String>,
}

/// The changes made to one component, as a value.
pub struct Changes {
    pub reference: Seq<char>,
    pub changes: Seq<Seq<char>>,
}

/// Edits while they are collected.
#[verifier::ext_equal]
pub struct Edits {
    pub edits: Seq<Splice>,
    pub changed: Seq<Changes>,
    pub errors: Seq<Seq<char>>,
}

/// The edits of one component while they are collected.
#[verifier::ext_equal]
pub struct OneEdit {
    pub edits: Seq<Splice>,
    pub changes: Seq<Seq<char>>,
    pub errors: Seq<Seq<char>>,
}

/// The value of the field with the name among those given, from `k` on.
pub open spec fn given_field(fields: Seq<(String, Option<String>)>, name: Seq<char>, k: int) -> Option<
    Seq<char>,
>
    decreases fields.len() - k,
{
    if k < 0 || k >= fields.len() {
        None
    } else if fields[k].0@ == name {
        string_opt(fields[k].1)
    } else {
        given_field(fields, name, k + 1)
    }
}

/// The new designator that is asked for, however it is spelled: a designator is
/// stored twice and never goes through the path of a single field.
pub open spec fn asked_reference(e: EditSpec) -> Option<Seq<char>> {
    match e.new_reference {
        Some(r) => Some(r@),
        None => given_field(e.fields@, "Reference"@, 0),
    }
}

/// The change of the designator.
pub open spec fn rename_one(o: OneEdit, s: Seq<u8>, reference: Seq<char>, new_name: Option<Seq<char>>)
    -> OneEdit {
    match new_name {
        None => o,
        Some(n) => match renamed(s, reference, n) {
            Err(e) => OneEdit {
                errors: o.errors.push("Reference on '"@ + reference + "': "@ + e),
                ..o
            },
            Ok(r) => if r.instances > 0 {
                OneEdit {
                    edits: o.edits + r.edits,
                    changes: o.changes.push("Reference → "@ + n).push(
                        "instances reference → "@ + n + " ("@ + decimal(r.instances as nat) + ")"@,
                    ),
                    ..o
                }
            } else {
                OneEdit {
                    edits: o.edits + r.edits,
                    changes: o.changes.push("Reference → "@ + n),
                    errors: o.errors.push(no_instances_text(reference)),
                }
            },
        },
    }
}

/// The change of a field.
pub open spec fn set_one(
    o: OneEdit,
    s: Seq<u8>,
    reference: Seq<char>,
    field: Seq<char>,
    value: Option<Seq<char>>,
) -> OneEdit {
    match value {
        None => o,
        Some(v) => match field_place(s, reference, field) {
            Ok((a, b)) => OneEdit {
                edits: o.edits.push(Splice { start: a, end: b, bytes: bytes(v) }),
                changes: o.changes.push(field + " → "@ + v),
                ..o
            },
            Err(_) => OneEdit {
                errors: o.errors.push("Field '"@ + field + "' not found on '"@ + reference + "'"@),
                ..o
            },
        },
    }
}

/// The changes of the first `n` extra fields; the designator is not among them.
pub open spec fn set_fields(
    o: OneEdit,
    s: Seq<u8>,
    reference: Seq<char>,
    fields: Seq<(String, Option<String>)>,
    n: int,
) -> OneEdit
    decreases n,
{
    if n <= 0 {
        o
    } else {
        let before = set_fields(o, s, reference, fields, n - 1);
        if fields[n - 1].0@ == "Reference"@ {
            before
        } else {
            set_one(before, s, reference, fields[n - 1].0@, string_opt(fields[n - 1].1))
        }
    }
}

/// All the changes of one component.
pub open spec fn edit_one(s: Seq<u8>, reference: Seq<char>, e: EditSpec) -> OneEdit {
    let start = OneEdit { edits: Seq::empty(), changes: Seq::empty(), errors: Seq::empty() };
    let a = rename_one(start, s, reference, asked_reference(e));
    let b = set_one(a, s, reference, "Value"@, string_opt(e.value));
    let c = set_one(b, s, reference, "Footprint"@, string_opt(e.footprint));
    set_fields(c, s, reference, e.fields@, e.fields@.len() as int)
}

/// The changes of the first `n` components asked for.
pub open spec fn edit_all(s: Seq<u8>, specs: Seq<EditSpec>, n: int) -> Edits
    decreases n,
{
    if n <= 0 {
        Edits { edits: Seq::empty(), changed: Seq::empty(), errors: Seq::empty() }
    } else {
        let before = edit_all(s, specs, n - 1);
        match specs[n - 1].reference {
            None => Edits {
                errors: before.errors.push("Missing 'reference' in edit spec"@),
                ..before
            },
            Some(r) => {
                let o = edit_one(s, r@, specs[n - 1]);
                Edits {
                    edits: before.edits + o.edits,
                    changed: if o.changes.len() == 0 {
                        before.changed
                    } else {
                        before.changed.push(Changes { reference: r@, changes: o.changes })
                    },
                    errors: before.errors + o.errors,
                }
            },
        }
    }
}

/// What a batch of edits came to.
#[derive(Debug)]
pub struct EditOutcome {
    pub updated: Vec<ComponentChanges>,
    pub errors: Vec<String>,
    /// The new schematic; `None` where nothing is to be written.
    pub content: Option<String>,
}

/// The values of changes.
pub open spec fn changes_of(v: Seq<ComponentChanges>) -> Seq<Changes> {
    Seq::new(v.len(), |i: int| Changes { reference: v[i].reference@, changes: texts(v[i].changes@) })
}

struct One {
    edits: Vec<SexpEdit>,
    changes: Vec<String>,
    errors: Vec<String>,
}

impl One {
    spec fn model(&self) -> OneEdit {
        OneEdit {
            edits: splices(self.edits@),
            changes: texts(self.changes@),
            errors: texts(self.errors@),
        }
    }

    fn change(&mut self, t: String)
        ensures
            final(self).model() == (OneEdit {
                changes: old(self).model().changes.push(t@),
                ..old(self).model()
            }),
    {
        let ghost was = texts(self.changes@);
        let ghost m = t@;
        self.changes.push(t);
        assert(texts(self.changes@) =~= was.push(m));
    }

    fn error(&mut self, t: String)
        ensures
            final(self).model() == (OneEdit {
                errors: old(self).model().errors.push(t@),
                ..old(self).model()
            }),
    {
        let ghost was = texts(self.errors@);
        let ghost m = t@;
        self.errors.push(t);
        assert(texts(self.errors@) =~= was.push(m));
    }

    fn rename(&mut self, content: &str, reference: &str, new_name: Option<&str>)
        ensures
            final(self).model() == rename_one(
                old(self).model(),
                bytes(content@),
                reference@,
                crate::sexp::text_opt(new_name),
            ),
    {
        match new_name {
            None => {},
            Some(n) => match rename_symbol_edits(content, reference, n) {
                Err(e) => {
                    let mut t = around("Reference on '", reference, "': ");
                    put(&mut t, e.as_str());
                    self.error(t);
                },
                Ok((mut more, outcome)) => {
                    let ghost was = splices(self.edits@);
                    let ghost next = splices(more@);
                    self.edits.append(&mut more);
                    assert(splices(self.edits@) =~= was + next);
                    let mut head = copy("Reference → ");
                    put(&mut head, n);
                    self.change(head);
                    if outcome.instances > 0 {
                        let mut t = copy("instances reference → ");
                        put(&mut t, n);
                        put(&mut t, " (");
                        put(&mut t, decimal_text(outcome.instances as u64).as_str());
                        put(&mut t, ")");
                        self.change(t);
                    } else {
                        self.error(
                            around(
                                "instances: '",
                                reference,
                                "' has no (instances …) entry, so 'Update PCB from Schematic' will not see the new name",
                            ),
                        );
                    }
                },
            },
        }
    }

    fn set(&mut self, content: &str, reference: &str, field: &str, value: &Option<String>)
        ensures
            final(self).model() == set_one(
                old(self).model(),
                bytes(content@),
                reference@,
                field@,
                string_opt(*value),
            ),
    {
        match value {
            None => {},
            Some(v) => match field_value_range(content, reference, field) {
                Some((a, b)) => {
                    let ghost was = splices(self.edits@);
                    let e = SexpEdit::replace(a, b, copy(v.as_str()));
                    let ghost m = e.model();
                    self.edits.push(e);
                    assert(splices(self.edits@) =~= was.push(m));
                    let mut t = around(field, " → ", v.as_str());
                    self.change(t);
                },
                None => {
                    let mut t = around("Field '", field, "' not found on '");
                    put(&mut t, reference);
                    put(&mut t, "'");
                    self.error(t);
                },
            },
        }
    }
}

/// Where the value of a field of the component with the designator stands, its
/// quotes excluded.
pub fn field_value_range(content: &str, reference: &str, field: &str) -> (r: Option<(usize, usize)>)
    ensures
        match field_place(bytes(content@), reference@, field@) {
            Ok((a, b)) => r == Some((a as usize, b as usize)) && range_of(r) == Some((a, b)) && cuttable(
                bytes(content@),
                a,
                b,
            ),
            Err(_) => r.is_none(),
        },
{
    match find_field(content, reference, field) {
        Ok((a, b)) => Some((a, b)),
        Err(_) => None,
    }
}

fn find_given_field<'a>(fields: &'a Vec<(String, Option<String>)>, name: &str) -> (r: Option<&'a str>)
    ensures
        crate::sexp::text_opt(r) == given_field(fields@, name@, 0),
{
    let mut k: usize = 0;
    while k < fields.len()
        invariant
            k <= fields.len(),
            given_field(fields@, name@, 0) == given_field(fields@, name@, k as int),
        decreases fields.len() - k,
    {
        if same(fields[k].0.as_str(), name) {
            return match &fields[k].1 {
                Some(t) => Some(t.as_str()),
                None => None,
            };
        }
        k += 1;
    }
    None
}

fn collect_one(content: &str, reference: &str, e: &EditSpec) -> (r: One)
    ensures
        r.model() == edit_one(bytes(content@), reference@, *e),
{
    let ghost s = bytes(content@);
    let mut o = One { edits: Vec::new(), changes: Vec::new(), errors: Vec::new() };
    assert(o.model() =~= (OneEdit {
        edits: Seq::empty(),
        changes: Seq::empty(),
        errors: Seq::empty(),
    }));
    let asked: Option<&str> = match &e.new_reference {
        Some(t) => Some(t.as_str()),
        None => find_given_field(&e.fields, "Reference"),
    };
    o.rename(content, reference, asked);
    o.set(content, reference, "Value", &e.value);
    o.set(content, reference, "Footprint", &e.footprint);
    let ghost c = o.model();
    let mut k: usize = 0;
    while k < e.fields.len()
        invariant
            k <= e.fields.len(),
            s == bytes(content@),
            o.model() == set_fields(c, s, reference@, e.fields@, k as int),
        decreases e.fields.len() - k,
    {
        if !same(e.fields[k].0.as_str(), "Reference") {
            o.set(content, reference, e.fields[k].0.as_str(), &e.fields[k].1);
        }
        k += 1;
    }
    o
}

/// Change fields of many components. Every edit is made against the text as it was
/// read, and all of them are written in one go.
pub fn batch_edit(content: &str, specs: &Vec<EditSpec>, file: &str) -> (r: Result<EditOutcome, String>)
    ensures
        ({
            let all = edit_all(bytes(content@), specs@, specs.len() as int);
            if all.edits.len() == 0 {
                r is Ok && changes_of(r->Ok_0.updated@) == all.changed && texts(r->Ok_0.errors@)
                    == all.errors && r->Ok_0.content.is_none()
            } else {
                match committed(bytes(content@), all.edits, "kicad_sch"@, file@) {
                    Err(e) => r is Err && r->Err_0@ == e,
                    Ok(t) => r is Ok && changes_of(r->Ok_0.updated@) == all.changed && texts(
                        r->Ok_0.errors@,
                    ) == all.errors && r->Ok_0.content.is_some() && bytes(
                        r->Ok_0.content.unwrap()@,
                    ) == t,
                }
            }
        }),
{
    let ghost s = bytes(content@);
    let mut edits: Vec<SexpEdit> = Vec::new();
    let mut updated: Vec<ComponentChanges> = Vec::new();
    let mut errors: Vec<String> = Vec::new();
    let mut i: usize = 0;
    proof {
        assert(splices(edits@) =~= Seq::<Splice>::empty());
        assert(changes_of(updated@) =~= Seq::<Changes>::empty());
        assert(texts(errors@) =~= Seq::<Seq<char>>::empty());
    }
    while i < specs.len()
        invariant
            i <= specs.len(),
            s == bytes(content@),
            splices(edits@) == edit_all(s, specs@, i as int).edits,
            changes_of(updated@) == edit_all(s, specs@, i as int).changed,
            texts(errors@) == edit_all(s, specs@, i as int).errors,
        decreases specs.len() - i,
    {
        match &specs[i].reference {
            None => {
                let ghost was = texts(errors@);
                errors.push(copy("Missing 'reference' in edit spec"));
                assert(texts(errors@) =~= was.push("Missing 'reference' in edit spec"@));
            },
            Some(reference) => {
                let mut o = collect_one(content, reference.as_str(), &specs[i]);
                let ghost m = o.model();
                let ghost was_edits = splices(edits@);
                let ghost was_errors = texts(errors@);
                edits.append(&mut o.edits);
                errors.append(&mut o.errors);
                proof {
                    assert(splices(edits@) =~= was_edits + m.edits);
                    assert(texts(errors@) =~= was_errors + m.errors);
                }
                if o.changes.len() > 0 {
                    let ghost was = changes_of(updated@);
                    let One { edits: _, changes, errors: _ } = o;
                    updated.push(ComponentChanges { reference: copy(reference.as_str()), changes });
                    assert(changes_of(updated@) =~= was.push(
                        Changes { reference: reference@, changes: m.changes },
                    ));
                }
            },
        }
        i += 1;
    }
    if edits.len() == 0 {
        return Ok(EditOutcome { updated, errors, content: None });
    }
    match commit(content, &edits, "kicad_sch", file) {
        Err(e) => Err(e),
        Ok(t) => Ok(EditOutcome { updated, errors, content: Some(t) }),
    }
}

/// A batch that matches nothing writes nothing.
pub proof fn law_no_match_no_write(r: Result<BatchOutcome, String>, b: Batch, s: Seq<u8>, file: Seq<char>)
    requires
        finished(r, b, s, file),
        b.edits.len() == 0,
    ensures
        r is Ok,
        r->Ok_0.content.is_none(),
{
}

/// Every edit of a deletion or a move is one that was reported as done, so that
/// what is not found leaves no edit.
pub proof fn law_each_deletion_is_reported(s: Seq<u8>, uuids: Seq<Seq<char>>, refs: Seq<Seq<char>>)
    ensures
        deleted(s, uuids, refs).edits.len() == deleted(s, uuids, refs).done.len(),
        deleted(s, uuids, refs).done.len() + deleted(s, uuids, refs).errors.len() == uuids.len()
            + refs.len(),
{
    lemma_uuids_reported(s, uuids, uuids.len() as int);
    lemma_references_reported(
        delete_uuids(s, uuids, uuids.len() as int),
        s,
        refs,
        refs.len() as int,
    );
}

proof fn lemma_uuids_reported(s: Seq<u8>, uuids: Seq<Seq<char>>, n: int)
    requires
        0 <= n,
    ensures
        delete_uuids(s, uuids, n).edits.len() == delete_uuids(s, uuids, n).done.len(),
        delete_uuids(s, uuids, n).done.len() + delete_uuids(s, uuids, n).errors.len() == n,
    decreases n,
{
    if n > 0 {
        lemma_uuids_reported(s, uuids, n - 1);
    }
}

proof fn lemma_references_reported(b: Batch, s: Seq<u8>, refs: Seq<Seq<char>>, n: int)
    requires
        0 <= n,
    ensures
        delete_references(b, s, refs, n).edits.len() - b.edits.len() == delete_references(
            b,
            s,
            refs,
            n,
        ).done.len() - b.done.len(),
        delete_references(b, s, refs, n).done.len() + delete_references(b, s, refs, n).errors.len()
            == b.done.len() + b.errors.len() + n,
    decreases n,
{
    if n > 0 {
        lemma_references_reported(b, s, refs, n - 1);
    }
}

// ─── Adding ──────────────────────────────────────────────────────────────────

/// A placed component and the numbers of its pins.
#[derive(Debug)]
pub struct PlacedPins {
    pub reference: String,
    pub pins: Vec<String>,
}

/// The first component with the designator, from `k` on.
pub open spec fn placed_at(placed: Seq<PlacedPins>, reference: Seq<char>, k: int) -> Option<int>
    decreases placed.len() - k,
{
    if k < 0 || k >= placed.len() {
        None
    } else if placed[k].reference@ == reference {
        Some(k)
    } else {
        placed_at(placed, reference, k + 1)
    }
}

/// The first pin with the number, from `k` on.
pub open spec fn pin_at(pins: Seq<String>, number: Seq<char>, k: int) -> Option<int>
    decreases pins.len() - k,
{
    if k < 0 || k >= pins.len() {
        None
    } else if pins[k]@ == number {
        Some(k)
    } else {
        pin_at(pins, number, k + 1)
    }
}

/// Find a component by its designator, and the pin with the number on it.
pub fn find_pin(placed: &Vec<PlacedPins>, reference: &str, pin_number: &str) -> (r: Option<
    (usize, Option<usize>),
>)
    ensures
        match placed_at(placed@, reference@, 0) {
            None => r.is_none(),
            Some(c) => r matches Some((i, p)) && i == c && i < placed.len() && match pin_at(
                placed[c].pins@,
                pin_number@,
                0,
            ) {
                None => p.is_none(),
                Some(k) => p matches Some(j) && j == k && j < placed[c].pins.len(),
            },
        },
{
    let mut i: usize = 0;
    while i < placed.len()
        invariant
            i <= placed.len(),
            placed_at(placed@, reference@, 0) == placed_at(placed@, reference@, i as int),
        decreases placed.len() - i,
    {
        if same(placed[i].reference.as_str(), reference) {
            let pins = &placed[i].pins;
            let mut k: usize = 0;
            while k < pins.len()
                invariant
                    i < placed.len(),
                    pins@ == placed[i as int].pins@,
                    placed_at(placed@, reference@, 0) == Some(i as int),
                    k <= pins.len(),
                    pin_at(pins@, pin_number@, 0) == pin_at(pins@, pin_number@, k as int),
                decreases pins.len() - k,
            {
                if same(pins[k].as_str(), pin_number) {
                    return Some((i, Some(k)));
                }
                k += 1;
            }
            return Some((i, None));
        }
        i += 1;
    }
    None
}

/// A pin to be put on a net, as it was asked for and as it was found.
#[derive(Debug)]
pub struct PinSpec {
    pub reference: Option<String>,
    pub pin_number: Option<String>,
    /// Whether the schematic has a component with the designator.
    pub component_found: bool,
    /// The label to put on the pin's end, where the pin was found.
    pub label: Option<String>,
}

/// The labels to put down, on which pins, and what could not be found.
#[verifier::ext_equal]
pub struct Labels {
    pub text: Seq<char>,
    pub added: Seq<int>,
    pub errors: Seq<Seq<char>>,
}

/// The labels for the first `n` pins.
pub open spec fn labels_for(pins: Seq<PinSpec>, n: int) -> Labels
    decreases n,
{
    if n <= 0 {
        Labels { text: Seq::empty(), added: Seq::empty(), errors: Seq::empty() }
    } else {
        let b = labels_for(pins, n - 1);
        let p = pins[n - 1];
        match p.reference {
            None => Labels { errors: b.errors.push("Missing 'reference' in pin spec"@), ..b },
            Some(r) => match p.pin_number {
                None => Labels { errors: b.errors.push("Missing 'pin_number' in pin spec"@), ..b },
                Some(k) => if !p.component_found {
                    Labels { errors: b.errors.push("Component '"@ + r@ + "' not found"@), ..b }
                } else {
                    match p.label {
                        Some(t) => Labels { text: b.text + t@, added: b.added.push(n - 1), ..b },
                        None => Labels {
                            errors: b.errors.push("Pin '"@ + k@ + "' not found on '"@ + r@ + "'"@),
                            ..b
                        },
                    }
                },
            },
        }
    }
}

/// The schematic with new items before its last closing parenthesis, as long as it
/// is still one balanced block.
pub open spec fn with_items(s: Seq<u8>, text: Seq<char>, file: Seq<char>) -> Result<
    Seq<u8>,
    Seq<char>,
> {
    committed(
        s,
        seq![Splice { start: append_place(s), end: append_place(s), bytes: bytes(text) }],
        "kicad_sch"@,
        file,
    )
}

/// Put new items before the schematic's last closing parenthesis.
pub fn add_items(content: &str, text: String, file: &str) -> (r: Result<String, String>)
    ensures
        written(r) == with_items(bytes(content@), text@, file@),
{
    let at: usize = match rfind_byte(content, CLOSE) {
        Some(p) => p,
        None => length(content),
    };
    let ghost t = text@;
    let mut edits: Vec<SexpEdit> = Vec::new();
    edits.push(SexpEdit::insert(at, text));
    assert(splices(edits@) =~= seq![
        Splice { start: at as int, end: at as int, bytes: bytes(t) },
    ]);
    commit(content, &edits, "kicad_sch", file)
}

/// What putting pins on a net came to.
#[derive(Debug)]
pub struct ConnectOutcome {
    /// Which of the pins got a label, by position.
    pub added: Vec<usize>,
    pub errors: Vec<String>,
    /// The new schematic; `None` where nothing is to be written.
    pub content: Option<String>,
}

/// What putting pins on a net comes to on a schematic.
pub open spec fn connected(
    r: Result<ConnectOutcome, String>,
    pins: Seq<PinSpec>,
    s: Seq<u8>,
    file: Seq<char>,
) -> bool {
    let l = labels_for(pins, pins.len() as int);
    if l.text.len() == 0 {
        r is Ok && crate::scan::offsets(r->Ok_0.added@) == l.added && texts(r->Ok_0.errors@)
            == l.errors && r->Ok_0.content.is_none()
    } else {
        match with_items(s, l.text, file) {
            Err(e) => r is Err && r->Err_0@ == e,
            Ok(t) => r is Ok && crate::scan::offsets(r->Ok_0.added@) == l.added && texts(
                r->Ok_0.errors@,
            ) == l.errors && r->Ok_0.content.is_some() && bytes(r->Ok_0.content.unwrap()@) == t,
        }
    }
}

/// Put a net's label on each of the pins, in one write.
pub fn batch_connect_to_net(content: &str, pins: &Vec<PinSpec>, file: &str) -> (r: Result<
    ConnectOutcome,
    String,
>)
    ensures
        connected(r, pins@, bytes(content@), file@),
{
    let mut text = String::new();
    let mut added: Vec<usize> = Vec::new();
    let mut errors: Vec<String> = Vec::new();
    let mut i: usize = 0;
    proof {
        assert(crate::scan::offsets(added@) =~= Seq::<int>::empty());
        assert(texts(errors@) =~= Seq::<Seq<char>>::empty());
    }
    while i < pins.len()
        invariant
            i <= pins.len(),
            text@ == labels_for(pins@, i as int).text,
            crate::scan::offsets(added@) == labels_for(pins@, i as int).added,
            texts(errors@) == labels_for(pins@, i as int).errors,
        decreases pins.len() - i,
    {
        let p = &pins[i];
        let ghost was = texts(errors@);
        let mut why: Option<String> = None;
        match &p.reference {
            None => {
                why = Some(copy("Missing 'reference' in pin spec"));
            },
            Some(reference) => match &p.pin_number {
                None => {
                    why = Some(copy("Missing 'pin_number' in pin spec"));
                },
                Some(number) => {
                    if !p.component_found {
                        why = Some(around("Component '", reference.as_str(), "' not found"));
                    } else {
                        match &p.label {
                            Some(t) => {
                                let ghost before = crate::scan::offsets(added@);
                                put(&mut text, t.as_str());
                                added.push(i);
                                assert(crate::scan::offsets(added@) =~= before.push(i as int));
                            },
                            None => {
                                let mut t = around("Pin '", number.as_str(), "' not found on '");
                                put(&mut t, reference.as_str());
                                put(&mut t, "'");
                                why = Some(t);
                            },
                        }
                    }
                },
            },
        }
        match why {
            Some(t) => {
                let ghost m = t@;
                errors.push(t);
                assert(texts(errors@) =~= was.push(m));
            },
            None => {},
        }
        i += 1;
    }
    if text.as_str().is_empty() {
        return Ok(ConnectOutcome { added, errors, content: None });
    }
    match add_items(content, text, file) {
        Err(e) => Err(e),
        Ok(t) => Ok(ConnectOutcome { added, errors, content: Some(t) }),
    }
}

/// Which way a stub goes from its root, in steps along each axis, and how its label
/// is turned.
#[derive(Clone, Copy, Debug, PartialEq, Eq, Structural)]
pub struct StubDirection {
    pub dx: i8,
    pub dy: i8,
    pub label_rotation: u16,
}

/// Which way a stub goes: to the right unless another way is named.
pub open spec fn stub_of(direction: Seq<char>) -> StubDirection {
    if direction == "left"@ {
        StubDirection { dx: -1i8, dy: 0, label_rotation: 180 }
    } else if direction == "up"@ {
        StubDirection { dx: 0, dy: -1i8, label_rotation: 90 }
    } else if direction == "down"@ {
        StubDirection { dx: 0, dy: 1, label_rotation: 270 }
    } else {
        StubDirection { dx: 1, dy: 0, label_rotation: 0 }
    }
}

/// Which way a stub goes.
pub fn stub_direction(direction: &str) -> (r: StubDirection)
    ensures
        r == stub_of(direction@),
{
    if same(direction, "left") {
        StubDirection { dx: -1, dy: 0, label_rotation: 180 }
    } else if same(direction, "up") {
        StubDirection { dx: 0, dy: -1, label_rotation: 90 }
    } else if same(direction, "down") {
        StubDirection { dx: 0, dy: 1, label_rotation: 270 }
    } else {
        StubDirection { dx: 1, dy: 0, label_rotation: 0 }
    }
}

/// Put a stub and its label on the schematic.
pub fn connect_passthrough(content: &str, wire: &str, label: &str, file: &str) -> (r: Result<
    String,
    String,
>)
    ensures
        written(r) == with_items(bytes(content@), wire@ + label@, file@),
{
    let mut text = copy(wire);
    put(&mut text, label);
    add_items(content, text, file)
}

/// A piece of text to put on a schematic, its numbers as they are to be written.
#[derive(Debug)]
pub struct SchematicText {
    pub text: String,
    pub x: String,
    pub y: String,
    pub rotation: String,
    pub size: String,
}

/// A `(text …)` item. Quotes and backslashes in it get a backslash.
pub open spec fn text_item(t: SchematicText, uuid: Seq<char>) -> Seq<char> {
    "\n  (text "@ + quoted_text(t.text@) + "\n    (at "@ + t.x@ + " "@ + t.y@ + " "@ + t.rotation@
        + ")\n    (effects (font (size "@ + t.size@ + " "@ + t.size@ + ")))\n    (uuid \""@ + uuid
        + "\")\n  )"@
}

/// Put a piece of text on the schematic, under the given uuid.
pub fn add_schematic_text_as(content: &str, t: &SchematicText, uuid: &str, file: &str) -> (r: Result<
    String,
    String,
>)
    ensures
        written(r) == with_items(bytes(content@), text_item(*t, uuid@), file@),
{
    let mut out = copy("\n  (text ");
    put(&mut out, quoted(t.text.as_str()).as_str());
    put(&mut out, "\n    (at ");
    put(&mut out, t.x.as_str());
    put(&mut out, " ");
    put(&mut out, t.y.as_str());
    put(&mut out, " ");
    put(&mut out, t.rotation.as_str());
    put(&mut out, ")\n    (effects (font (size ");
    put(&mut out, t.size.as_str());
    put(&mut out, " ");
    put(&mut out, t.size.as_str());
    put(&mut out, ")))\n    (uuid \"");
    put(&mut out, uuid);
    put(&mut out, "\")\n  )");
    add_items(content, out, file)
}

/// Put a piece of text on the schematic, with a fresh uuid.
pub fn add_schematic_text(content: &str, t: &SchematicText, file: &str) -> (r: (
    String,
    Result<String, String>,
))
    ensures
        is_uuid(r.0@),
        written(r.1) == with_items(bytes(content@), text_item(*t, r.0@), file@),
{
    let uuid = new_uuid();
    let out = add_schematic_text_as(content, t, uuid.as_str(), file);
    (uuid, out)
}

} // verus!
