//! Placed symbols of a schematic, and collections of them.

use crate::chars::{decimal, decimal_text, parse_unsigned, unsigned_value};
use crate::ident::{is_uuid, new_uuid};
#[allow(unused_imports)]
use crate::sexp::{
    atom, child_in, child_text, children_in, items_in, lemma_models, lemma_tagged_at, models,
    node_refs, push_node, qstr, string_opt, tag_in, tagged, tagged_at, text_at, text_in, text_opt,
    yes_no, Sexp, SexpNode,
};
use crate::similar::begins;
#[allow(unused_imports)]
use crate::text::{bytes, copy, match_at, same};
#[allow(unused_imports)]
use crate::types::{
    at_sexp, at_text, find_tagged, moved_to, pair_opt, position_of, property_sexp, property_text,
    push_copies, set_node, At, AtText, Property, PropertyText,
};
use vstd::prelude::*;
use vstd::string::*;

verus! {

/// `yes` or `no`.
pub open spec fn bool_word(v: bool) -> Seq<char> {
    if v {
        "yes"@
    } else {
        "no"@
    }
}

/// `yes` or `no`.
pub fn bool_kw(v: bool) -> (r: &'static str)
    ensures
        r@ == bool_word(v),
{
    if v {
        "yes"
    } else {
        "no"
    }
}

// ─── Symbols ─────────────────────────────────────────────────────────────────

/// A placed symbol.
#[derive(Debug)]
pub struct Symbol {
    pub lib_id: String,
    pub at: At,
    pub mirror: Option<String>,
    pub unit: u32,
    pub in_bom: bool,
    pub on_board: bool,
    pub dnp: bool,
    pub fields_autoplaced: bool,
    pub uuid: String,
    pub properties: Vec<Property>,
    /// The `pin` and `instances` nodes, kept as they are.
    pub raw_sub_nodes: Vec<SexpNode>,
}

/// A placed symbol as a value.
#[verifier::ext_equal]
pub struct Placed {
    pub lib_id: Seq<char>,
    pub at: AtText,
    pub mirror: Option<Seq<char>>,
    pub unit: int,
    pub in_bom: bool,
    pub on_board: bool,
    pub dnp: bool,
    pub fields_autoplaced: bool,
    pub uuid: Seq<char>,
    pub properties: Seq<PropertyText>,
    pub raw_sub_nodes: Seq<Sexp>,
}

/// A field that a symbol must have.
#[derive(Clone, Copy, Debug, PartialEq, Eq, Structural)]
pub enum SymbolError {
    /// There is no `lib_id`.
    MissingLibId,
    /// There is no position, or it is not two numbers.
    MissingAt,
}

/// The values of properties.
pub open spec fn property_models(v: Seq<Property>) -> Seq<PropertyText> {
    Seq::new(v.len(), |i: int| v[i].model())
}

/// The properties that the first `n` nodes state.
pub open spec fn properties_in(nodes: Seq<Sexp>, n: int) -> Seq<PropertyText>
    decreases n,
{
    if n <= 0 {
        Seq::empty()
    } else {
        match property_text(nodes[n - 1]) {
            Some(p) => properties_in(nodes, n - 1).push(p),
            None => properties_in(nodes, n - 1),
        }
    }
}

/// The nodes after the tag, among the first `n`, that are kept as they are.
pub open spec fn kept_in(items: Seq<Sexp>, n: int) -> Seq<Sexp>
    decreases n,
{
    if n <= 1 {
        Seq::empty()
    } else if tag_in(items[n - 1]) == Some("pin"@) || tag_in(items[n - 1]) == Some("instances"@) {
        kept_in(items, n - 1).push(items[n - 1])
    } else {
        kept_in(items, n - 1)
    }
}

/// The symbol that a node states, or what it lacks.
pub open spec fn placed_in(n: Sexp) -> Result<Placed, SymbolError> {
    match child_text(n, "lib_id"@) {
        None => Err(SymbolError::MissingLibId),
        Some(lib_id) => match child_in(n, "at"@) {
            None => Err(SymbolError::MissingAt),
            Some(a) => match at_text(a) {
                None => Err(SymbolError::MissingAt),
                Some(at) => Ok(
                    Placed {
                        lib_id,
                        at,
                        mirror: child_text(n, "mirror"@),
                        unit: unit_in(n),
                        in_bom: flag_in(n, "in_bom"@, true),
                        on_board: flag_in(n, "on_board"@, true),
                        dnp: flag_in(n, "dnp"@, false),
                        fields_autoplaced: child_in(n, "fields_autoplaced"@).is_some(),
                        uuid: match child_text(n, "uuid"@) {
                            Some(u) => u,
                            None => ""@,
                        },
                        properties: properties_in(
                            children_in(n, "property"@),
                            children_in(n, "property"@).len() as int,
                        ),
                        raw_sub_nodes: kept_in(items_in(n), items_in(n).len() as int),
                    },
                ),
            },
        },
    }
}

/// The unit of a symbol, 1 unless it states another.
pub open spec fn unit_in(n: Sexp) -> int {
    match child_text(n, "unit"@) {
        Some(t) => match unsigned_value(bytes(t)) {
            Some(u) => u,
            None => 1,
        },
        None => 1,
    }
}

/// A flag of a symbol, with what holds where it is not stated.
pub open spec fn flag_in(n: Sexp, tag: Seq<char>, default: bool) -> bool {
    match yes_no(child_text(n, tag)) {
        Some(b) => b,
        None => default,
    }
}

/// A list of a tag and one node.
pub open spec fn pair_sexp(tag: Seq<char>, arg: Sexp) -> Sexp {
    Sexp::List(seq![Sexp::Atom(tag), arg])
}

/// The properties as nodes.
pub open spec fn property_nodes(ps: Seq<PropertyText>) -> Seq<Sexp> {
    Seq::new(ps.len(), |i: int| property_sexp(ps[i]))
}

/// What stands between a symbol's tag and its properties.
pub open spec fn fields_of(p: Placed) -> Seq<Sexp> {
    seq![pair_sexp("lib_id"@, Sexp::Str(p.lib_id)), at_sexp(p.at)] + (match p.mirror {
        Some(m) => seq![pair_sexp("mirror"@, Sexp::Atom(m))],
        None => Seq::empty(),
    }) + seq![
        pair_sexp("unit"@, Sexp::Atom(decimal(p.unit as nat))),
        pair_sexp("in_bom"@, Sexp::Atom(bool_word(p.in_bom))),
        pair_sexp("on_board"@, Sexp::Atom(bool_word(p.on_board))),
        pair_sexp("dnp"@, Sexp::Atom(bool_word(p.dnp))),
    ] + (if p.fields_autoplaced {
        seq![Sexp::List(seq![Sexp::Atom("fields_autoplaced"@)])]
    } else {
        Seq::empty()
    }) + seq![pair_sexp("uuid"@, Sexp::Str(p.uuid))]
}

/// A symbol as a node.
pub open spec fn placed_sexp(p: Placed) -> Sexp {
    Sexp::List(
        seq![Sexp::Atom("symbol"@)] + fields_of(p) + property_nodes(p.properties) + p.raw_sub_nodes,
    )
}

/// The position of the property with the name, from `k` on.
pub open spec fn property_at(ps: Seq<PropertyText>, name: Seq<char>, k: int) -> Option<int>
    decreases ps.len() - k,
{
    if k < 0 || k >= ps.len() {
        None
    } else if ps[k].name == name {
        Some(k)
    } else {
        property_at(ps, name, k + 1)
    }
}

/// The value of the property with the name.
pub open spec fn property_value(ps: Seq<PropertyText>, name: Seq<char>) -> Option<Seq<char>> {
    match property_at(ps, name, 0) {
        Some(i) => Some(ps[i].value),
        None => None,
    }
}

/// The properties with a value set: the first of the name gets it, and one is
/// added where there is none.
pub open spec fn with_property(ps: Seq<PropertyText>, name: Seq<char>, value: Seq<char>) -> Seq<
    PropertyText,
> {
    match property_at(ps, name, 0) {
        Some(i) => ps.update(i, PropertyText { value, ..ps[i] }),
        None => ps.push(PropertyText { name, value, sub_nodes: Seq::empty() }),
    }
}

/// The first `n` properties without those of the name.
pub open spec fn without_property(ps: Seq<PropertyText>, name: Seq<char>, n: int) -> Seq<PropertyText>
    decreases n,
{
    if n <= 0 {
        Seq::empty()
    } else if ps[n - 1].name == name {
        without_property(ps, name, n - 1)
    } else {
        without_property(ps, name, n - 1).push(ps[n - 1])
    }
}

/// The properties with their texts elsewhere, where a place is given.
pub open spec fn placed_fields(ps: Seq<PropertyText>, to: Seq<Option<(Seq<char>, Seq<char>)>>) -> Seq<
    PropertyText,
> {
    Seq::new(
        ps.len(),
        |i: int|
            match to[i] {
                Some((x, y)) => moved_to(ps[i], x, y),
                None => ps[i],
            },
    )
}

/// Optional places as values.
pub open spec fn places(v: Seq<Option<(String, String)>>) -> Seq<Option<(Seq<char>, Seq<char>)>> {
    Seq::new(v.len(), |i: int| pair_opt(v[i]))
}

// ─── Instance paths ──────────────────────────────────────────────────────────

/// The position of the first node with the tag and the value, from `k` on.
pub open spec fn valued_at(items: Seq<Sexp>, tag: Seq<char>, value: Seq<char>, k: int) -> Option<int>
    decreases items.len() - k,
{
    if k < 0 || k >= items.len() {
        None
    } else if tag_in(items[k]) == Some(tag) && text_at(items[k], 1) == Some(value) {
        Some(k)
    } else {
        valued_at(items, tag, value, k + 1)
    }
}

/// The entry of a symbol for a sheet's path.
pub open spec fn path_sexp(path: Seq<char>, reference: Seq<char>, unit: int) -> Sexp {
    Sexp::List(
        seq![
            Sexp::Atom("path"@),
            Sexp::Str(path),
            pair_sexp("reference"@, Sexp::Str(reference)),
            pair_sexp("unit"@, Sexp::Atom(decimal(unit as nat))),
        ],
    )
}

/// The nodes of a project with the entry for the path set.
pub open spec fn with_path(items: Seq<Sexp>, path: Seq<char>, entry: Sexp) -> Seq<Sexp> {
    match valued_at(items, "path"@, path, 0) {
        Some(i) => items.update(i, entry),
        None => items.push(entry),
    }
}

/// The nodes of an instances list with the project's entry for the path set.
pub open spec fn with_project(items: Seq<Sexp>, project: Seq<char>, path: Seq<char>, entry: Sexp) -> Seq<
    Sexp,
> {
    match valued_at(items, "project"@, project, 0) {
        Some(i) => items.update(i, Sexp::List(with_path(items_in(items[i]), path, entry))),
        None => items.push(
            Sexp::List(with_path(seq![Sexp::Atom("project"@), Sexp::Str(project)], path, entry)),
        ),
    }
}

/// The kept nodes of a symbol with the project's entry for the path set.
pub open spec fn with_instance(nodes: Seq<Sexp>, project: Seq<char>, path: Seq<char>, entry: Sexp) -> Seq<
    Sexp,
> {
    match tagged_at(nodes, "instances"@, 0) {
        Some(i) => nodes.update(i, Sexp::List(with_project(items_in(nodes[i]), project, path, entry))),
        None => nodes.push(
            Sexp::List(with_project(seq![Sexp::Atom("instances"@)], project, path, entry)),
        ),
    }
}

/// Some node has the tag and the value.
pub open spec fn has_valued(items: Seq<Sexp>, tag: Seq<char>, value: Seq<char>) -> bool {
    exists|i: int|
        0 <= i < items.len() && tag_in(#[trigger] items[i]) == Some(tag) && text_at(items[i], 1) == Some(
            value,
        )
}

/// The kept nodes of a symbol have an entry for the project and the path.
pub open spec fn has_instance(nodes: Seq<Sexp>, project: Seq<char>, path: Seq<char>) -> bool {
    match tagged_at(nodes, "instances"@, 0) {
        Some(i) => {
            let ps = items_in(nodes[i]);
            exists|k: int|
                0 <= k < ps.len() && tag_in(#[trigger] ps[k]) == Some("project"@) && text_at(ps[k], 1)
                    == Some(project) && has_valued(items_in(ps[k]), "path"@, path)
        },
        None => false,
    }
}

fn find_valued(v: &Vec<SexpNode>, tag: &str, value: &str) -> (r: Option<usize>)
    ensures
        match r {
            Some(i) => i < v.len() && valued_at(models(v@), tag@, value@, 0) == Some(i as int) && tag_in(
                v[i as int].model(),
            ) == Some(tag@),
            None => valued_at(models(v@), tag@, value@, 0).is_none(),
        },
{
    let ghost all = models(v@);
    proof {
        lemma_models(v@);
    }
    let mut i: usize = 0;
    while i < v.len()
        invariant
            i <= v.len(),
            all == models(v@),
            all.len() == v.len(),
            forall|k: int| 0 <= k < v.len() ==> #[trigger] all[k] == v[k].model(),
            valued_at(all, tag@, value@, 0) == valued_at(all, tag@, value@, i as int),
        decreases v.len() - i,
    {
        assert(all[i as int] == v[i as int].model());
        if v[i].has_tag(tag) {
            match v[i].value() {
                Some(t) => {
                    if same(t, value) {
                        return Some(i);
                    }
                },
                None => {},
            }
        }
        i += 1;
    }
    None
}

/// The nodes of a list that a copy of `n` is made of.
fn copied_items(n: &SexpNode) -> (r: Vec<SexpNode>)
    ensures
        models(r@) == items_in(n.model()),
{
    match n.duplicate() {
        SexpNode::List(v) => v,
        _ => {
            let v: Vec<SexpNode> = Vec::new();
            assert(models(v@) =~= Seq::<Sexp>::empty());
            v
        },
    }
}

fn set_path(items: &mut Vec<SexpNode>, path: &str, entry: SexpNode)
    ensures
        models(final(items)@) == with_path(models(old(items)@), path@, entry.model()),
{
    match find_valued(items, "path", path) {
        Some(i) => set_node(items, i, entry),
        None => push_node(items, entry),
    }
}

fn set_project(items: &mut Vec<SexpNode>, project: &str, path: &str, entry: SexpNode)
    ensures
        models(final(items)@) == with_project(models(old(items)@), project@, path@, entry.model()),
{
    proof {
        lemma_models(items@);
    }
    match find_valued(items, "project", project) {
        Some(i) => {
            let mut inner = copied_items(&items[i]);
            set_path(&mut inner, path, entry);
            set_node(items, i, SexpNode::List(inner));
        },
        None => {
            let mut inner: Vec<SexpNode> = Vec::new();
            push_node(&mut inner, atom("project"));
            push_node(&mut inner, qstr(project));
            assert(models(inner@) =~= seq![Sexp::Atom("project"@), Sexp::Str(project@)]);
            set_path(&mut inner, path, entry);
            push_node(items, SexpNode::List(inner));
        },
    }
}

/// Setting an entry puts it there, whatever else the symbol is part of.
pub proof fn law_set_then_has_instance(
    nodes: Seq<Sexp>,
    project: Seq<char>,
    path: Seq<char>,
    reference: Seq<char>,
    unit: int,
)
    ensures
        has_instance(
            with_instance(nodes, project, path, path_sexp(path, reference, unit)),
            project,
            path,
        ),
{
    let entry = path_sexp(path, reference, unit);
    let out = with_instance(nodes, project, path, entry);
    lemma_tagged_at(nodes, "instances"@, 0);
    let start = match tagged_at(nodes, "instances"@, 0) {
        Some(i) => items_in(nodes[i]),
        None => seq![Sexp::Atom("instances"@)],
    };
    let ps = with_project(start, project, path, entry);
    lemma_valued_at(start, "project"@, project, 0);
    lemma_with_project_keeps_tag(start, project, path, entry);
    let at = match tagged_at(nodes, "instances"@, 0) {
        Some(i) => i,
        None => nodes.len() as int,
    };
    assert(out[at] == Sexp::List(ps));
    assert(tag_in(out[at]) == Some("instances"@));
    lemma_first_tag(nodes, out, "instances"@, 0, at);
    let k = match valued_at(start, "project"@, project, 0) {
        Some(k) => k,
        None => start.len() as int,
    };
    let inner_start = match valued_at(start, "project"@, project, 0) {
        Some(k) => items_in(start[k]),
        None => seq![Sexp::Atom("project"@), Sexp::Str(project)],
    };
    let inner = with_path(inner_start, path, entry);
    assert(ps[k] == Sexp::List(inner));
    lemma_valued_at(inner_start, "path"@, path, 0);
    let j = match valued_at(inner_start, "path"@, path, 0) {
        Some(j) => j,
        None => inner_start.len() as int,
    };
    assert(inner[j] == entry);
    assert(tag_in(entry) == Some("path"@));
    assert(text_at(entry, 1) == Some(path));
    assert(has_valued(inner, "path"@, path));
    assert(items_in(ps[k]) == inner);
    lemma_head_kept(inner_start, path, entry);
    assert(tag_in(ps[k]) == Some("project"@));
    assert(text_at(ps[k], 1) == Some(project));
}

/// A list keeps its tag and its value when an entry is set in it: neither is a
/// list.
proof fn lemma_head_kept(items: Seq<Sexp>, path: Seq<char>, entry: Sexp)
    requires
        items.len() >= 2,
        items[0] is Atom,
        text_in(items[1]).is_some(),
    ensures
        with_path(items, path, entry).len() >= 2,
        with_path(items, path, entry)[0] == items[0],
        with_path(items, path, entry)[1] == items[1],
{
    lemma_valued_at(items, "path"@, path, 0);
}

proof fn lemma_with_project_keeps_tag(items: Seq<Sexp>, project: Seq<char>, path: Seq<char>, entry: Sexp)
    requires
        items.len() >= 1,
        items[0] is Atom,
    ensures
        with_project(items, project, path, entry).len() >= 1,
        with_project(items, project, path, entry)[0] == items[0],
{
    lemma_valued_at(items, "project"@, project, 0);
}

proof fn lemma_valued_at(items: Seq<Sexp>, tag: Seq<char>, value: Seq<char>, k: int)
    ensures
        match valued_at(items, tag, value, k) {
            Some(i) => k <= i < items.len() && tag_in(items[i]) == Some(tag) && text_at(items[i], 1)
                == Some(value),
            None => true,
        },
    decreases items.len() - k,
{
    if 0 <= k < items.len() && !(tag_in(items[k]) == Some(tag) && text_at(items[k], 1) == Some(value)) {
        lemma_valued_at(items, tag, value, k + 1);
    }
}

proof fn lemma_first_tag(a: Seq<Sexp>, b: Seq<Sexp>, tag: Seq<char>, k: int, at: int)
    requires
        0 <= k <= at <= a.len(),
        at < b.len(),
        tagged_at(a, tag, k) == Some(at) || (tagged_at(a, tag, k).is_none() && at == a.len()),
        forall|j: int| 0 <= j < at ==> a[j] == b[j],
        tag_in(b[at]) == Some(tag),
    ensures
        tagged_at(b, tag, k) == Some(at),
    decreases at - k,
{
    if k < at {
        if tag_in(a[k]) == Some(tag) {
            assert(tagged_at(a, tag, k) == Some(k));
        }
        lemma_first_tag(a, b, tag, k + 1, at);
    }
}

impl Symbol {
    /// This symbol as a value.
    pub open spec fn model(&self) -> Placed {
        Placed {
            lib_id: self.lib_id@,
            at: self.at.model(),
            mirror: string_opt(self.mirror),
            unit: self.unit as int,
            in_bom: self.in_bom,
            on_board: self.on_board,
            dnp: self.dnp,
            fields_autoplaced: self.fields_autoplaced,
            uuid: self.uuid@,
            properties: property_models(self.properties@),
            raw_sub_nodes: models(self.raw_sub_nodes@),
        }
    }

    /// A new symbol with a fresh uuid and nothing but what it must have.
    pub fn new(lib_id: &str, x: &str, y: &str) -> (r: Symbol)
        ensures
            is_uuid(r.uuid@),
            r.model() == (Placed {
                lib_id: lib_id@,
                at: AtText { x: x@, y: y@, rotation: None },
                mirror: None,
                unit: 1,
                in_bom: true,
                on_board: true,
                dnp: false,
                fields_autoplaced: false,
                uuid: r.uuid@,
                properties: Seq::empty(),
                raw_sub_nodes: Seq::empty(),
            }),
    {
        let r = Symbol {
            lib_id: copy(lib_id),
            at: At::new(x, y),
            mirror: None,
            unit: 1,
            in_bom: true,
            on_board: true,
            dnp: false,
            fields_autoplaced: false,
            uuid: new_uuid(),
            properties: Vec::new(),
            raw_sub_nodes: Vec::new(),
        };
        assert(r.model().properties =~= Seq::<PropertyText>::empty());
        r
    }

    /// Read a `(symbol …)` node.
    pub fn from_sexp(node: &SexpNode) -> (r: Result<Symbol, SymbolError>)
        ensures
            match placed_in(node.model()) {
                Ok(p) => r is Ok && r->Ok_0.model() == p,
                Err(e) => r is Err && r->Err_0 == e,
            },
    {
        let lib_id = match node.find_str("lib_id") {
            None => {
                return Err(SymbolError::MissingLibId);
            },
            Some(t) => copy(t),
        };
        let at = match node.find("at") {
            None => {
                return Err(SymbolError::MissingAt);
            },
            Some(n) => match At::from_sexp(n) {
                None => {
                    return Err(SymbolError::MissingAt);
                },
                Some(a) => a,
            },
        };
        let mirror = match node.find_str("mirror") {
            Some(t) => Some(copy(t)),
            None => None,
        };
        let unit: u32 = match node.find_str("unit") {
            Some(t) => match parse_unsigned(t) {
                Some(u) => u,
                None => 1,
            },
            None => 1,
        };
        let in_bom = match node.get_bool("in_bom") {
            Some(b) => b,
            None => true,
        };
        let on_board = match node.get_bool("on_board") {
            Some(b) => b,
            None => true,
        };
        let dnp = match node.get_bool("dnp") {
            Some(b) => b,
            None => false,
        };
        let fields_autoplaced = node.find("fields_autoplaced").is_some();
        let uuid = match node.find_str("uuid") {
            Some(t) => copy(t),
            None => copy(""),
        };
        let properties = read_properties(node);
        let raw_sub_nodes = read_kept(node);
        Ok(
            Symbol {
                lib_id,
                at,
                mirror,
                unit,
                in_bom,
                on_board,
                dnp,
                fields_autoplaced,
                uuid,
                properties,
                raw_sub_nodes,
            },
        )
    }

    /// Write a `(symbol …)` node.
    pub fn to_sexp(&self) -> (r: SexpNode)
        ensures
            r.model() == placed_sexp(self.model()),
    {
        let ghost p = self.model();
        let mut c: Vec<SexpNode> = Vec::new();
        push_node(&mut c, atom("symbol"));
        let ghost a0 = seq![Sexp::Atom("symbol"@)];
        assert(models(c@) =~= a0);
        push_node(&mut c, tagged("lib_id", qstr(self.lib_id.as_str())));
        push_node(&mut c, self.at.to_sexp());
        let ghost a1 = seq![pair_sexp("lib_id"@, Sexp::Str(p.lib_id)), at_sexp(p.at)];
        assert(models(c@) =~= a0 + a1);
        let ghost mut a2: Seq<Sexp> = Seq::empty();
        match &self.mirror {
            Some(m) => {
                push_node(&mut c, tagged("mirror", atom(m.as_str())));
                proof {
                    a2 = seq![pair_sexp("mirror"@, Sexp::Atom(m@))];
                }
            },
            None => {},
        }
        assert(models(c@) =~= a0 + a1 + a2);
        push_node(&mut c, tagged("unit", atom(decimal_text(self.unit as u64).as_str())));
        push_node(&mut c, tagged("in_bom", atom(bool_kw(self.in_bom))));
        push_node(&mut c, tagged("on_board", atom(bool_kw(self.on_board))));
        push_node(&mut c, tagged("dnp", atom(bool_kw(self.dnp))));
        let ghost a3 = seq![
            pair_sexp("unit"@, Sexp::Atom(decimal(p.unit as nat))),
            pair_sexp("in_bom"@, Sexp::Atom(bool_word(p.in_bom))),
            pair_sexp("on_board"@, Sexp::Atom(bool_word(p.on_board))),
            pair_sexp("dnp"@, Sexp::Atom(bool_word(p.dnp))),
        ];
        assert(models(c@) =~= a0 + a1 + a2 + a3);
        let ghost mut a4: Seq<Sexp> = Seq::empty();
        if self.fields_autoplaced {
            let mut one: Vec<SexpNode> = Vec::new();
            push_node(&mut one, atom("fields_autoplaced"));
            assert(models(one@) =~= seq![Sexp::Atom("fields_autoplaced"@)]);
            push_node(&mut c, SexpNode::List(one));
            proof {
                a4 = seq![Sexp::List(seq![Sexp::Atom("fields_autoplaced"@)])];
            }
        }
        assert(models(c@) =~= a0 + a1 + a2 + a3 + a4);
        push_node(&mut c, tagged("uuid", qstr(self.uuid.as_str())));
        let ghost head = a0 + fields_of(p);
        assert(models(c@) =~= head);
        let ghost all = property_nodes(p.properties);
        let mut i: usize = 0;
        assert(head + all.take(0) =~= head);
        while i < self.properties.len()
            invariant
                i <= self.properties.len(),
                p == self.model(),
                all == property_nodes(p.properties),
                models(c@) == head + all.take(i as int),
            decreases self.properties.len() - i,
        {
            assert(p.properties[i as int] == self.properties[i as int].model());
            push_node(&mut c, self.properties[i].to_sexp());
            assert(head + all.take(i + 1) =~= (head + all.take(i as int)).push(all[i as int]));
            i += 1;
        }
        assert(all.take(self.properties.len() as int) =~= all);
        push_copies(&mut c, &self.raw_sub_nodes);
        SexpNode::List(c)
    }

    // Properties.

    fn find_property(&self, name: &str) -> (r: Option<usize>)
        ensures
            match r {
                Some(i) => i < self.properties.len() && property_at(
                    self.model().properties,
                    name@,
                    0,
                ) == Some(i as int),
                None => property_at(self.model().properties, name@, 0).is_none(),
            },
    {
        let ghost all = self.model().properties;
        let mut i: usize = 0;
        while i < self.properties.len()
            invariant
                i <= self.properties.len(),
                all == self.model().properties,
                property_at(all, name@, 0) == property_at(all, name@, i as int),
            decreases self.properties.len() - i,
        {
            assert(all[i as int] == self.properties[i as int].model());
            if same(self.properties[i].name.as_str(), name) {
                return Some(i);
            }
            i += 1;
        }
        None
    }

    /// The value of a property.
    pub fn property(&self, name: &str) -> (r: Option<&str>)
        ensures
            text_opt(r) == property_value(self.model().properties, name@),
    {
        match self.find_property(name) {
            Some(i) => Some(self.properties[i].value.as_str()),
            None => None,
        }
    }

    /// Set a property, adding it where there is none of the name.
    pub fn set_property(&mut self, name: &str, value: &str)
        ensures
            final(self).model() == (Placed {
                properties: with_property(old(self).model().properties, name@, value@),
                ..old(self).model()
            }),
    {
        let ghost was = self.model();
        match self.find_property(name) {
            Some(i) => {
                let mut p = self.properties[i].duplicate();
                p.value = copy(value);
                self.properties.set(i, p);
            },
            None => {
                self.properties.push(Property::new(name, value));
            },
        }
        assert(self.model().properties =~= with_property(was.properties, name@, value@));
    }

    /// Remove every property of the name.
    pub fn remove_property(&mut self, name: &str)
        ensures
            final(self).model() == (Placed {
                properties: without_property(
                    old(self).model().properties,
                    name@,
                    old(self).model().properties.len() as int,
                ),
                ..old(self).model()
            }),
    {
        let ghost was = self.model();
        let mut kept: Vec<Property> = Vec::new();
        let mut i: usize = 0;
        assert(property_models(kept@) =~= without_property(was.properties, name@, 0));
        while i < self.properties.len()
            invariant
                i <= self.properties.len(),
                was == self.model(),
                property_models(kept@) == without_property(was.properties, name@, i as int),
            decreases self.properties.len() - i,
        {
            assert(was.properties[i as int] == self.properties[i as int].model());
            if !same(self.properties[i].name.as_str(), name) {
                let ghost before = property_models(kept@);
                kept.push(self.properties[i].duplicate());
                assert(property_models(kept@) =~= before.push(was.properties[i as int]));
            }
            i += 1;
        }
        self.properties = kept;
    }

    /// The designator.
    pub fn reference(&self) -> (r: Option<&str>)
        ensures
            text_opt(r) == property_value(self.model().properties, "Reference"@),
    {
        self.property("Reference")
    }

    /// The value.
    pub fn value_str(&self) -> (r: Option<&str>)
        ensures
            text_opt(r) == property_value(self.model().properties, "Value"@),
    {
        self.property("Value")
    }

    /// The footprint.
    pub fn footprint(&self) -> (r: Option<&str>)
        ensures
            text_opt(r) == property_value(self.model().properties, "Footprint"@),
    {
        self.property("Footprint")
    }

    /// The data sheet.
    pub fn datasheet(&self) -> (r: Option<&str>)
        ensures
            text_opt(r) == property_value(self.model().properties, "Datasheet"@),
    {
        self.property("Datasheet")
    }

    /// Set the designator.
    pub fn set_reference(&mut self, v: &str)
        ensures
            final(self).model() == (Placed {
                properties: with_property(old(self).model().properties, "Reference"@, v@),
                ..old(self).model()
            }),
    {
        self.set_property("Reference", v);
    }

    /// Set the value.
    pub fn set_value_str(&mut self, v: &str)
        ensures
            final(self).model() == (Placed {
                properties: with_property(old(self).model().properties, "Value"@, v@),
                ..old(self).model()
            }),
    {
        self.set_property("Value", v);
    }

    /// Set the footprint.
    pub fn set_footprint(&mut self, v: &str)
        ensures
            final(self).model() == (Placed {
                properties: with_property(old(self).model().properties, "Footprint"@, v@),
                ..old(self).model()
            }),
    {
        self.set_property("Footprint", v);
    }

    /// Set the data sheet.
    pub fn set_datasheet(&mut self, v: &str)
        ensures
            final(self).model() == (Placed {
                properties: with_property(old(self).model().properties, "Datasheet"@, v@),
                ..old(self).model()
            }),
    {
        self.set_property("Datasheet", v);
    }

    /// The place of a property's text, if it states one.
    pub fn property_position(&self, name: &str) -> (r: Option<(String, String)>)
        ensures
            pair_opt(r) == (match property_at(self.model().properties, name@, 0) {
                Some(i) => position_of(self.model().properties[i]),
                None => None,
            }),
    {
        match self.find_property(name) {
            Some(i) => self.properties[i].position(),
            None => None,
        }
    }

    // Instance paths.

    /// Set the entry `(path "path" (reference "ref") (unit N))` of a project,
    /// making the lists around it where they are missing.
    ///
    /// Needed when a sheet is linked to a file that already has symbols in it:
    /// without it their designators cannot be resolved on that sheet.
    pub fn set_instance_path(&mut self, project_name: &str, path: &str, reference: &str, unit: u32)
        ensures
            final(self).model() == (Placed {
                raw_sub_nodes: with_instance(
                    old(self).model().raw_sub_nodes,
                    project_name@,
                    path@,
                    path_sexp(path@, reference@, unit as int),
                ),
                ..old(self).model()
            }),
    {
        let ghost was = self.model();
        let mut entry: Vec<SexpNode> = Vec::new();
        push_node(&mut entry, atom("path"));
        push_node(&mut entry, qstr(path));
        push_node(&mut entry, tagged("reference", qstr(reference)));
        push_node(&mut entry, tagged("unit", atom(decimal_text(unit as u64).as_str())));
        let entry = SexpNode::List(entry);
        assert(entry.model()->List_0 =~= path_sexp(path@, reference@, unit as int)->List_0);
        proof {
            lemma_models(self.raw_sub_nodes@);
        }
        match find_tagged(&self.raw_sub_nodes, "instances") {
            Some(i) => {
                let mut inner = copied_items(&self.raw_sub_nodes[i]);
                set_project(&mut inner, project_name, path, entry);
                set_node(&mut self.raw_sub_nodes, i, SexpNode::List(inner));
            },
            None => {
                let mut inner: Vec<SexpNode> = Vec::new();
                push_node(&mut inner, atom("instances"));
                assert(models(inner@) =~= seq![Sexp::Atom("instances"@)]);
                set_project(&mut inner, project_name, path, entry);
                push_node(&mut self.raw_sub_nodes, SexpNode::List(inner));
            },
        }
    }

    /// Whether the symbol has an entry for the project and the path.
    pub fn has_instance_path(&self, project_name: &str, path: &str) -> (r: bool)
        ensures
            r == has_instance(self.model().raw_sub_nodes, project_name@, path@),
    {
        proof {
            lemma_models(self.raw_sub_nodes@);
        }
        match find_tagged(&self.raw_sub_nodes, "instances") {
            None => false,
            Some(i) => {
                let node = &self.raw_sub_nodes[i];
                let ghost ps = items_in(node.model());
                let n = node.count();
                let mut k: usize = 0;
                while k < n
                    invariant
                        k <= n,
                        n == ps.len(),
                        ps == items_in(node.model()),
                        i < self.raw_sub_nodes.len(),
                        node == &self.raw_sub_nodes[i as int],
                        models(self.raw_sub_nodes@)[i as int] == node.model(),
                        tagged_at(models(self.raw_sub_nodes@), "instances"@, 0) == Some(i as int),
                        forall|j: int|
                            0 <= j < k ==> !(tag_in(#[trigger] ps[j]) == Some("project"@) && text_at(
                                ps[j],
                                1,
                            ) == Some(project_name@) && has_valued(items_in(ps[j]), "path"@, path@)),
                    decreases n - k,
                {
                    match node.get(k) {
                        Some(p) => {
                            assert(p.model() == ps[k as int]);
                            if p.has_tag("project") && value_is(p, project_name) && has_path(p, path) {
                                return true;
                            }
                        },
                        None => {},
                    }
                    k += 1;
                }
                false
            },
        }
    }

    // Places.

    /// The places of the properties' texts, in order.
    pub fn field_positions(&self) -> (r: Vec<Option<(String, String)>>)
        ensures
            r.len() == self.properties.len(),
            forall|i: int|
                0 <= i < r.len() ==> pair_opt(#[trigger] r[i]) == position_of(
                    self.model().properties[i],
                ),
    {
        let mut out: Vec<Option<(String, String)>> = Vec::new();
        let mut i: usize = 0;
        while i < self.properties.len()
            invariant
                i <= self.properties.len(),
                out.len() == i,
                forall|k: int|
                    0 <= k < i ==> pair_opt(#[trigger] out[k]) == position_of(
                        self.model().properties[k],
                    ),
            decreases self.properties.len() - i,
        {
            assert(self.model().properties[i as int] == self.properties[i as int].model());
            out.push(self.properties[i].position());
            i += 1;
        }
        out
    }

    fn place_fields(&mut self, fields: &Vec<Option<(String, String)>>)
        requires
            fields.len() == old(self).properties.len(),
        ensures
            final(self).model() == (Placed {
                properties: placed_fields(old(self).model().properties, places(fields@)),
                ..old(self).model()
            }),
    {
        let ghost was = self.model();
        let mut i: usize = 0;
        while i < self.properties.len()
            invariant
                i <= self.properties.len(),
                fields.len() == self.properties.len(),
                was.properties.len() == fields.len(),
                self.model() == (Placed { properties: self.model().properties, ..was }),
                forall|k: int|
                    0 <= k < i ==> #[trigger] self.model().properties[k] == placed_fields(
                        was.properties,
                        places(fields@),
                    )[k],
                forall|k: int|
                    i <= k < fields.len() ==> #[trigger] self.model().properties[k]
                        == was.properties[k],
            decreases self.properties.len() - i,
        {
            let ghost before = self.model().properties;
            match &fields[i] {
                Some((x, y)) => {
                    let mut p = self.properties[i].duplicate();
                    assert(before[i as int] == self.properties[i as int].model());
                    p.set_position(x.as_str(), y.as_str());
                    let ghost m = p.model();
                    self.properties.set(i, p);
                    assert(self.model().properties =~= before.update(i as int, m));
                },
                None => {},
            }
            assert(places(fields@)[i as int] == pair_opt(fields[i as int]));
            i += 1;
        }
        assert(self.model().properties =~= placed_fields(was.properties, places(fields@)));
    }

    /// Move the symbol, and its properties' texts with it, to the given places.
    ///
    /// Those places are absolute, not relative to the symbol: moving the symbol
    /// alone would leave every designator behind at its old spot.
    pub fn move_to(&mut self, x: &str, y: &str, fields: &Vec<Option<(String, String)>>)
        requires
            fields.len() == old(self).properties.len(),
        ensures
            final(self).model() == (Placed {
                at: AtText { x: x@, y: y@, rotation: old(self).model().at.rotation },
                properties: placed_fields(old(self).model().properties, places(fields@)),
                ..old(self).model()
            }),
    {
        self.place_fields(fields);
        self.at.x = copy(x);
        self.at.y = copy(y);
    }

    /// Turn the symbol, and put its properties' texts at the given places. Their
    /// own angles stay.
    pub fn set_rotation(&mut self, rotation: &str, fields: &Vec<Option<(String, String)>>)
        requires
            fields.len() == old(self).properties.len(),
        ensures
            final(self).model() == (Placed {
                at: AtText { rotation: Some(rotation@), ..old(self).model().at },
                properties: placed_fields(old(self).model().properties, places(fields@)),
                ..old(self).model()
            }),
    {
        self.place_fields(fields);
        self.at.rotation = Some(copy(rotation));
    }
}

fn value_is(n: &SexpNode, value: &str) -> (r: bool)
    ensures
        r == (text_at(n.model(), 1) == Some(value@)),
{
    match n.value() {
        Some(t) => same(t, value),
        None => false,
    }
}

fn has_path(n: &SexpNode, path: &str) -> (r: bool)
    ensures
        r == has_valued(items_in(n.model()), "path"@, path@),
{
    let ghost items = items_in(n.model());
    let m = n.count();
    let mut i: usize = 0;
    while i < m
        invariant
            i <= m,
            m == items.len(),
            items == items_in(n.model()),
            forall|k: int|
                0 <= k < i ==> !(tag_in(#[trigger] items[k]) == Some("path"@) && text_at(items[k], 1)
                    == Some(path@)),
        decreases m - i,
    {
        match n.get(i) {
            Some(c) => {
                assert(c.model() == items[i as int]);
                if c.has_tag("path") && value_is(c, path) {
                    return true;
                }
            },
            None => {},
        }
        i += 1;
    }
    false
}

fn read_properties(node: &SexpNode) -> (r: Vec<Property>)
    ensures
        property_models(r@) == properties_in(
            children_in(node.model(), "property"@),
            children_in(node.model(), "property"@).len() as int,
        ),
{
    let found = node.find_all("property");
    let ghost nodes = children_in(node.model(), "property"@);
    let mut out: Vec<Property> = Vec::new();
    let mut i: usize = 0;
    assert(property_models(out@) =~= properties_in(nodes, 0));
    while i < found.len()
        invariant
            i <= found.len(),
            node_refs(found@) == nodes,
            property_models(out@) == properties_in(nodes, i as int),
        decreases found.len() - i,
    {
        let n = found[i];
        assert(n.model() == nodes[i as int]);
        match Property::from_sexp(n) {
            Some(p) => {
                let ghost was = property_models(out@);
                let ghost m = p.model();
                out.push(p);
                assert(property_models(out@) =~= was.push(m));
            },
            None => {},
        }
        i += 1;
    }
    out
}

fn read_kept(node: &SexpNode) -> (r: Vec<SexpNode>)
    ensures
        models(r@) == kept_in(items_in(node.model()), items_in(node.model()).len() as int),
{
    let ghost items = items_in(node.model());
    let n = node.count();
    let mut out: Vec<SexpNode> = Vec::new();
    assert(models(out@) =~= kept_in(items, 1));
    if n <= 1 {
        return out;
    }
    let mut i: usize = 1;
    while i < n
        invariant
            1 <= i <= n,
            n == items.len(),
            items == items_in(node.model()),
            models(out@) == kept_in(items, i as int),
        decreases n - i,
    {
        match node.get(i) {
            Some(c) => {
                assert(c.model() == items[i as int]);
                if c.has_tag("pin") || c.has_tag("instances") {
                    push_node(&mut out, c.duplicate());
                }
            },
            None => {},
        }
        i += 1;
    }
    out
}

/// A property reads back as it was set, and no other one changes.
pub proof fn law_set_then_get_property(
    ps: Seq<PropertyText>,
    name: Seq<char>,
    value: Seq<char>,
    other: Seq<char>,
)
    ensures
        property_value(with_property(ps, name, value), name) == Some(value),
        other != name ==> property_value(with_property(ps, name, value), other) == property_value(
            ps,
            other,
        ),
{
    let q = with_property(ps, name, value);
    lemma_property_at(ps, name, 0);
    lemma_property_at(ps, other, 0);
    match property_at(ps, name, 0) {
        Some(i) => {
            lemma_same_names(ps, q, name, 0);
            lemma_same_names(ps, q, other, 0);
        },
        None => {
            lemma_pushed_names(ps, q, name, 0);
            lemma_pushed_names(ps, q, other, 0);
        },
    }
}

/// A removed property is gone.
pub proof fn law_removed_property_is_gone(ps: Seq<PropertyText>, name: Seq<char>, n: int)
    requires
        n <= ps.len(),
    ensures
        property_value(without_property(ps, name, n), name).is_none(),
        forall|i: int|
            0 <= i < without_property(ps, name, n).len() ==> (#[trigger] without_property(ps, name, n)[i]).name
                != name,
    decreases n,
{
    if n > 0 {
        law_removed_property_is_gone(ps, name, n - 1);
    }
    let q = without_property(ps, name, n);
    lemma_property_at(q, name, 0);
}

proof fn lemma_property_at(ps: Seq<PropertyText>, name: Seq<char>, k: int)
    ensures
        match property_at(ps, name, k) {
            Some(i) => k <= i < ps.len() && ps[i].name == name,
            None => true,
        },
    decreases ps.len() - k,
{
    if 0 <= k < ps.len() && ps[k].name != name {
        lemma_property_at(ps, name, k + 1);
    }
}

proof fn lemma_same_names(a: Seq<PropertyText>, b: Seq<PropertyText>, name: Seq<char>, k: int)
    requires
        a.len() == b.len(),
        forall|i: int| 0 <= i < a.len() ==> (#[trigger] a[i]).name == b[i].name,
    ensures
        property_at(a, name, k) == property_at(b, name, k),
    decreases a.len() - k,
{
    if 0 <= k < a.len() {
        assert(a[k].name == b[k].name);
        lemma_same_names(a, b, name, k + 1);
    }
}

proof fn lemma_pushed_names(a: Seq<PropertyText>, b: Seq<PropertyText>, name: Seq<char>, k: int)
    requires
        0 <= k <= a.len(),
        b.len() == a.len() + 1,
        forall|i: int| 0 <= i < a.len() ==> a[i] == b[i],
    ensures
        property_at(b, name, k) == (match property_at(a, name, k) {
            Some(i) => Some(i),
            None => if b.last().name == name {
                Some(a.len() as int)
            } else {
                None
            },
        }),
    decreases a.len() - k,
{
    if k < a.len() {
        lemma_pushed_names(a, b, name, k + 1);
    } else {
        assert(property_at(b, name, k + 1).is_none());
    }
}

// ─── Collections ─────────────────────────────────────────────────────────────

/// The values of symbols.
pub open spec fn placed_all(v: Seq<Symbol>) -> Seq<Placed> {
    Seq::new(v.len(), |i: int| v[i].model())
}

/// The values of borrowed symbols.
pub open spec fn placed_refs(v: Seq<&Symbol>) -> Seq<Placed> {
    Seq::new(v.len(), |i: int| v[i].model())
}

/// The designator of a symbol.
pub open spec fn reference_of(p: Placed) -> Option<Seq<char>> {
    property_value(p.properties, "Reference"@)
}

/// The value of a symbol.
pub open spec fn value_of(p: Placed) -> Option<Seq<char>> {
    property_value(p.properties, "Value"@)
}

/// The position of the first symbol with the designator, from `k` on.
pub open spec fn by_reference_at(v: Seq<Placed>, reference: Seq<char>, k: int) -> Option<int>
    decreases v.len() - k,
{
    if k < 0 || k >= v.len() {
        None
    } else if reference_of(v[k]) == Some(reference) {
        Some(k)
    } else {
        by_reference_at(v, reference, k + 1)
    }
}

/// The position of the first symbol with the uuid, from `k` on.
pub open spec fn by_uuid_at(v: Seq<Placed>, uuid: Seq<char>, k: int) -> Option<int>
    decreases v.len() - k,
{
    if k < 0 || k >= v.len() {
        None
    } else if v[k].uuid == uuid {
        Some(k)
    } else {
        by_uuid_at(v, uuid, k + 1)
    }
}

/// What symbols are chosen by.
pub enum Choice {
    ReferenceBegins(Seq<char>),
    ValueBegins(Seq<char>),
    ValueIs(Seq<char>),
    LibIdIs(Seq<char>),
}

/// A symbol is chosen.
pub open spec fn chosen(p: Placed, c: Choice) -> bool {
    match c {
        Choice::ReferenceBegins(t) => match reference_of(p) {
            Some(r) => begins(r, t),
            None => false,
        },
        Choice::ValueBegins(t) => match value_of(p) {
            Some(v) => begins(v, t),
            None => false,
        },
        Choice::ValueIs(t) => value_of(p) == Some(t),
        Choice::LibIdIs(t) => p.lib_id == t,
    }
}

/// The chosen ones of the first `n` symbols, in order.
pub open spec fn choice_of(v: Seq<Placed>, c: Choice, n: int) -> Seq<Placed>
    decreases n,
{
    if n <= 0 {
        Seq::empty()
    } else if chosen(v[n - 1], c) {
        choice_of(v, c, n - 1).push(v[n - 1])
    } else {
        choice_of(v, c, n - 1)
    }
}

/// What `f` may answer for a symbol of the value.
pub open spec fn says<F: Fn(&Symbol) -> bool>(f: F, p: Placed, answer: bool) -> bool {
    exists|s: &Symbol| s.model() == p && #[trigger] call_ensures(f, (s,), answer)
}

/// Those of the first `n` symbols that are flagged.
pub open spec fn flagged(v: Seq<Placed>, flags: Seq<bool>, n: int) -> Seq<Placed>
    decreases n,
{
    if n <= 0 {
        Seq::empty()
    } else if flags[n - 1] {
        flagged(v, flags, n - 1).push(v[n - 1])
    } else {
        flagged(v, flags, n - 1)
    }
}

/// A power symbol or another one that is no part: its designator begins with `#`.
pub open spec fn is_virtual(p: Placed) -> bool {
    match reference_of(p) {
        Some(r) => begins(r, "#"@),
        None => false,
    }
}

/// The symbols with the do-not-populate flag set, virtual ones excepted.
pub open spec fn with_dnp(v: Seq<Placed>, dnp: bool) -> Seq<Placed> {
    Seq::new(
        v.len(),
        |i: int|
            if is_virtual(v[i]) {
                v[i]
            } else {
                Placed { dnp, ..v[i] }
            },
    )
}

/// The symbols of a schematic.
#[derive(Debug)]
pub struct SymbolCollection {
    symbols: Vec<Symbol>,
}

impl SymbolCollection {
    /// The symbols as values, in order.
    pub closed spec fn view(&self) -> Seq<Placed> {
        placed_all(self.symbols@)
    }

    /// A collection of the given symbols.
    pub fn new(symbols: Vec<Symbol>) -> (r: SymbolCollection)
        ensures
            r.view() == placed_all(symbols@),
    {
        SymbolCollection { symbols }
    }

    /// How many symbols there are.
    pub fn len(&self) -> (r: usize)
        ensures
            r == self.view().len(),
    {
        self.symbols.len()
    }

    /// Whether there are none.
    pub fn is_empty(&self) -> (r: bool)
        ensures
            r == (self.view().len() == 0),
    {
        self.symbols.len() == 0
    }

    /// The symbol at a position.
    pub fn get(&self, i: usize) -> (r: Option<&Symbol>)
        ensures
            match r {
                Some(s) => i < self.view().len() && s.model() == self.view()[i as int],
                None => i >= self.view().len(),
            },
    {
        if i < self.symbols.len() {
            Some(&self.symbols[i])
        } else {
            None
        }
    }

    /// The symbol at a position, to be changed.
    pub fn get_mut(&mut self, i: usize) -> (r: Option<&mut Symbol>)
        ensures
            match r {
                Some(s) => i < old(self).view().len() && s.model() == old(self).view()[i as int] && final(
                    self).view() == old(self).view().update(i as int, final(s).model()),
                None => i >= old(self).view().len() && final(self).view() == old(self).view(),
            },
    {
        if i < self.symbols.len() {
            let r = &mut self.symbols[i];
            Some(r)
        } else {
            None
        }
    }

    /// The symbols, in order.
    pub fn as_slice(&self) -> (r: &[Symbol])
        ensures
            placed_all(r@) == self.view(),
    {
        self.symbols.as_slice()
    }

    /// Add a symbol.
    pub fn push(&mut self, s: Symbol)
        ensures
            final(self).view() == old(self).view().push(s.model()),
    {
        let ghost was = self.view();
        let ghost m = s.model();
        self.symbols.push(s);
        assert(self.view() =~= was.push(m));
    }

    /// The symbols of the collection.
    pub fn into_vec(self) -> (r: Vec<Symbol>)
        ensures
            placed_all(r@) == self.view(),
    {
        self.symbols
    }

    fn find_reference(&self, reference: &str) -> (r: Option<usize>)
        ensures
            match r {
                Some(i) => i < self.symbols.len() && by_reference_at(self.view(), reference@, 0) == Some(
                    i as int,
                ),
                None => by_reference_at(self.view(), reference@, 0).is_none(),
            },
    {
        let ghost all = self.view();
        let mut i: usize = 0;
        while i < self.symbols.len()
            invariant
                i <= self.symbols.len(),
                all == self.view(),
                by_reference_at(all, reference@, 0) == by_reference_at(all, reference@, i as int),
            decreases self.symbols.len() - i,
        {
            assert(all[i as int] == self.symbols[i as int].model());
            match self.symbols[i].reference() {
                Some(t) => {
                    if same(t, reference) {
                        return Some(i);
                    }
                },
                None => {},
            }
            i += 1;
        }
        None
    }

    /// Take out the first symbol with the designator.
    pub fn remove_by_reference(&mut self, reference: &str) -> (r: Option<Symbol>)
        ensures
            match by_reference_at(old(self).view(), reference@, 0) {
                Some(i) => r.is_some() && r.unwrap().model() == old(self).view()[i] && final(self).view()
                    == old(self).view().remove(i),
                None => r.is_none() && final(self).view() == old(self).view(),
            },
    {
        match self.find_reference(reference) {
            Some(i) => {
                let ghost was = self.view();
                let s = self.symbols.remove(i);
                assert(self.view() =~= was.remove(i as int));
                Some(s)
            },
            None => None,
        }
    }

    /// Take out the first symbol with the uuid.
    pub fn remove_by_uuid(&mut self, uuid: &str) -> (r: Option<Symbol>)
        ensures
            match by_uuid_at(old(self).view(), uuid@, 0) {
                Some(i) => r.is_some() && r.unwrap().model() == old(self).view()[i] && final(self).view()
                    == old(self).view().remove(i),
                None => r.is_none() && final(self).view() == old(self).view(),
            },
    {
        let ghost all = self.view();
        let mut i: usize = 0;
        while i < self.symbols.len()
            invariant
                i <= self.symbols.len(),
                all == self.view(),
                all == old(self).view(),
                by_uuid_at(all, uuid@, 0) == by_uuid_at(all, uuid@, i as int),
            decreases self.symbols.len() - i,
        {
            assert(all[i as int] == self.symbols[i as int].model());
            if same(self.symbols[i].uuid.as_str(), uuid) {
                let s = self.symbols.remove(i);
                assert(self.view() =~= all.remove(i as int));
                return Some(s);
            }
            i += 1;
        }
        None
    }

    /// Keep the symbols that `f` accepts.
    pub fn retain<F: Fn(&Symbol) -> bool>(&mut self, f: F)
        requires
            forall|s: &Symbol| #[trigger] call_requires(f, (s,)),
        ensures
            exists|flags: Seq<bool>|
                flags.len() == old(self).view().len() && #[trigger] flagged(
                    old(self).view(),
                    flags,
                    flags.len() as int,
                ) == final(self).view() && forall|i: int|
                    0 <= i < flags.len() ==> says(f, old(self).view()[i], #[trigger] flags[i]),
    {
        let ghost all = self.view();
        let ghost given = self.symbols@;
        let n = self.symbols.len();
        let ghost mut flags: Seq<bool> = Seq::empty();
        // How many were looked at, and how many of them stayed.
        let mut seen: usize = 0;
        let mut i: usize = 0;
        assert(placed_all(self.symbols@.take(0)) =~= flagged(all, flags, 0));
        while seen < n
            invariant
                i <= seen <= n,
                n == given.len(),
                all == placed_all(given),
                self.symbols.len() == i + (n - seen),
                forall|k: int| seen <= k < n ==> self.symbols[i + (k - seen)] == #[trigger] given[k],
                flags.len() == seen,
                forall|s: &Symbol| #[trigger] call_requires(f, (s,)),
                placed_all(self.symbols@.take(i as int)) == flagged(all, flags, seen as int),
                forall|k: int| 0 <= k < seen ==> says(f, all[k], #[trigger] flags[k]),
            decreases n - seen,
        {
            let ghost now = self.symbols@;
            let ghost before = flags;
            assert(now[i as int] == given[seen as int]);
            let keep = f(&self.symbols[i]);
            proof {
                flags = flags.push(keep);
                lemma_flagged_same(all, before, flags, seen as int);
                let r = &now[i as int];
                assert(r.model() == all[seen as int] && call_ensures(f, (r,), keep));
                assert(says(f, all[seen as int], keep));
                assert forall|k: int| 0 <= k < seen + 1 implies says(f, all[k], #[trigger] flags[k]) by {
                    if k < seen {
                        assert(flags[k] == before[k]);
                    }
                }
            }
            if keep {
                proof {
                    assert(placed_all(now.take(i + 1)) =~= placed_all(now.take(i as int)).push(
                        all[seen as int],
                    ));
                    assert forall|k: int| seen + 1 <= k < n implies now[i + 1 + (k - seen - 1)]
                        == #[trigger] given[k] by {}
                }
                i += 1;
            } else {
                let _ = self.symbols.remove(i);
                proof {
                    assert(self.symbols@.take(i as int) =~= now.take(i as int));
                    assert forall|k: int| seen + 1 <= k < n implies self.symbols@[i + (k - seen - 1)]
                        == #[trigger] given[k] by {
                        assert(now[i + (k - seen)] == given[k]);
                    }
                }
            }
            seen += 1;
        }
        proof {
            assert(self.symbols@.take(i as int) =~= self.symbols@);
            assert(flagged(all, flags, flags.len() as int) == self.view());
        }
    }

    /// The first symbol with the designator.
    pub fn by_reference(&self, r: &str) -> (out: Option<&Symbol>)
        ensures
            match by_reference_at(self.view(), r@, 0) {
                Some(i) => out.is_some() && out.unwrap().model() == self.view()[i],
                None => out.is_none(),
            },
    {
        match self.find_reference(r) {
            Some(i) => Some(&self.symbols[i]),
            None => None,
        }
    }

    /// The first symbol with the designator, to be changed.
    pub fn by_reference_mut(&mut self, r: &str) -> (out: Option<&mut Symbol>)
        ensures
            match out {
                Some(s) => by_reference_at(old(self).view(), r@, 0).is_some() && s.model() == old(
                    self).view()[by_reference_at(old(self).view(), r@, 0).unwrap()] && final(self).view()
                    == old(self).view().update(
                    by_reference_at(old(self).view(), r@, 0).unwrap(),
                    final(s).model(),
                ),
                None => by_reference_at(old(self).view(), r@, 0).is_none() && final(self).view() == old(
                    self).view(),
            },
    {
        match self.find_reference(r) {
            Some(i) => self.get_mut(i),
            None => None,
        }
    }

    /// The symbols whose designators begin with a prefix.
    pub fn reference_startswith(&self, prefix: &str) -> (r: Vec<&Symbol>)
        ensures
            placed_refs(r@) == choice_of(
                self.view(),
                Choice::ReferenceBegins(prefix@),
                self.view().len() as int,
            ),
    {
        let ghost c = Choice::ReferenceBegins(prefix@);
        let ghost all = self.view();
        let mut out: Vec<&Symbol> = Vec::new();
        let mut i: usize = 0;
        assert(placed_refs(out@) =~= choice_of(all, c, 0));
        while i < self.symbols.len()
            invariant
                i <= self.symbols.len(),
                all == self.view(),
                c == Choice::ReferenceBegins(prefix@),
                placed_refs(out@) == choice_of(all, c, i as int),
            decreases self.symbols.len() - i,
        {
            assert(all[i as int] == self.symbols[i as int].model());
            let keep = match self.symbols[i].reference() {
                Some(t) => match_at(t, 0, prefix),
                None => false,
            };
            if keep {
                let ghost was = placed_refs(out@);
                out.push(&self.symbols[i]);
                assert(placed_refs(out@) =~= was.push(all[i as int]));
            }
            i += 1;
        }
        out
    }

    /// The symbols with a value.
    pub fn by_value(&self, value: &str) -> (r: Vec<&Symbol>)
        ensures
            placed_refs(r@) == choice_of(
                self.view(),
                Choice::ValueIs(value@),
                self.view().len() as int,
            ),
    {
        let ghost c = Choice::ValueIs(value@);
        let ghost all = self.view();
        let mut out: Vec<&Symbol> = Vec::new();
        let mut i: usize = 0;
        assert(placed_refs(out@) =~= choice_of(all, c, 0));
        while i < self.symbols.len()
            invariant
                i <= self.symbols.len(),
                all == self.view(),
                c == Choice::ValueIs(value@),
                placed_refs(out@) == choice_of(all, c, i as int),
            decreases self.symbols.len() - i,
        {
            assert(all[i as int] == self.symbols[i as int].model());
            let keep = match self.symbols[i].value_str() {
                Some(t) => same(t, value),
                None => false,
            };
            if keep {
                let ghost was = placed_refs(out@);
                out.push(&self.symbols[i]);
                assert(placed_refs(out@) =~= was.push(all[i as int]));
            }
            i += 1;
        }
        out
    }

    /// The symbols whose values begin with a prefix.
    pub fn value_startswith(&self, prefix: &str) -> (r: Vec<&Symbol>)
        ensures
            placed_refs(r@) == choice_of(
                self.view(),
                Choice::ValueBegins(prefix@),
                self.view().len() as int,
            ),
    {
        let ghost c = Choice::ValueBegins(prefix@);
        let ghost all = self.view();
        let mut out: Vec<&Symbol> = Vec::new();
        let mut i: usize = 0;
        assert(placed_refs(out@) =~= choice_of(all, c, 0));
        while i < self.symbols.len()
            invariant
                i <= self.symbols.len(),
                all == self.view(),
                c == Choice::ValueBegins(prefix@),
                placed_refs(out@) == choice_of(all, c, i as int),
            decreases self.symbols.len() - i,
        {
            assert(all[i as int] == self.symbols[i as int].model());
            let keep = match self.symbols[i].value_str() {
                Some(t) => match_at(t, 0, prefix),
                None => false,
            };
            if keep {
                let ghost was = placed_refs(out@);
                out.push(&self.symbols[i]);
                assert(placed_refs(out@) =~= was.push(all[i as int]));
            }
            i += 1;
        }
        out
    }

    /// The symbols of a library symbol.
    pub fn by_lib_id(&self, lib_id: &str) -> (r: Vec<&Symbol>)
        ensures
            placed_refs(r@) == choice_of(
                self.view(),
                Choice::LibIdIs(lib_id@),
                self.view().len() as int,
            ),
    {
        let ghost c = Choice::LibIdIs(lib_id@);
        let ghost all = self.view();
        let mut out: Vec<&Symbol> = Vec::new();
        let mut i: usize = 0;
        assert(placed_refs(out@) =~= choice_of(all, c, 0));
        while i < self.symbols.len()
            invariant
                i <= self.symbols.len(),
                all == self.view(),
                c == Choice::LibIdIs(lib_id@),
                placed_refs(out@) == choice_of(all, c, i as int),
            decreases self.symbols.len() - i,
        {
            assert(all[i as int] == self.symbols[i as int].model());
            if same(self.symbols[i].lib_id.as_str(), lib_id) {
                let ghost was = placed_refs(out@);
                out.push(&self.symbols[i]);
                assert(placed_refs(out@) =~= was.push(all[i as int]));
            }
            i += 1;
        }
        out
    }

    /// Set the do-not-populate flag of every part; power symbols and other virtual
    /// ones stay as they are.
    pub fn set_all_dnp(&mut self, dnp: bool)
        ensures
            final(self).view() == with_dnp(old(self).view(), dnp),
    {
        let ghost all = self.view();
        let n = self.symbols.len();
        let mut i: usize = 0;
        while i < n
            invariant
                i <= n,
                n == self.symbols.len(),
                n == all.len(),
                all == old(self).view(),
                forall|k: int| 0 <= k < i ==> #[trigger] self.view()[k] == with_dnp(all, dnp)[k],
                forall|k: int| i <= k < n ==> #[trigger] self.view()[k] == all[k],
            decreases n - i,
        {
            assert(self.view()[i as int] == self.symbols[i as int].model());
            let skip = match self.symbols[i].reference() {
                Some(t) => match_at(t, 0, "#"),
                None => false,
            };
            if !skip {
                let ghost before = self.view();
                self.symbols[i].dnp = dnp;
                proof {
                    let m = Placed { dnp, ..before[i as int] };
                    assert(self.symbols[i as int].model() =~= m);
                    assert(self.view() =~= before.update(i as int, m));
                }
            }
            i += 1;
        }
        assert(self.view() =~= with_dnp(all, dnp));
    }
}

proof fn lemma_flagged_same(v: Seq<Placed>, a: Seq<bool>, b: Seq<bool>, n: int)
    requires
        n <= a.len() <= b.len(),
        forall|i: int| 0 <= i < n ==> a[i] == b[i],
    ensures
        flagged(v, a, n) == flagged(v, b, n),
    decreases n,
{
    if n > 0 {
        lemma_flagged_same(v, a, b, n - 1);
    }
}

} // verus!
