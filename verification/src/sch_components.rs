//! Adding, deleting, renaming, editing and replacing the components of a
//! schematic.

use crate::board_file::corrupt_text;
use crate::chars::{decimal, decimal_text, joined, join_all, texts};
use crate::edit::{apply_edits, edited, edits_fit, edits_fit_in};
use crate::graphics::insert_at;
use crate::ident::is_uuid;
use crate::library::{
    lib_symbol_not_found_error, symbol_not_found_text, text_pairs,
};
#[allow(unused_imports)]
use crate::scan::{
    block_starts, check_document, cuttable, document_fault, find_block_starts, lemma_block_cuttable,
    lemma_block_end, lemma_block_end_is, offsets,
};
#[allow(unused_imports)]
use crate::schematic::{
    defined_in, defines_symbol, embedded, ensure_lib_symbol, ensure_lib_symbol_in_schematic, ensure_root_uuid,
    find_symbol_instance_block, has_definition, is_definition, rename_symbol_edits, renamed, symbol_instance, with_definitions, Rename,
    RenameOutcome, Schematic,
};
#[allow(unused_imports)]
use crate::sexp::{
    atom, child_text, children_in, child_in, find_value_end, items_in, lemma_models, models, node_refs, push_node, string_opt,
    tag_in, tagged, text_at, text_opt, value_end, Sexp, SexpNode,
};
use crate::symbol::{
    by_reference_at, pair_sexp, path_sexp, reference_of, value_of, with_instance, Placed, Symbol,
    SymbolCollection,
};
#[allow(unused_imports)]
use crate::text::{
    bytes, contains, copy, find_from, first_match, has, last_byte, lemma_ascii_boundary,
    lemma_bytes_ascii, lemma_match_boundary, lemma_match_cuts, length, matches_at, put, replace,
    replaced, rfind_byte, same, slice, slice_from, text_of,
};
use crate::types::{at_sexp, set_node, At, AtText, Property, PropertyText};
use vstd::prelude::*;
use vstd::string::*;

verus! {

// ─── Adding ──────────────────────────────────────────────────────────────────

/// A component to place, its numbers in the text they are to be written in. The
/// texts of its designator and of its value stand above and below it.
#[derive(Debug)]
pub struct NewComponent {
    pub lib_id: String,
    pub x: String,
    pub y: String,
    pub rotation: String,
    pub reference_y: String,
    pub value_y: String,
    pub reference: Option<String>,
    pub value: Option<String>,
    pub unit: u32,
}

/// What follows the last colon of a `lib_id`, or all of it.
pub open spec fn after_colon(lib_id: Seq<char>) -> Seq<char> {
    let s = bytes(lib_id);
    match last_byte(s, 0x3a) {
        Some(p) => text_of(s.subrange(p + 1, s.len() as int)),
        None => lib_id,
    }
}

/// The designator of a new component, `?` unless one is given.
pub open spec fn reference_for(c: NewComponent) -> Seq<char> {
    match c.reference {
        Some(r) => r@,
        None => "?"@,
    }
}

/// The value of a new component, its symbol's name unless one is given.
pub open spec fn value_for(c: NewComponent) -> Seq<char> {
    match c.value {
        Some(v) => v@,
        None => after_colon(c.lib_id@),
    }
}

/// The effects of a property's text.
pub open spec fn effects_sexp(hide: bool) -> Sexp {
    let font = Sexp::List(
        seq![
            Sexp::Atom("font"@),
            Sexp::List(seq![Sexp::Atom("size"@), Sexp::Atom("1.27"@), Sexp::Atom("1.27"@)]),
        ],
    );
    let shown = seq![Sexp::Atom("effects"@), font];
    Sexp::List(
        if hide {
            shown.push(pair_sexp("hide"@, Sexp::Atom("yes"@)))
        } else {
            shown
        },
    )
}

/// A property of a new component.
pub open spec fn new_property(
    name: Seq<char>,
    value: Seq<char>,
    x: Seq<char>,
    y: Seq<char>,
    hide: bool,
) -> PropertyText {
    PropertyText {
        name,
        value,
        sub_nodes: seq![
            at_sexp(AtText { x, y, rotation: Some("0"@) }),
            effects_sexp(hide),
        ],
    }
}

/// A new component as it is placed on the sheet with the root uuid `root`.
pub open spec fn new_component(c: NewComponent, project: Seq<char>, root: Seq<char>, uuid: Seq<char>)
    -> Placed {
    Placed {
        lib_id: c.lib_id@,
        at: AtText { x: c.x@, y: c.y@, rotation: Some(c.rotation@) },
        mirror: None,
        unit: c.unit as int,
        in_bom: true,
        on_board: true,
        dnp: false,
        fields_autoplaced: false,
        uuid,
        properties: seq![
            new_property("Reference"@, reference_for(c), c.x@, c.reference_y@, false),
            new_property("Value"@, value_for(c), c.x@, c.value_y@, false),
            new_property("Footprint"@, ""@, c.x@, c.y@, true),
            new_property("Datasheet"@, ""@, c.x@, c.y@, true),
        ],
        raw_sub_nodes: with_instance(
            Seq::empty(),
            project,
            "/"@ + root,
            path_sexp("/"@ + root, reference_for(c), c.unit as int),
        ),
    }
}

fn write_effects(hide: bool) -> (r: SexpNode)
    ensures
        r.model() == effects_sexp(hide),
{
    let mut size: Vec<SexpNode> = Vec::new();
    push_node(&mut size, atom("size"));
    push_node(&mut size, atom("1.27"));
    push_node(&mut size, atom("1.27"));
    assert(models(size@) =~= seq![
        Sexp::Atom("size"@),
        Sexp::Atom("1.27"@),
        Sexp::Atom("1.27"@),
    ]);
    let font = tagged("font", SexpNode::List(size));
    let mut v: Vec<SexpNode> = Vec::new();
    push_node(&mut v, atom("effects"));
    push_node(&mut v, font);
    let ghost shown = seq![
        Sexp::Atom("effects"@),
        Sexp::List(
            seq![
                Sexp::Atom("font"@),
                Sexp::List(seq![Sexp::Atom("size"@), Sexp::Atom("1.27"@), Sexp::Atom("1.27"@)]),
            ],
        ),
    ];
    assert(models(v@) =~= shown);
    if hide {
        push_node(&mut v, tagged("hide", atom("yes")));
        assert(models(v@) =~= shown.push(pair_sexp("hide"@, Sexp::Atom("yes"@))));
    }
    SexpNode::List(v)
}

fn make_property(name: &str, value: &str, x: &str, y: &str, hide: bool) -> (r: Property)
    ensures
        r.model() == new_property(name@, value@, x@, y@, hide),
{
    let mut p = Property::new(name, value);
    push_node(&mut p.sub_nodes, At::with_rotation(x, y, "0").to_sexp());
    push_node(&mut p.sub_nodes, write_effects(hide));
    assert(p.model().sub_nodes =~= new_property(name@, value@, x@, y@, hide).sub_nodes);
    p
}

fn find_after_colon(lib_id: &str) -> (r: &str)
    ensures
        r@ == after_colon(lib_id@),
{
    let n = length(lib_id);
    match rfind_byte(lib_id, 0x3a) {
        Some(p) => {
            proof {
                lemma_ascii_boundary(lib_id@, p as int);
            }
            slice_from(lib_id, p + 1)
        },
        None => lib_id,
    }
}

/// Make a component with a fresh uuid.
pub fn make_component(c: &NewComponent, project_name: &str, root_uuid: &str) -> (r: Symbol)
    ensures
        is_uuid(r.uuid@),
        r.model() == new_component(*c, project_name@, root_uuid@, r.uuid@),
{
    let reference: &str = match &c.reference {
        Some(t) => t.as_str(),
        None => "?",
    };
    let value: &str = match &c.value {
        Some(t) => t.as_str(),
        None => find_after_colon(c.lib_id.as_str()),
    };
    let x = c.x.as_str();
    let mut sym = Symbol::new(c.lib_id.as_str(), x, c.y.as_str());
    sym.at.rotation = Some(copy(c.rotation.as_str()));
    sym.unit = c.unit;
    let mut properties: Vec<Property> = Vec::new();
    properties.push(make_property("Reference", reference, x, c.reference_y.as_str(), false));
    properties.push(make_property("Value", value, x, c.value_y.as_str(), false));
    properties.push(make_property("Footprint", "", x, c.y.as_str(), true));
    properties.push(make_property("Datasheet", "", x, c.y.as_str(), true));
    sym.properties = properties;
    proof {
        let want = new_component(*c, project_name@, root_uuid@, sym.uuid@);
        assert(crate::symbol::property_models(sym.properties@) =~= want.properties);
        assert(sym.model().raw_sub_nodes =~= Seq::<Sexp>::empty());
    }
    let mut path = copy("/");
    put(&mut path, root_uuid);
    sym.set_instance_path(project_name, path.as_str(), reference, c.unit);
    assert(sym.model() =~= new_component(*c, project_name@, root_uuid@, sym.uuid@));
    sym
}

/// What is known of the libraries when a component is added.
#[derive(Debug)]
pub struct LibraryFacts {
    /// What the `lib_id` and the parents of its definition resolve to.
    pub definitions: Vec<(String, String)>,
    /// Whether the library exists at all.
    pub library_exists: bool,
    /// Symbols that come close.
    pub suggestions: Vec<String>,
}

/// Place a component: its definition is embedded, and it gets an instance entry
/// under the root sheet's uuid, as eeschema writes it. Where the `lib_id` does not
/// resolve, no component is placed and the message says what to look for.
pub fn add_schematic_component(
    sch: &mut Schematic,
    symbols: &mut SymbolCollection,
    c: &NewComponent,
    project_name: &str,
    facts: &LibraryFacts,
) -> (r: Result<String, String>)
    ensures
        final(sch).uuid.is_some(),
        old(sch).uuid.is_some() ==> final(sch).uuid.unwrap()@ == old(sch).uuid.unwrap()@,
        old(sch).uuid.is_none() ==> is_uuid(final(sch).uuid.unwrap()@),
        ({
            let e = embedded(
                models(old(sch).raw_other@),
                c.lib_id@,
                text_pairs(facts.definitions@),
                facts.definitions@.len(),
            );
            &&& models(final(sch).raw_other@) == e.0
            &&& match r {
                Ok(uuid) => e.1 && is_uuid(uuid@) && final(symbols).view() == old(symbols).view().push(
                    new_component(*c, project_name@, final(sch).uuid.unwrap()@, uuid@),
                ),
                Err(msg) => !e.1 && msg@ == symbol_not_found_text(
                    c.lib_id@,
                    facts.library_exists,
                    texts(facts.suggestions@),
                ) && final(symbols).view() == old(symbols).view(),
            }
        }),
{
    let root = ensure_root_uuid(sch);
    if !ensure_lib_symbol(sch, c.lib_id.as_str(), &facts.definitions) {
        return Err(
            lib_symbol_not_found_error(c.lib_id.as_str(), facts.library_exists, &facts.suggestions),
        );
    }
    let sym = make_component(c, project_name, root.as_str());
    let uuid = copy(sym.uuid.as_str());
    symbols.push(sym);
    Ok(uuid)
}

// ─── Deleting ────────────────────────────────────────────────────────────────

/// The first `n` nodes without the definitions of the name.
pub open spec fn without_definition(items: Seq<Sexp>, lib_id: Seq<char>, n: int) -> Seq<Sexp>
    decreases n,
{
    if n <= 0 {
        Seq::empty()
    } else if is_definition(items[n - 1], lib_id) {
        without_definition(items, lib_id, n - 1)
    } else {
        without_definition(items, lib_id, n - 1).push(items[n - 1])
    }
}

/// A kept node of a schematic with the definitions of the name taken out of it.
pub open spec fn pruned_node(n: Sexp, lib_id: Seq<char>) -> Sexp {
    if tag_in(n) == Some("lib_symbols"@) {
        Sexp::List(without_definition(items_in(n), lib_id, items_in(n).len() as int))
    } else {
        n
    }
}

/// The nodes with the definitions of the name taken out.
pub open spec fn pruned(nodes: Seq<Sexp>, lib_id: Seq<char>) -> Seq<Sexp> {
    Seq::new(nodes.len(), |i: int| pruned_node(nodes[i], lib_id))
}

/// Some symbol is placed from the library symbol.
pub open spec fn is_used(symbols: Seq<Placed>, lib_id: Seq<char>) -> bool {
    exists|i: int| 0 <= i < symbols.len() && (#[trigger] symbols[i]).lib_id == lib_id
}

/// Some definition extends the one of the name; a definition does not hold itself.
pub open spec fn has_child(items: Seq<Sexp>, lib_id: Seq<char>) -> bool {
    exists|i: int| 0 <= i < items.len() && is_child(#[trigger] items[i], lib_id)
}

/// A definition of another name that extends the one of the name.
pub open spec fn is_child(n: Sexp, lib_id: Seq<char>) -> bool {
    tag_in(n) == Some("symbol"@) && !is_definition(n, lib_id) && child_text(n, "extends"@) == Some(
        lib_id,
    )
}

/// Some definition in `lib_symbols` extends the one of the name.
pub open spec fn extended_in(nodes: Seq<Sexp>, lib_id: Seq<char>) -> bool {
    exists|i: int|
        0 <= i < nodes.len() && tag_in(#[trigger] nodes[i]) == Some("lib_symbols"@) && has_child(
            items_in(nodes[i]),
            lib_id,
        )
}

/// The definition of the name must stay: a symbol is placed from it, or a definition
/// that stays extends it.
pub open spec fn is_needed(symbols: Seq<Placed>, nodes: Seq<Sexp>, lib_id: Seq<char>) -> bool {
    is_used(symbols, lib_id) || extended_in(nodes, lib_id)
}

fn items_extend(v: &Vec<SexpNode>, lib_id: &str) -> (r: bool)
    ensures
        r == has_child(models(v@), lib_id@),
{
    let ghost all = models(v@);
    proof {
        lemma_models(v@);
    }
    let mut i: usize = 0;
    while i < v.len()
        invariant
            i <= v.len(),
            all == models(v@),
            all.len() == v.len(),
            forall|k: int| 0 <= k < v.len() ==> #[trigger] all[k] == v[k].model(),
            forall|k: int| 0 <= k < i ==> !is_child(#[trigger] all[k], lib_id@),
        decreases v.len() - i,
    {
        assert(all[i as int] == v[i as int].model());
        if v[i].has_tag("symbol") && !defines_symbol(&v[i], lib_id) {
            match v[i].find_str("extends") {
                Some(t) => {
                    if same(t, lib_id) {
                        assert(is_child(all[i as int], lib_id@));
                        return true;
                    }
                },
                None => {},
            }
        }
        i += 1;
    }
    false
}

fn nodes_extend(nodes: &Vec<SexpNode>, lib_id: &str) -> (r: bool)
    ensures
        r == extended_in(models(nodes@), lib_id@),
{
    let ghost all = models(nodes@);
    proof {
        lemma_models(nodes@);
    }
    let mut i: usize = 0;
    while i < nodes.len()
        invariant
            i <= nodes.len(),
            all == models(nodes@),
            all.len() == nodes.len(),
            forall|k: int| 0 <= k < nodes.len() ==> #[trigger] all[k] == nodes[k].model(),
            forall|k: int|
                0 <= k < i ==> !(tag_in(#[trigger] all[k]) == Some("lib_symbols"@) && has_child(
                    items_in(all[k]),
                    lib_id@,
                )),
        decreases nodes.len() - i,
    {
        assert(all[i as int] == nodes[i as int].model());
        if nodes[i].has_tag("lib_symbols") {
            match &nodes[i] {
                SexpNode::List(v) => {
                    if items_extend(v, lib_id) {
                        assert(has_child(items_in(all[i as int]), lib_id@));
                        return true;
                    }
                },
                _ => {},
            }
        }
        i += 1;
    }
    false
}

fn uses(symbols: &SymbolCollection, lib_id: &str) -> (r: bool)
    ensures
        r == is_used(symbols.view(), lib_id@),
{
    let n = symbols.len();
    let mut i: usize = 0;
    while i < n
        invariant
            i <= n,
            n == symbols.view().len(),
            forall|k: int| 0 <= k < i ==> (#[trigger] symbols.view()[k]).lib_id != lib_id@,
        decreases n - i,
    {
        match symbols.get(i) {
            Some(s) => {
                if same(s.lib_id.as_str(), lib_id) {
                    assert(symbols.view()[i as int].lib_id == lib_id@);
                    return true;
                }
            },
            None => {},
        }
        i += 1;
    }
    false
}

fn prune_items(v: &Vec<SexpNode>, lib_id: &str) -> (r: (Vec<SexpNode>, bool))
    ensures
        models(r.0@) == without_definition(models(v@), lib_id@, v.len() as int),
        r.1 == has_definition(models(v@), lib_id@),
{
    let ghost all = models(v@);
    proof {
        lemma_models(v@);
    }
    let mut out: Vec<SexpNode> = Vec::new();
    let mut removed = false;
    let mut i: usize = 0;
    assert(models(out@) =~= without_definition(all, lib_id@, 0));
    while i < v.len()
        invariant
            i <= v.len(),
            all == models(v@),
            all.len() == v.len(),
            forall|k: int| 0 <= k < v.len() ==> #[trigger] all[k] == v[k].model(),
            models(out@) == without_definition(all, lib_id@, i as int),
            removed == exists|k: int| 0 <= k < i && is_definition(#[trigger] all[k], lib_id@),
        decreases v.len() - i,
    {
        assert(all[i as int] == v[i as int].model());
        if defines_symbol(&v[i], lib_id) {
            removed = true;
            assert(is_definition(all[i as int], lib_id@));
        } else {
            push_node(&mut out, v[i].duplicate());
        }
        i += 1;
    }
    (out, removed)
}

/// Take the definition of `lib_id` out of `lib_symbols` when no symbol uses it any
/// more; one that another definition extends is kept. Returns whether anything was
/// taken out.
pub fn prune_unused_lib_symbol(
    symbols: &SymbolCollection,
    nodes: &mut Vec<SexpNode>,
    lib_id: &str,
) -> (r: bool)
    ensures
        r == (lib_id@.len() > 0 && !is_needed(symbols.view(), models(old(nodes)@), lib_id@)
            && defined_in(models(old(nodes)@), lib_id@)),
        models(final(nodes)@) == (if lib_id@.len() > 0 && !is_needed(
            symbols.view(),
            models(old(nodes)@),
            lib_id@,
        ) {
            pruned(models(old(nodes)@), lib_id@)
        } else {
            models(old(nodes)@)
        }),
{
    if lib_id.is_empty() {
        return false;
    }
    if uses(symbols, lib_id) || nodes_extend(nodes, lib_id) {
        return false;
    }
    let ghost all = models(nodes@);
    let ghost want = pruned(all, lib_id@);
    proof {
        lemma_models(nodes@);
    }
    let n = nodes.len();
    let mut removed = false;
    let mut i: usize = 0;
    while i < n
        invariant
            i <= n,
            n == nodes.len(),
            n == all.len(),
            want == pruned(all, lib_id@),
            models(nodes@).len() == n,
            forall|k: int| 0 <= k < i ==> #[trigger] models(nodes@)[k] == want[k],
            forall|k: int| i <= k < n ==> #[trigger] models(nodes@)[k] == all[k],
            removed == exists|k: int|
                0 <= k < i && tag_in(#[trigger] all[k]) == Some("lib_symbols"@) && has_definition(
                    items_in(all[k]),
                    lib_id@,
                ),
        decreases n - i,
    {
        proof {
            lemma_models(nodes@);
            assert(models(nodes@)[i as int] == all[i as int]);
        }
        let ghost before = models(nodes@);
        let mut change: Option<Vec<SexpNode>> = None;
        if nodes[i].has_tag("lib_symbols") {
            match &nodes[i] {
                SexpNode::List(v) => {
                    proof {
                        lemma_models(v@);
                    }
                    let (kept, gone) = prune_items(v, lib_id);
                    if gone {
                        removed = true;
                        assert(tag_in(all[i as int]) == Some("lib_symbols"@) && has_definition(
                            items_in(all[i as int]),
                            lib_id@,
                        ));
                    }
                    change = Some(kept);
                },
                _ => {},
            }
        }
        match change {
            Some(v) => {
                set_node(nodes, i, SexpNode::List(v));
            },
            None => {},
        }
        i += 1;
    }
    assert(models(nodes@) =~= want);
    removed
}

/// What is known of a label when a component goes: whether it stands on a pin of
/// that component, and whether it stands on a pin of one that stays.
#[derive(Clone, Copy, Debug)]
pub struct LabelFacts {
    pub on_deleted_pin: bool,
    pub on_other_pin: bool,
}

/// A label that the component leaves hanging.
pub open spec fn is_stranded(l: LabelFacts) -> bool {
    l.on_deleted_pin && !l.on_other_pin
}

/// The stranded ones among the first `n` labels.
pub open spec fn stranded(labels: Seq<LabelFacts>, n: int) -> Seq<int>
    decreases n,
{
    if n <= 0 {
        Seq::empty()
    } else if is_stranded(labels[n - 1]) {
        stranded(labels, n - 1).push(n - 1)
    } else {
        stranded(labels, n - 1)
    }
}

/// Which labels a deleted component leaves hanging, by position.
pub fn stranded_labels(labels: &Vec<LabelFacts>) -> (r: Vec<usize>)
    ensures
        offsets(r@) == stranded(labels@, labels.len() as int),
{
    let mut out: Vec<usize> = Vec::new();
    let mut i: usize = 0;
    assert(offsets(out@) =~= stranded(labels@, 0));
    while i < labels.len()
        invariant
            i <= labels.len(),
            offsets(out@) == stranded(labels@, i as int),
        decreases labels.len() - i,
    {
        if labels[i].on_deleted_pin && !labels[i].on_other_pin {
            let ghost was = offsets(out@);
            out.push(i);
            assert(offsets(out@) =~= was.push(i as int));
        }
        i += 1;
    }
    out
}

/// Delete the first component with the designator, and its definition where nothing
/// uses or extends it any more. Says whether the definition went.
pub fn delete_schematic_component(
    sch: &mut Schematic,
    symbols: &mut SymbolCollection,
    reference: &str,
) -> (r: Result<bool, String>)
    ensures
        final(sch).uuid == old(sch).uuid,
        match by_reference_at(old(symbols).view(), reference@, 0) {
            None => r is Err && r->Err_0@ == "Component '"@ + reference@ + "' not found in schematic"@
                && final(symbols).view() == old(symbols).view() && models(final(sch).raw_other@)
                == models(old(sch).raw_other@),
            Some(i) => {
                let gone = old(symbols).view()[i].lib_id;
                let rest = old(symbols).view().remove(i);
                let nodes = models(old(sch).raw_other@);
                &&& final(symbols).view() == rest
                &&& r is Ok
                &&& r->Ok_0 == (gone.len() > 0 && !is_needed(rest, nodes, gone) && defined_in(
                    nodes,
                    gone,
                ))
                &&& models(final(sch).raw_other@) == (if gone.len() > 0 && !is_needed(
                    rest,
                    nodes,
                    gone,
                ) {
                    pruned(nodes, gone)
                } else {
                    nodes
                })
            },
        },
{
    match symbols.remove_by_reference(reference) {
        None => {
            let mut out = copy("Component '");
            put(&mut out, reference);
            put(&mut out, "' not found in schematic");
            Err(out)
        },
        Some(gone) => {
            let mut nodes: Vec<SexpNode> = Vec::new();
            std::mem::swap(&mut nodes, &mut sch.raw_other);
            let r = prune_unused_lib_symbol(symbols, &mut nodes, gone.lib_id.as_str());
            sch.raw_other = nodes;
            Ok(r)
        },
    }
}

// ─── Changing fields ─────────────────────────────────────────────────────────

/// The place of a field's value in the block of the symbol with the designator, up to
/// the quote that ends its string.
pub open spec fn field_place(s: Seq<u8>, reference: Seq<char>, field: Seq<char>) -> Result<
    (int, int),
    Seq<char>,
> {
    match symbol_instance(s, reference) {
        None => Err("symbol '"@ + reference + "' not found in this schematic"@),
        Some((a, b)) => {
            let head = bytes("(property \""@ + field + "\" \""@);
            match first_match(s.subrange(a, b), head, 0) {
                None => Err("'"@ + reference + "' has no '"@ + field + "' property"@),
                Some(o) => match value_end(s, a + o + head.len()) {
                    None => Err("'"@ + field + "' property on '"@ + reference + "' is malformed"@),
                    Some(e) => Ok((a + o + head.len(), e)),
                },
            }
        },
    }
}

/// The schematic with a field of a symbol rewritten.
pub open spec fn with_field(s: Seq<u8>, reference: Seq<char>, field: Seq<char>, value: Seq<char>)
    -> Result<Seq<u8>, Seq<char>> {
    match field_place(s, reference, field) {
        Err(e) => Err(e),
        Ok((a, b)) => Ok(replaced(s, a, b, bytes(value))),
    }
}

/// A list of texts joined.
fn join3(a: &str, b: &str, c: &str) -> (r: String)
    ensures
        r@ == a@ + b@ + c@,
        bytes(r@) == bytes(a@) + bytes(b@) + bytes(c@),
{
    let mut out = copy(a);
    put(&mut out, b);
    put(&mut out, c);
    out
}

/// Find where a field's value stands.
pub fn find_field(content: &str, reference: &str, field: &str) -> (r: Result<(usize, usize), String>)
    ensures
        match field_place(bytes(content@), reference@, field@) {
            Err(e) => r is Err && r->Err_0@ == e,
            Ok((a, b)) => r matches Ok((x, y)) && x == a && y == b && cuttable(
                bytes(content@),
                x as int,
                y as int,
            ),
        },
{
    let ghost s = bytes(content@);
    let (a, b) = match find_symbol_instance_block(content, reference) {
        None => {
            return Err(join3("symbol '", reference, "' not found in this schematic"));
        },
        Some(x) => x,
    };
    proof {
        lemma_block_cuttable(content@, a as int, b as int);
    }
    let block = slice(content, a, b);
    let head = join3("(property \"", field, "\" \"");
    proof {
        reveal_strlit("(property \"");
    }
    let n = length(content);
    let m = length(head.as_str());
    let o = match find_from(block, head.as_str(), 0) {
        None => {
            let mut out = join3("'", reference, "' has no '");
            put(&mut out, field);
            put(&mut out, "' property");
            return Err(out);
        },
        Some(o) => o,
    };
    proof {
        assert(s.subrange(a as int, b as int).subrange(o as int, o + m) =~= s.subrange(
            a + o,
            a + o + m,
        ));
        assert(matches_at(s, a + o, bytes(head@)));
        lemma_match_cuts(content@, a + o, head@);
    }
    assert(a + o + m <= n);
    match find_value_end(content, a + o + m) {
        None => {
            let mut out = join3("'", field, "' property on '");
            put(&mut out, reference);
            put(&mut out, "' is malformed");
            Err(out)
        },
        Some(e) => {
            proof {
                lemma_ascii_boundary(content@, e as int);
            }
            Ok((a + o + m, e))
        },
    }
}

/// Rewrite the value of `(property "<field>" "<value>" …)` in the block of the
/// placed symbol with the designator. Nothing else in the file changes, and on
/// failure the reason is given rather than success claimed.
pub fn update_symbol_field(content: &str, reference: &str, field: &str, new_val: &str) -> (r: Result<
    String,
    String,
>)
    ensures
        match with_field(bytes(content@), reference@, field@, new_val@) {
            Err(e) => r is Err && r->Err_0@ == e,
            Ok(t) => r is Ok && bytes(r->Ok_0@) == t,
        },
{
    match find_field(content, reference, field) {
        Err(e) => Err(e),
        Ok((a, b)) => Ok(replace(content, a, b, new_val)),
    }
}

/// The refusal of a rename whose edits touch the same bytes.
pub open spec fn rename_clash_text(old_name: Seq<char>) -> Seq<char> {
    "'"@ + old_name + "' has designator entries that overlap"@
}

/// What renaming a component in a schematic comes to: the new text and what it
/// landed on.
pub open spec fn with_name(s: Seq<u8>, old_name: Seq<char>, new_name: Seq<char>) -> Result<
    (Seq<u8>, Rename),
    Seq<char>,
> {
    match renamed(s, old_name, new_name) {
        Err(e) => Err(e),
        Ok(r) => if edits_fit(s, r.edits) {
            Ok((edited(s, r.edits), r))
        } else {
            Err(rename_clash_text(old_name))
        },
    }
}

/// Rename a component in both places that store a designator.
pub fn rename_symbol(content: &str, old_name: &str, new_name: &str) -> (r: Result<
    (String, RenameOutcome),
    String,
>)
    ensures
        match with_name(bytes(content@), old_name@, new_name@) {
            Err(e) => r is Err && r->Err_0@ == e,
            Ok((t, x)) => r is Ok && bytes(r->Ok_0.0@) == t && r->Ok_0.1.units == x.units
                && r->Ok_0.1.instances == x.instances,
        },
{
    match rename_symbol_edits(content, old_name, new_name) {
        Err(e) => Err(e),
        Ok((edits, outcome)) => {
            if edits_fit_in(content, &edits) {
                Ok((apply_edits(content, &edits), outcome))
            } else {
                Err(join3("'", old_name, "' has designator entries that overlap"))
            }
        },
    }
}

/// What to change on a component; what is not given stays.
#[derive(Debug)]
pub struct ComponentChange {
    pub new_reference: Option<String>,
    pub value: Option<String>,
    pub footprint: Option<String>,
    pub datasheet: Option<String>,
    /// Further properties, each by its name.
    pub fields: Vec<(String, String)>,
}

/// How far a change has come: the text so far, the designator that the symbol is
/// found by, what was changed and what could not be.
pub struct Progress {
    pub content: Seq<u8>,
    pub lookup: Seq<char>,
    pub changed: Seq<Seq<char>>,
    pub errors: Seq<Seq<char>>,
}

/// The warning that only the property could be renamed.
pub open spec fn no_instances_text(reference: Seq<char>) -> Seq<char> {
    "instances: '"@ + reference
        + "' has no (instances …) entry, so 'Update PCB from Schematic' will not see the new name"@
}

/// The change of the designator.
pub open spec fn rename_step(p: Progress, reference: Seq<char>, new_name: Option<Seq<char>>) -> Progress {
    match new_name {
        None => p,
        Some(n) => match with_name(p.content, reference, n) {
            Err(e) => Progress { errors: p.errors.push("Reference: "@ + e), ..p },
            Ok((t, r)) => if r.instances > 0 {
                Progress {
                    content: t,
                    lookup: n,
                    changed: p.changed.push("Reference → "@ + n).push(
                        "instances reference → "@ + n + " ("@ + decimal(r.instances as nat) + ")"@,
                    ),
                    ..p
                }
            } else {
                Progress {
                    content: t,
                    lookup: n,
                    changed: p.changed.push("Reference → "@ + n),
                    errors: p.errors.push(no_instances_text(reference)),
                }
            },
        },
    }
}

/// The change of a field.
pub open spec fn field_step(p: Progress, field: Seq<char>, value: Option<Seq<char>>) -> Progress {
    match value {
        None => p,
        Some(v) => match with_field(p.content, p.lookup, field, v) {
            Err(e) => Progress { errors: p.errors.push(field + ": "@ + e), ..p },
            Ok(t) => Progress { content: t, changed: p.changed.push(field + " → "@ + v), ..p },
        },
    }
}

/// All the changes, one after the other. After a rename the later ones look the
/// symbol up under its new name.
pub open spec fn all_steps(s: Seq<u8>, reference: Seq<char>, c: ComponentChange) -> Progress {
    let start = Progress {
        content: s,
        lookup: reference,
        changed: Seq::empty(),
        errors: Seq::empty(),
    };
    let fields = text_pairs(c.fields@);
    let a = rename_step(start, reference, match c.new_reference {
        Some(r) => Some(r@),
        None => given_value(fields, "Reference"@, 0),
    });
    let b = field_step(a, "Value"@, string_opt(c.value));
    let d = field_step(b, "Footprint"@, string_opt(c.footprint));
    let e = field_step(d, "Datasheet"@, string_opt(c.datasheet));
    further_steps(e, fields, fields.len() as int)
}

/// The value given for the name, from `k` on.
pub open spec fn given_value(fields: Seq<(Seq<char>, Seq<char>)>, name: Seq<char>, k: int) -> Option<
    Seq<char>,
>
    decreases fields.len() - k,
{
    if k < 0 || k >= fields.len() {
        None
    } else if fields[k].0 == name {
        Some(fields[k].1)
    } else {
        given_value(fields, name, k + 1)
    }
}

/// The changes of the first `n` further properties. The designator is not among them:
/// it is stored twice, and changing it is a rename.
pub open spec fn further_steps(p: Progress, fields: Seq<(Seq<char>, Seq<char>)>, n: int) -> Progress
    decreases n,
{
    if n <= 0 {
        p
    } else {
        let before = further_steps(p, fields, n - 1);
        if fields[n - 1].0 == "Reference"@ {
            before
        } else {
            field_step(before, fields[n - 1].0, Some(fields[n - 1].1))
        }
    }
}

/// What changing a component came to.
#[derive(Debug)]
pub struct ComponentOutcome {
    pub changes: Vec<String>,
    pub errors: Vec<String>,
    /// The new schematic; `None` where nothing is to be written.
    pub content: Option<String>,
}

/// The message where nothing could be changed.
pub open spec fn nothing_updated_text(reference: Seq<char>, errors: Seq<Seq<char>>) -> Seq<char> {
    "No fields were updated on '"@ + reference + "': "@ + joined(errors, "; "@)
}

/// The work of a change, while it goes on.
struct Work {
    content: String,
    lookup: String,
    changed: Vec<String>,
    errors: Vec<String>,
}

impl Work {
    spec fn model(&self) -> Progress {
        Progress {
            content: bytes(self.content@),
            lookup: self.lookup@,
            changed: texts(self.changed@),
            errors: texts(self.errors@),
        }
    }

    fn push_change(&mut self, t: String)
        ensures
            final(self).model() == (Progress {
                changed: old(self).model().changed.push(t@),
                ..old(self).model()
            }),
    {
        let ghost was = texts(self.changed@);
        let ghost m = t@;
        self.changed.push(t);
        assert(texts(self.changed@) =~= was.push(m));
    }

    fn push_error(&mut self, t: String)
        ensures
            final(self).model() == (Progress {
                errors: old(self).model().errors.push(t@),
                ..old(self).model()
            }),
    {
        let ghost was = texts(self.errors@);
        let ghost m = t@;
        self.errors.push(t);
        assert(texts(self.errors@) =~= was.push(m));
    }

    fn rename(&mut self, reference: &str, new_name: Option<&str>)
        ensures
            final(self).model() == rename_step(old(self).model(), reference@, text_opt(new_name)),
    {
        match new_name {
            None => {},
            Some(n) => {
                match rename_symbol(self.content.as_str(), reference, n) {
                    Err(e) => {
                        self.push_error(join3("Reference: ", e.as_str(), ""));
                        assert("Reference: "@ + e@ + ""@ =~= "Reference: "@ + e@) by {
                            reveal_strlit("");
                        }
                    },
                    Ok((t, outcome)) => {
                        self.content = t;
                        self.lookup = copy(n);
                        let mut head = copy("Reference → ");
                        put(&mut head, n);
                        self.push_change(head);
                        if outcome.instances > 0 {
                            let mut more = copy("instances reference → ");
                            put(&mut more, n);
                            put(&mut more, " (");
                            put(&mut more, decimal_text(outcome.instances as u64).as_str());
                            put(&mut more, ")");
                            self.push_change(more);
                        } else {
                            self.push_error(
                                join3(
                                    "instances: '",
                                    reference,
                                    "' has no (instances …) entry, so 'Update PCB from Schematic' will not see the new name",
                                ),
                            );
                        }
                    },
                }
            },
        }
    }

    fn set_field(&mut self, field: &str, value: &Option<String>)
        ensures
            final(self).model() == field_step(old(self).model(), field@, string_opt(*value)),
    {
        match value {
            None => {},
            Some(v) => {
                self.write_field(field, v.as_str());
            },
        }
    }

    fn write_field(&mut self, field: &str, value: &str)
        ensures
            final(self).model() == field_step(old(self).model(), field@, Some(value@)),
    {
        match update_symbol_field(self.content.as_str(), self.lookup.as_str(), field, value) {
            Err(e) => {
                self.push_error(join3(field, ": ", e.as_str()));
            },
            Ok(t) => {
                self.content = t;
                self.push_change(join3(field, " → ", value));
            },
        }
    }

    fn set_further(&mut self, fields: &Vec<(String, String)>)
        ensures
            final(self).model() == further_steps(
                old(self).model(),
                text_pairs(fields@),
                fields@.len() as int,
            ),
    {
        let ghost start = self.model();
        let ghost all = text_pairs(fields@);
        let mut k: usize = 0;
        while k < fields.len()
            invariant
                k <= fields.len(),
                all == text_pairs(fields@),
                self.model() == further_steps(start, all, k as int),
            decreases fields.len() - k,
        {
            assert(all[k as int] == (fields[k as int].0@, fields[k as int].1@));
            if !same(fields[k].0.as_str(), "Reference") {
                self.write_field(fields[k].0.as_str(), fields[k].1.as_str());
            }
            k += 1;
        }
    }
}

fn find_given<'a>(fields: &'a Vec<(String, String)>, name: &str) -> (r: Option<&'a str>)
    ensures
        text_opt(r) == given_value(text_pairs(fields@), name@, 0),
{
    let ghost all = text_pairs(fields@);
    let mut k: usize = 0;
    while k < fields.len()
        invariant
            k <= fields.len(),
            all == text_pairs(fields@),
            given_value(all, name@, 0) == given_value(all, name@, k as int),
        decreases fields.len() - k,
    {
        assert(all[k as int] == (fields[k as int].0@, fields[k as int].1@));
        if same(fields[k].0.as_str(), name) {
            return Some(fields[k].1.as_str());
        }
        k += 1;
    }
    None
}

/// Why a component was not edited.
#[derive(Debug)]
pub enum EditFault {
    /// None of the fields could be changed.
    NothingUpdated(String),
    /// What would have been written is not one balanced schematic.
    Corrupt(String),
}

/// Change fields of a component, its designator first. A request that changes
/// nothing is a failure, and what is written is still one balanced schematic.
pub fn edit_schematic_component(content: &str, reference: &str, change: &ComponentChange, file: &str)
    -> (r: Result<ComponentOutcome, EditFault>)
    ensures
        ({
            let p = all_steps(bytes(content@), reference@, *change);
            if p.changed.len() == 0 && p.errors.len() > 0 {
                r matches Err(EditFault::NothingUpdated(t)) && t@ == nothing_updated_text(
                    reference@,
                    p.errors,
                )
            } else if p.changed.len() == 0 {
                r is Ok && texts(r->Ok_0.changes@) == p.changed && texts(r->Ok_0.errors@) == p.errors
                    && r->Ok_0.content.is_none()
            } else {
                match document_fault(p.content, bytes("kicad_sch"@)) {
                    Some(why) => r matches Err(EditFault::Corrupt(t)) && t@ == corrupt_text(file@, why),
                    None => r is Ok && texts(r->Ok_0.changes@) == p.changed && texts(
                        r->Ok_0.errors@,
                    ) == p.errors && r->Ok_0.content.is_some() && bytes(r->Ok_0.content.unwrap()@)
                        == p.content,
                }
            }
        }),
{
    let mut w = Work {
        content: copy(content),
        lookup: copy(reference),
        changed: Vec::new(),
        errors: Vec::new(),
    };
    proof {
        assert(w.model().changed =~= Seq::<Seq<char>>::empty());
        assert(w.model().errors =~= Seq::<Seq<char>>::empty());
    }
    let asked: Option<&str> = match &change.new_reference {
        Some(t) => Some(t.as_str()),
        None => find_given(&change.fields, "Reference"),
    };
    w.rename(reference, asked);
    w.set_field("Value", &change.value);
    w.set_field("Footprint", &change.footprint);
    w.set_field("Datasheet", &change.datasheet);
    w.set_further(&change.fields);
    let Work { content: text, lookup: _, changed, errors } = w;
    if changed.len() == 0 {
        if errors.len() > 0 {
            let mut out = join3("No fields were updated on '", reference, "': ");
            put(&mut out, join_all(&errors, "; ").as_str());
            return Err(EditFault::NothingUpdated(out));
        }
        return Ok(ComponentOutcome { changes: changed, errors, content: None });
    }
    match check_document(text.as_str(), "kicad_sch") {
        Ok(()) => Ok(ComponentOutcome { changes: changed, errors, content: Some(text) }),
        Err(why) => {
            let mut out = copy("Internal error: the edit would have corrupted '");
            put(&mut out, file);
            put(&mut out, "' (");
            put(&mut out, why.message().as_str());
            put(&mut out, ") — nothing was written.");
            Err(EditFault::Corrupt(out))
        },
    }
}

// ─── Reading ─────────────────────────────────────────────────────────────────

/// A component as it is listed.
#[derive(Debug)]
pub struct ComponentRow {
    pub reference: String,
    pub value: String,
    pub footprint: String,
    pub lib_id: String,
    pub x: String,
    pub y: String,
    pub rotation: String,
    pub mirror_x: bool,
    pub mirror_y: bool,
    pub uuid: String,
}

/// A text, or another where there is none.
pub open spec fn text_or(t: Option<Seq<char>>, other: Seq<char>) -> Seq<char> {
    match t {
        Some(x) => x,
        None => other,
    }
}

/// The row of a component.
pub open spec fn row_of(r: ComponentRow, p: Placed) -> bool {
    &&& r.reference@ == text_or(reference_of(p), "?"@)
    &&& r.value@ == text_or(value_of(p), ""@)
    &&& r.footprint@ == text_or(
        crate::symbol::property_value(p.properties, "Footprint"@),
        ""@,
    )
    &&& r.lib_id@ == p.lib_id
    &&& r.x@ == p.at.x
    &&& r.y@ == p.at.y
    &&& r.rotation@ == text_or(p.at.rotation, "0"@)
    &&& r.mirror_x == has(bytes(text_or(p.mirror, ""@)), bytes("x"@))
    &&& r.mirror_y == has(bytes(text_or(p.mirror, ""@)), bytes("y"@))
    &&& r.uuid@ == p.uuid
}

fn copy_or(t: Option<&str>, other: &str) -> (r: String)
    ensures
        r@ == text_or(text_opt(t), other@),
{
    match t {
        Some(x) => copy(x),
        None => copy(other),
    }
}

/// The row of a component.
pub fn component_row(s: &Symbol) -> (r: ComponentRow)
    ensures
        row_of(r, s.model()),
{
    let mirror: &str = match &s.mirror {
        Some(m) => m.as_str(),
        None => "",
    };
    let rotation = match &s.at.rotation {
        Some(t) => copy(t.as_str()),
        None => copy("0"),
    };
    ComponentRow {
        reference: copy_or(s.reference(), "?"),
        value: copy_or(s.value_str(), ""),
        footprint: copy_or(s.footprint(), ""),
        lib_id: copy(s.lib_id.as_str()),
        x: copy(s.at.x.as_str()),
        y: copy(s.at.y.as_str()),
        rotation,
        mirror_x: contains(mirror, "x"),
        mirror_y: contains(mirror, "y"),
        uuid: copy(s.uuid.as_str()),
    }
}

/// The component with the designator.
pub fn get_schematic_component(symbols: &SymbolCollection, reference: &str) -> (r: Result<
    ComponentRow,
    String,
>)
    ensures
        match by_reference_at(symbols.view(), reference@, 0) {
            Some(i) => r is Ok && row_of(r->Ok_0, symbols.view()[i]),
            None => r is Err && r->Err_0@ == "Component '"@ + reference@ + "' not found"@,
        },
{
    match symbols.by_reference(reference) {
        Some(s) => Ok(component_row(s)),
        None => Err(join3("Component '", reference, "' not found")),
    }
}

/// Every component, in order.
pub fn list_schematic_components(symbols: &SymbolCollection) -> (r: Vec<ComponentRow>)
    ensures
        r.len() == symbols.view().len(),
        forall|i: int| 0 <= i < r.len() ==> row_of(#[trigger] r[i], symbols.view()[i]),
{
    let mut out: Vec<ComponentRow> = Vec::new();
    let n = symbols.len();
    let mut i: usize = 0;
    while i < n
        invariant
            i <= n,
            n == symbols.view().len(),
            out.len() == i,
            forall|k: int| 0 <= k < i ==> row_of(#[trigger] out[k], symbols.view()[k]),
        decreases n - i,
    {
        match symbols.get(i) {
            Some(s) => out.push(component_row(s)),
            None => {
                assert(false);
            },
        }
        i += 1;
    }
    out
}

/// The flagged ones among the first `n` components, by position.
pub open spec fn flagged(inside: Seq<bool>, n: int) -> Seq<int>
    decreases n,
{
    if n <= 0 {
        Seq::empty()
    } else if inside[n - 1] {
        flagged(inside, n - 1).push(n - 1)
    } else {
        flagged(inside, n - 1)
    }
}

/// The components of a region, given which ones lie in it. Every one of them is meant,
/// those that share a designator or have none as well.
pub fn region_components(inside: &Vec<bool>) -> (r: Vec<usize>)
    ensures
        offsets(r@) == flagged(inside@, inside.len() as int),
{
    let mut out: Vec<usize> = Vec::new();
    let mut i: usize = 0;
    assert(offsets(out@) =~= flagged(inside@, 0));
    while i < inside.len()
        invariant
            i <= inside.len(),
            offsets(out@) == flagged(inside@, i as int),
        decreases inside.len() - i,
    {
        if inside[i] {
            let ghost was = offsets(out@);
            out.push(i);
            assert(offsets(out@) =~= was.push(i as int));
        }
        i += 1;
    }
    out
}

/// The first definition of the name among the symbols of a schematic's
/// `lib_symbols`, from `k` on.
pub open spec fn definition_at(nodes: Seq<Sexp>, lib_id: Seq<char>, k: int) -> Option<Sexp>
    decreases nodes.len() - k,
{
    if k < 0 || k >= nodes.len() {
        None
    } else if text_at(nodes[k], 1) == Some(lib_id) {
        Some(nodes[k])
    } else {
        definition_at(nodes, lib_id, k + 1)
    }
}

/// The definition that a schematic embeds for the `lib_id`.
pub open spec fn embedded_definition(tree: Sexp, lib_id: Seq<char>) -> Option<Sexp> {
    match child_in(tree, "lib_symbols"@) {
        Some(l) => definition_at(children_in(l, "symbol"@), lib_id, 0),
        None => None,
    }
}

/// The message for a component whose definition is missing.
pub open spec fn no_definition_text(reference: Seq<char>, lib_id: Seq<char>) -> Seq<char> {
    "Component '"@ + reference + "' has no embedded definition for '"@ + lib_id
        + "' in this schematic's lib_symbols — it was likely added with a lib_id that doesn't exist in the installed libraries, so it is invisible to KiCAD's netlister. Re-add it with a valid lib_id (delete_schematic_component + add_schematic_component)."@
}

/// What a list of pins says of a component whose definition is missing.
pub open spec fn no_pins_text(lib_id: Seq<char>) -> Seq<char> {
    "no embedded definition for '"@ + lib_id
        + "' in lib_symbols — likely added with a nonexistent lib_id"@
}

/// What a list of pins says of a component whose definition is missing, rather than
/// list none.
pub fn missing_pins_message(lib_id: &str) -> (r: String)
    ensures
        r@ == no_pins_text(lib_id@),
{
    let mut out = copy("no embedded definition for '");
    put(&mut out, lib_id);
    put(&mut out, "' in lib_symbols — likely added with a nonexistent lib_id");
    out
}

/// The definition that a schematic embeds for a component. A missing one is an
/// error, not a component without pins.
pub fn find_definition<'a>(tree: &'a SexpNode, reference: &str, lib_id: &str) -> (r: Result<
    &'a SexpNode,
    String,
>)
    ensures
        match embedded_definition(tree.model(), lib_id@) {
            Some(d) => r is Ok && r->Ok_0.model() == d,
            None => r is Err && r->Err_0@ == no_definition_text(reference@, lib_id@),
        },
{
    match tree.find("lib_symbols") {
        None => {},
        Some(l) => {
            let found = l.find_all("symbol");
            let ghost nodes = children_in(l.model(), "symbol"@);
            let mut k: usize = 0;
            while k < found.len()
                invariant
                    k <= found.len(),
                    node_refs(found@) == nodes,
                    child_in(tree.model(), "lib_symbols"@) == Some(l.model()),
                    nodes == children_in(l.model(), "symbol"@),
                    definition_at(nodes, lib_id@, 0) == definition_at(nodes, lib_id@, k as int),
                decreases found.len() - k,
            {
                let n = found[k];
                assert(n.model() == nodes[k as int]);
                match n.text_at(1) {
                    Some(t) => {
                        if same(t, lib_id) {
                            return Ok(n);
                        }
                    },
                    None => {},
                }
                k += 1;
            }
        },
    }
    let mut out = join3("Component '", reference, "' has no embedded definition for '");
    put(&mut out, lib_id);
    put(
        &mut out,
        "' in this schematic's lib_symbols — it was likely added with a lib_id that doesn't exist in the installed libraries, so it is invisible to KiCAD's netlister. Re-add it with a valid lib_id (delete_schematic_component + add_schematic_component).",
    );
    Err(out)
}

// ─── Annotations and groups ──────────────────────────────────────────────────

/// Where a property is put into the symbol block `a..b`: before its instances,
/// else before its end.
pub open spec fn property_place(s: Seq<u8>, a: int, b: int) -> int {
    let starts = block_starts(s.subrange(a, b), bytes("instances"@), b - a);
    if starts.len() > 0 {
        a + starts[0]
    } else {
        b - 1
    }
}

/// A hidden property.
pub open spec fn hidden_property(key: Seq<char>, value: Seq<char>) -> Seq<char> {
    "    (property \""@ + key + "\" \""@ + value
        + "\"\n      (at 0 0 0)\n      (effects (font (size 1.27 1.27)) (hide yes))\n    )\n    "@
}

/// The schematic with a hidden property put on the symbol with the designator;
/// `None` where there is none.
pub open spec fn annotated(s: Seq<u8>, reference: Seq<char>, key: Seq<char>, value: Seq<char>) -> Option<
    Seq<u8>,
> {
    match symbol_instance(s, reference) {
        None => None,
        Some((a, b)) => {
            let p = property_place(s, a, b);
            Some(s.take(p) + bytes(hidden_property(key, value)) + s.skip(p))
        },
    }
}

fn put_property(content: &str, reference: &str, key: &str, value: &str) -> (r: Option<String>)
    ensures
        match annotated(bytes(content@), reference@, key@, value@) {
            None => r.is_none(),
            Some(t) => r.is_some() && bytes(r.unwrap()@) == t,
        },
{
    let ghost s = bytes(content@);
    let (a, b) = match find_symbol_instance_block(content, reference) {
        None => {
            return None;
        },
        Some(x) => x,
    };
    proof {
        lemma_block_cuttable(content@, a as int, b as int);
    }
    let block = slice(content, a, b);
    let starts = find_block_starts(block, "instances");
    let ghost all = offsets(starts@);
    let at: usize = if starts.len() > 0 {
        proof {
            assert(all[0] == starts[0]);
            assert(bytes(block@)[starts[0] as int] == s[a + starts[0]]);
            lemma_ascii_boundary(content@, a + starts[0]);
        }
        a + starts[0]
    } else {
        proof {
            lemma_block_end(s, a as int, b as int);
            lemma_block_end_is(s, a as int);
            lemma_ascii_boundary(content@, b - 1);
        }
        b - 1
    };
    let mut text = copy("    (property \"");
    put(&mut text, key);
    put(&mut text, "\" \"");
    put(&mut text, value);
    put(
        &mut text,
        "\"\n      (at 0 0 0)\n      (effects (font (size 1.27 1.27)) (hide yes))\n    )\n    ",
    );
    Some(insert_at(content, at, text.as_str()))
}

/// Put a hidden property on a component.
pub fn add_component_annotation(content: &str, reference: &str, key: &str, value: &str) -> (r: Result<
    String,
    String,
>)
    ensures
        match annotated(bytes(content@), reference@, key@, value@) {
            None => r is Err && r->Err_0@ == "Component '"@ + reference@ + "' not found"@,
            Some(t) => r is Ok && bytes(r->Ok_0@) == t,
        },
{
    match put_property(content, reference, key, value) {
        None => Err(join3("Component '", reference, "' not found")),
        Some(t) => Ok(t),
    }
}

/// The schematic with the first `n` components put into a group, and which of them
/// were there.
pub open spec fn grouped(s: Seq<u8>, refs: Seq<Seq<char>>, group: Seq<char>, n: int) -> (
    Seq<u8>,
    Seq<Seq<char>>,
)
    decreases n,
{
    if n <= 0 {
        (s, Seq::empty())
    } else {
        let (t, done) = grouped(s, refs, group, n - 1);
        match annotated(t, refs[n - 1], "Group"@, group) {
            Some(u) => (u, done.push(refs[n - 1])),
            None => (t, done),
        }
    }
}

/// Put components into a group; those that are not there are passed over.
pub fn group_components(content: &str, refs: &Vec<String>, group_name: &str) -> (r: Result<
    (Vec<String>, String),
    String,
>)
    ensures
        match r {
            Err(e) => refs.len() == 0 && e@ == "No references provided"@,
            Ok((done, t)) => refs.len() > 0 && (bytes(t@), texts(done@)) == grouped(
                bytes(content@),
                texts(refs@),
                group_name@,
                refs.len() as int,
            ),
        },
{
    if refs.len() == 0 {
        return Err(copy("No references provided"));
    }
    let ghost all = texts(refs@);
    let mut text = copy(content);
    let mut done: Vec<String> = Vec::new();
    let mut i: usize = 0;
    assert(texts(done@) =~= Seq::<Seq<char>>::empty());
    while i < refs.len()
        invariant
            i <= refs.len(),
            all == texts(refs@),
            (bytes(text@), texts(done@)) == grouped(bytes(content@), all, group_name@, i as int),
        decreases refs.len() - i,
    {
        assert(all[i as int] == refs[i as int]@);
        match put_property(text.as_str(), refs[i].as_str(), "Group", group_name) {
            Some(t) => {
                text = t;
                let ghost was = texts(done@);
                done.push(copy(refs[i].as_str()));
                assert(texts(done@) =~= was.push(all[i as int]));
            },
            None => {},
        }
        i += 1;
    }
    Ok((done, text))
}

// ─── Replacing ───────────────────────────────────────────────────────────────

/// Where the `lib_id` of the symbol with the designator stands.
pub open spec fn lib_id_place(s: Seq<u8>, reference: Seq<char>) -> Result<(int, int), Seq<char>> {
    match symbol_instance(s, reference) {
        None => Err("Component '"@ + reference + "' not found"@),
        Some((a, b)) => match first_match(s.subrange(a, b), bytes("(lib_id \""@), 0) {
            None => Err("Could not find lib_id in symbol block"@),
            Some(o) => match value_end(s, a + o + 9) {
                None => Err("Malformed lib_id"@),
                Some(e) => Ok((a + o + 9, e)),
            },
        },
    }
}

/// What replacing a component's library symbol comes to: the old `lib_id` and the
/// new schematic, with the new definition embedded.
pub open spec fn replaced_component(
    s: Seq<u8>,
    reference: Seq<char>,
    lib_id: Seq<char>,
    definitions: Seq<(Seq<char>, Seq<char>)>,
    library_exists: bool,
    suggestions: Seq<Seq<char>>,
) -> Result<(Seq<u8>, Seq<u8>), Seq<char>> {
    match lib_id_place(s, reference) {
        Err(e) => Err(e),
        Ok((a, b)) => {
            let (t, done) = with_definitions(
                replaced(s, a, b, bytes(lib_id)),
                lib_id,
                definitions,
                definitions.len(),
            );
            if done {
                Ok((s.subrange(a, b), t))
            } else {
                Err(symbol_not_found_text(lib_id, library_exists, suggestions))
            }
        },
    }
}

fn find_lib_id(content: &str, reference: &str) -> (r: Result<(usize, usize), String>)
    ensures
        match lib_id_place(bytes(content@), reference@) {
            Err(e) => r is Err && r->Err_0@ == e,
            Ok((a, b)) => r matches Ok((x, y)) && x == a && y == b && cuttable(
                bytes(content@),
                x as int,
                y as int,
            ),
        },
{
    let ghost s = bytes(content@);
    let (a, b) = match find_symbol_instance_block(content, reference) {
        None => {
            return Err(join3("Component '", reference, "' not found"));
        },
        Some(x) => x,
    };
    proof {
        lemma_block_cuttable(content@, a as int, b as int);
    }
    let block = slice(content, a, b);
    let n = length(content);
    let o = match find_from(block, "(lib_id \"", 0) {
        None => {
            return Err(copy("Could not find lib_id in symbol block"));
        },
        Some(o) => o,
    };
    proof {
        reveal_strlit("(lib_id \"");
        lemma_bytes_ascii("(lib_id \""@);
        assert(s.subrange(a as int, b as int).subrange(o as int, o + 9) =~= s.subrange(
            a + o,
            a + o + 9,
        ));
        lemma_match_boundary(content@, a + o, "(lib_id \""@);
    }
    assert(a + o + 9 <= n);
    match find_value_end(content, a + o + 9) {
        None => Err(copy("Malformed lib_id")),
        Some(e) => {
            proof {
                lemma_ascii_boundary(content@, e as int);
            }
            Ok((a + o + 9, e))
        },
    }
}

/// Replace the library symbol of a component. The new definition is embedded, the
/// parents that it extends before it, and where there is none nothing is written: the component would be invisible to the
/// netlist.
pub fn replace_component(
    content: &str,
    reference: &str,
    new_lib_id: &str,
    definitions: &Vec<(String, String)>,
    library_exists: bool,
    suggestions: &Vec<String>,
) -> (r: Result<(String, String), String>)
    ensures
        match replaced_component(
            bytes(content@),
            reference@,
            new_lib_id@,
            text_pairs(definitions@),
            library_exists,
            texts(suggestions@),
        ) {
            Err(e) => r is Err && r->Err_0@ == e,
            Ok((old_id, t)) => r is Ok && bytes(r->Ok_0.0@) == old_id && bytes(r->Ok_0.1@) == t,
        },
{
    match find_lib_id(content, reference) {
        Err(e) => Err(e),
        Ok((a, b)) => {
            let old_id = copy(slice(content, a, b));
            let mut text = replace(content, a, b, new_lib_id);
            if ensure_lib_symbol_in_schematic(&mut text, new_lib_id, definitions) {
                Ok((old_id, text))
            } else {
                Err(lib_symbol_not_found_error(new_lib_id, library_exists, suggestions))
            }
        },
    }
}

} // verus!
