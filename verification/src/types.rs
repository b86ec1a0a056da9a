//! Positions, properties and other parts that schematic items share.
//!
//! A number is kept in the text it is written with, so that reading and writing an
//! item changes no digit of it.

use crate::chars::{join_all, joined, texts};
use crate::items::{number_at, read_number};
use crate::number::{is_number, number};
#[allow(unused_imports)]
use crate::sexp::{
    atom, items_in, lemma_models, models, push_node, qstr, string_opt, tag_in, tagged_at, text_at,
    text_in, Sexp, SexpNode,
};
use crate::text::{bytes, copy};
use vstd::prelude::*;
use vstd::string::*;

verus! {

// ─── Positions ───────────────────────────────────────────────────────────────

/// A position, with an angle where it has one.
#[derive(Debug, Clone)]
pub struct At {
    pub x: String,
    pub y: String,
    pub rotation: Option<String>,
}

/// A position as a value.
pub struct AtText {
    pub x: Seq<char>,
    pub y: Seq<char>,
    pub rotation: Option<Seq<char>>,
}

/// The leaves after the tag among the first `n` nodes.
pub open spec fn scalars(items: Seq<Sexp>, n: int) -> Seq<Seq<char>>
    decreases n,
{
    if n <= 1 {
        Seq::empty()
    } else {
        match text_in(items[n - 1]) {
            Some(t) => scalars(items, n - 1).push(t),
            None => scalars(items, n - 1),
        }
    }
}

/// The leaves after the tag of a list.
pub open spec fn scalar_args(n: Sexp) -> Seq<Seq<char>> {
    scalars(items_in(n), items_in(n).len() as int)
}

/// The position that a node states: two numbers and, where a third one follows, an
/// angle.
pub open spec fn at_text(n: Sexp) -> Option<AtText> {
    let v = scalar_args(n);
    if v.len() >= 2 && is_number(bytes(v[0])) && is_number(bytes(v[1])) {
        Some(
            AtText {
                x: v[0],
                y: v[1],
                rotation: if v.len() >= 3 && is_number(bytes(v[2])) {
                    Some(v[2])
                } else {
                    None
                },
            },
        )
    } else {
        None
    }
}

/// A position as a node.
pub open spec fn at_sexp(a: AtText) -> Sexp {
    let xy = seq![Sexp::Atom("at"@), Sexp::Atom(a.x), Sexp::Atom(a.y)];
    Sexp::List(
        match a.rotation {
            Some(r) => xy.push(Sexp::Atom(r)),
            None => xy,
        },
    )
}

/// Read the leaves after the tag of a list.
pub fn read_scalar_args(node: &SexpNode) -> (r: Vec<String>)
    ensures
        texts(r@) == scalar_args(node.model()),
{
    let ghost items = items_in(node.model());
    let n = node.count();
    let mut out: Vec<String> = Vec::new();
    assert(texts(out@) =~= scalars(items, 1));
    if n <= 1 {
        return out;
    }
    let mut i: usize = 1;
    while i < n
        invariant
            1 <= i <= n,
            n == items.len(),
            items == items_in(node.model()),
            texts(out@) == scalars(items, i as int),
        decreases n - i,
    {
        match node.text_at(i) {
            Some(t) => {
                let ghost was = texts(out@);
                out.push(copy(t));
                assert(texts(out@) =~= was.push(t@));
            },
            None => {},
        }
        i += 1;
    }
    out
}

impl At {
    /// This position as a value.
    pub open spec fn model(&self) -> AtText {
        AtText { x: self.x@, y: self.y@, rotation: string_opt(self.rotation) }
    }

    /// A position without an angle.
    pub fn new(x: &str, y: &str) -> (r: At)
        ensures
            r.model() == (AtText { x: x@, y: y@, rotation: None }),
    {
        At { x: copy(x), y: copy(y), rotation: None }
    }

    /// A position with an angle.
    pub fn with_rotation(x: &str, y: &str, rotation: &str) -> (r: At)
        ensures
            r.model() == (AtText { x: x@, y: y@, rotation: Some(rotation@) }),
    {
        At { x: copy(x), y: copy(y), rotation: Some(copy(rotation)) }
    }

    /// Read `(at x y [angle])`.
    pub fn from_sexp(node: &SexpNode) -> (r: Option<At>)
        ensures
            match at_text(node.model()) {
                Some(a) => r.is_some() && r.unwrap().model() == a,
                None => r.is_none(),
            },
    {
        let v = read_scalar_args(node);
        let ghost all = texts(v@);
        if v.len() < 2 {
            return None;
        }
        assert(all[0] == v[0]@);
        assert(all[1] == v[1]@);
        if !number(v[0].as_str()) || !number(v[1].as_str()) {
            return None;
        }
        let rotation = if v.len() >= 3 && number(v[2].as_str()) {
            assert(all[2] == v[2]@);
            Some(copy(v[2].as_str()))
        } else {
            assert(v.len() >= 3 ==> all[2] == v[2]@);
            None
        };
        Some(At { x: copy(v[0].as_str()), y: copy(v[1].as_str()), rotation })
    }

    /// Write `(at x y [angle])`.
    pub fn to_sexp(&self) -> (r: SexpNode)
        ensures
            r.model() == at_sexp(self.model()),
    {
        let mut v: Vec<SexpNode> = Vec::new();
        push_node(&mut v, atom("at"));
        push_node(&mut v, atom(self.x.as_str()));
        push_node(&mut v, atom(self.y.as_str()));
        let ghost xy = seq![Sexp::Atom("at"@), Sexp::Atom(self.x@), Sexp::Atom(self.y@)];
        assert(models(v@) =~= xy);
        match &self.rotation {
            Some(t) => {
                push_node(&mut v, atom(t.as_str()));
                assert(models(v@) =~= xy.push(Sexp::Atom(t@)));
            },
            None => {},
        }
        SexpNode::List(v)
    }
}

/// A position is read back as it was written.
pub proof fn law_at_reads_back(a: AtText)
    requires
        is_number(bytes(a.x)),
        is_number(bytes(a.y)),
        a.rotation matches Some(r) ==> is_number(bytes(r)),
    ensures
        at_text(at_sexp(a)) == Some(a),
{
    let items = items_in(at_sexp(a));
    assert(scalars(items, 1) =~= Seq::<Seq<char>>::empty());
    assert(scalars(items, 2) =~= seq![a.x]);
    assert(scalars(items, 3) =~= seq![a.x, a.y]);
    match a.rotation {
        Some(r) => {
            assert(items.len() == 4);
            assert(scalars(items, 4) =~= seq![a.x, a.y, r]);
        },
        None => {
            assert(items.len() == 3);
        },
    }
}

// ─── Properties ──────────────────────────────────────────────────────────────

/// A property of a symbol.
#[derive(Debug)]
pub struct Property {
    pub name: String,
    pub value: String,
    /// The lists after the name and the value: position, effects and others.
    pub sub_nodes: Vec<SexpNode>,
}

/// A property as a value.
pub struct PropertyText {
    pub name: Seq<char>,
    pub value: Seq<char>,
    pub sub_nodes: Seq<Sexp>,
}

/// The lists from position 3 on among the first `n` nodes.
pub open spec fn lists_after(items: Seq<Sexp>, n: int) -> Seq<Sexp>
    decreases n,
{
    if n <= 3 {
        Seq::empty()
    } else if items[n - 1] is List {
        lists_after(items, n - 1).push(items[n - 1])
    } else {
        lists_after(items, n - 1)
    }
}

/// The property that a node states.
pub open spec fn property_text(n: Sexp) -> Option<PropertyText> {
    match (text_at(n, 1), text_at(n, 2)) {
        (Some(name), Some(value)) => Some(
            PropertyText {
                name,
                value,
                sub_nodes: lists_after(items_in(n), items_in(n).len() as int),
            },
        ),
        _ => None,
    }
}

/// A property as a node.
pub open spec fn property_sexp(p: PropertyText) -> Sexp {
    Sexp::List(
        seq![Sexp::Atom("property"@), Sexp::Str(p.name), Sexp::Str(p.value)] + p.sub_nodes,
    )
}

/// The position node of a property.
pub open spec fn at_of(p: PropertyText) -> Option<Sexp> {
    match tagged_at(p.sub_nodes, "at"@, 0) {
        Some(i) => Some(p.sub_nodes[i]),
        None => None,
    }
}

/// Where a property's text stands: absolute, not relative to its symbol.
pub open spec fn position_of(p: PropertyText) -> Option<(Seq<char>, Seq<char>)> {
    match at_of(p) {
        Some(a) => match (number_at(a, 1), number_at(a, 2)) {
            (Some(x), Some(y)) => Some((x, y)),
            _ => None,
        },
        None => None,
    }
}

/// The angle of a property's text.
pub open spec fn angle_of(p: PropertyText) -> Option<Seq<char>> {
    match at_of(p) {
        Some(a) => number_at(a, 3),
        None => None,
    }
}

/// The property with its text elsewhere; its angle stays.
pub open spec fn moved_to(p: PropertyText, x: Seq<char>, y: Seq<char>) -> PropertyText {
    match tagged_at(p.sub_nodes, "at"@, 0) {
        Some(i) => {
            let items = items_in(p.sub_nodes[i]);
            if items.len() > 2 {
                PropertyText {
                    sub_nodes: p.sub_nodes.update(
                        i,
                        Sexp::List(items.update(1, Sexp::Atom(x)).update(2, Sexp::Atom(y))),
                    ),
                    ..p
                }
            } else {
                p
            }
        },
        None => p,
    }
}

/// The property with its text at another angle, which is added where it has none.
pub open spec fn turned_to(p: PropertyText, angle: Seq<char>) -> PropertyText {
    match tagged_at(p.sub_nodes, "at"@, 0) {
        Some(i) => {
            let items = items_in(p.sub_nodes[i]);
            if items.len() > 3 {
                PropertyText {
                    sub_nodes: p.sub_nodes.update(i, Sexp::List(items.update(3, Sexp::Atom(angle)))),
                    ..p
                }
            } else if items.len() == 3 {
                PropertyText {
                    sub_nodes: p.sub_nodes.update(i, Sexp::List(items.push(Sexp::Atom(angle)))),
                    ..p
                }
            } else {
                p
            }
        },
        None => p,
    }
}

/// An optional pair of texts as a value.
pub open spec fn pair_opt(p: Option<(String, String)>) -> Option<(Seq<char>, Seq<char>)> {
    match p {
        Some((a, b)) => Some((a@, b@)),
        None => None,
    }
}

/// Exchange a node of a list.
pub fn set_node(v: &mut Vec<SexpNode>, i: usize, n: SexpNode)
    requires
        i < old(v).len(),
    ensures
        models(final(v)@) == models(old(v)@).update(i as int, n.model()),
        final(v).len() == old(v).len(),
{
    let ghost was = v@;
    let ghost m = n.model();
    v.set(i, n);
    proof {
        lemma_models(was);
        lemma_models(v@);
        assert(models(v@) =~= models(was).update(i as int, m));
    }
}

/// The position of the first node with the tag.
pub fn find_tagged(v: &Vec<SexpNode>, tag: &str) -> (r: Option<usize>)
    ensures
        match r {
            Some(i) => i < v.len() && tagged_at(models(v@), tag@, 0) == Some(i as int) && tag_in(
                v[i as int].model(),
            ) == Some(tag@),
            None => tagged_at(models(v@), tag@, 0).is_none(),
        },
{
    let ghost all = models(v@);
    proof {
        lemma_models(v@);
    }
    let mut i: usize = 0;
    while i < v.len()
        invariant
            i <= v.len(),
            all == models(v@),
            all.len() == v.len(),
            forall|k: int| 0 <= k < v.len() ==> #[trigger] all[k] == v[k].model(),
            tagged_at(all, tag@, 0) == tagged_at(all, tag@, i as int),
        decreases v.len() - i,
    {
        assert(all[i as int] == v[i as int].model());
        if v[i].has_tag(tag) {
            return Some(i);
        }
        i += 1;
    }
    None
}

impl Property {
    /// This property as a value.
    pub open spec fn model(&self) -> PropertyText {
        PropertyText { name: self.name@, value: self.value@, sub_nodes: models(self.sub_nodes@) }
    }

    /// A property with nothing but a name and a value.
    pub fn new(name: &str, value: &str) -> (r: Property)
        ensures
            r.model() == (PropertyText { name: name@, value: value@, sub_nodes: Seq::empty() }),
    {
        Property { name: copy(name), value: copy(value), sub_nodes: Vec::new() }
    }

    /// The place of the property's own text, if it states one.
    pub fn position(&self) -> (r: Option<(String, String)>)
        ensures
            pair_opt(r) == position_of(self.model()),
    {
        proof {
            lemma_models(self.sub_nodes@);
        }
        match find_tagged(&self.sub_nodes, "at") {
            Some(i) => {
                let a = &self.sub_nodes[i];
                match (read_number(a, 1), read_number(a, 2)) {
                    (Some(x), Some(y)) => Some((x, y)),
                    _ => None,
                }
            },
            None => None,
        }
    }

    /// The angle of the property's text, if it states one.
    pub fn text_angle(&self) -> (r: Option<String>)
        ensures
            string_opt(r) == angle_of(self.model()),
    {
        proof {
            lemma_models(self.sub_nodes@);
        }
        match find_tagged(&self.sub_nodes, "at") {
            Some(i) => read_number(&self.sub_nodes[i], 3),
            None => None,
        }
    }

    /// Move the property's text; its angle stays.
    pub fn set_position(&mut self, x: &str, y: &str)
        ensures
            final(self).model() == moved_to(old(self).model(), x@, y@),
    {
        proof {
            lemma_models(self.sub_nodes@);
        }
        match find_tagged(&self.sub_nodes, "at") {
            Some(i) => {
                let found = self.sub_nodes[i].duplicate();
                match found {
                    SexpNode::List(mut v) => {
                        proof {
                            lemma_models(v@);
                        }
                        if v.len() > 2 {
                            set_node(&mut v, 1, atom(x));
                            proof {
                                lemma_models(v@);
                            }
                            set_node(&mut v, 2, atom(y));
                            set_node(&mut self.sub_nodes, i, SexpNode::List(v));
                        }
                    },
                    _ => {},
                }
            },
            None => {},
        }
    }

    /// Turn the property's text to an angle, which is added where it has none.
    pub fn set_text_angle(&mut self, angle: &str)
        ensures
            final(self).model() == turned_to(old(self).model(), angle@),
    {
        proof {
            lemma_models(self.sub_nodes@);
        }
        match find_tagged(&self.sub_nodes, "at") {
            Some(i) => {
                let found = self.sub_nodes[i].duplicate();
                match found {
                    SexpNode::List(mut v) => {
                        proof {
                            lemma_models(v@);
                        }
                        if v.len() > 3 {
                            set_node(&mut v, 3, atom(angle));
                            set_node(&mut self.sub_nodes, i, SexpNode::List(v));
                        } else if v.len() == 3 {
                            push_node(&mut v, atom(angle));
                            set_node(&mut self.sub_nodes, i, SexpNode::List(v));
                        }
                    },
                    _ => {},
                }
            },
            None => {},
        }
    }

    /// Read `(property "Name" "Value" …)`.
    pub fn from_sexp(node: &SexpNode) -> (r: Option<Property>)
        ensures
            match property_text(node.model()) {
                Some(p) => r.is_some() && r.unwrap().model() == p,
                None => r.is_none(),
            },
    {
        let ghost items = items_in(node.model());
        let name = match node.text_at(1) {
            None => {
                return None;
            },
            Some(t) => copy(t),
        };
        let value = match node.text_at(2) {
            None => {
                return None;
            },
            Some(t) => copy(t),
        };
        let n = node.count();
        let mut sub_nodes: Vec<SexpNode> = Vec::new();
        let mut i: usize = 3;
        assert(models(sub_nodes@) =~= lists_after(items, 3));
        while i < n
            invariant
                3 <= i,
                i <= n,
                n == items.len(),
                items == items_in(node.model()),
                models(sub_nodes@) == lists_after(items, i as int),
            decreases n - i,
        {
            match node.get(i) {
                Some(c) => {
                    assert(c.model() == items[i as int]);
                    if c.is_list() {
                        push_node(&mut sub_nodes, c.duplicate());
                    }
                },
                None => {},
            }
            i += 1;
        }
        Some(Property { name, value, sub_nodes })
    }

    /// Write `(property "Name" "Value" …)`.
    pub fn to_sexp(&self) -> (r: SexpNode)
        ensures
            r.model() == property_sexp(self.model()),
    {
        let mut v: Vec<SexpNode> = Vec::new();
        push_node(&mut v, atom("property"));
        push_node(&mut v, qstr(self.name.as_str()));
        push_node(&mut v, qstr(self.value.as_str()));
        let ghost head = seq![
            Sexp::Atom("property"@),
            Sexp::Str(self.name@),
            Sexp::Str(self.value@),
        ];
        assert(models(v@) =~= head);
        push_copies(&mut v, &self.sub_nodes);
        SexpNode::List(v)
    }

    /// A copy of this property.
    pub fn duplicate(&self) -> (r: Property)
        ensures
            r.model() == self.model(),
    {
        let mut sub_nodes: Vec<SexpNode> = Vec::new();
        push_copies(&mut sub_nodes, &self.sub_nodes);
        assert(models(sub_nodes@) =~= models(self.sub_nodes@));
        Property { name: copy(self.name.as_str()), value: copy(self.value.as_str()), sub_nodes }
    }
}

/// Append copies of nodes to a list.
pub fn push_copies(v: &mut Vec<SexpNode>, more: &Vec<SexpNode>)
    ensures
        models(final(v)@) == models(old(v)@) + models(more@),
{
    let ghost head = models(v@);
    let ghost all = models(more@);
    proof {
        lemma_models(more@);
    }
    let mut i: usize = 0;
    assert(head + all.take(0) =~= head);
    while i < more.len()
        invariant
            i <= more.len(),
            all == models(more@),
            all.len() == more.len(),
            forall|k: int| 0 <= k < more.len() ==> #[trigger] all[k] == more[k].model(),
            models(v@) == head + all.take(i as int),
        decreases more.len() - i,
    {
        assert(all[i as int] == more[i as int].model());
        push_node(v, more[i].duplicate());
        assert(head + all.take(i + 1) =~= (head + all.take(i as int)).push(all[i as int]));
        i += 1;
    }
    assert(all.take(more.len() as int) =~= all);
}

/// A property whose nodes are lists is read back as it was written.
pub proof fn law_property_reads_back(p: PropertyText)
    requires
        forall|i: int| 0 <= i < p.sub_nodes.len() ==> (#[trigger] p.sub_nodes[i]) is List,
    ensures
        property_text(property_sexp(p)) == Some(p),
{
    let items = items_in(property_sexp(p));
    lemma_lists_after(items, p.sub_nodes, p.sub_nodes.len() as int);
    assert(p.sub_nodes.take(p.sub_nodes.len() as int) =~= p.sub_nodes);
}

proof fn lemma_lists_after(items: Seq<Sexp>, subs: Seq<Sexp>, n: int)
    requires
        0 <= n <= subs.len(),
        items.len() == 3 + subs.len(),
        forall|i: int| 0 <= i < subs.len() ==> #[trigger] subs[i] == items[3 + i],
        forall|i: int| 0 <= i < subs.len() ==> (#[trigger] subs[i]) is List,
    ensures
        lists_after(items, 3 + n) == subs.take(n),
    decreases n,
{
    if n == 0 {
        assert(subs.take(0) =~= Seq::<Sexp>::empty());
    } else {
        lemma_lists_after(items, subs, n - 1);
        assert(subs[n - 1] == items[3 + n - 1]);
        assert(subs.take(n) =~= subs.take(n - 1).push(subs[n - 1]));
    }
}

/// Moving a property's text moves it there and leaves its name, its value and its
/// angle alone.
pub proof fn law_moved_property(p: PropertyText, x: Seq<char>, y: Seq<char>)
    requires
        position_of(p).is_some(),
        is_number(bytes(x)),
        is_number(bytes(y)),
    ensures
        position_of(moved_to(p, x, y)) == Some((x, y)),
        angle_of(moved_to(p, x, y)) == angle_of(p),
        moved_to(p, x, y).name == p.name,
        moved_to(p, x, y).value == p.value,
{
    let i = tagged_at(p.sub_nodes, "at"@, 0).unwrap();
    crate::sexp::lemma_tagged_at(p.sub_nodes, "at"@, 0);
    let items = items_in(p.sub_nodes[i]);
    let q = moved_to(p, x, y);
    let now = items.update(1, Sexp::Atom(x)).update(2, Sexp::Atom(y));
    assert(q.sub_nodes[i] == Sexp::List(now));
    assert(now[0] == items[0]);
    lemma_tagged_at_same(p.sub_nodes, q.sub_nodes, "at"@, 0, i);
}

/// Where the nodes before keep their tags, the first one with the tag stays.
proof fn lemma_tagged_at_same(a: Seq<Sexp>, b: Seq<Sexp>, tag: Seq<char>, k: int, i: int)
    requires
        0 <= k <= i < a.len(),
        a.len() == b.len(),
        tagged_at(a, tag, k) == Some(i),
        forall|j: int| 0 <= j < i ==> a[j] == b[j],
        tag_in(b[i]) == Some(tag),
    ensures
        tagged_at(b, tag, k) == Some(i),
    decreases i - k,
{
    if k < i {
        if tag_in(a[k]) == Some(tag) {
            assert(tagged_at(a, tag, k) == Some(k));
        }
        lemma_tagged_at_same(a, b, tag, k + 1, i);
    }
}

// ─── Kept as they are ────────────────────────────────────────────────────────

/// The effects of a text, kept as they are.
#[derive(Debug)]
pub struct Effects(pub SexpNode);

impl Effects {
    /// Keep a node.
    pub fn from_sexp(node: &SexpNode) -> (r: Option<Effects>)
        ensures
            r.is_some(),
            r.unwrap().0.model() == node.model(),
    {
        Some(Effects(node.duplicate()))
    }

    /// The node that was kept.
    pub fn to_sexp(&self) -> (r: SexpNode)
        ensures
            r.model() == self.0.model(),
    {
        self.0.duplicate()
    }
}

/// The stroke of a line, kept as it is.
#[derive(Debug)]
pub struct Stroke(pub SexpNode);

impl Stroke {
    /// Keep a node.
    pub fn from_sexp(node: &SexpNode) -> (r: Option<Stroke>)
        ensures
            r.is_some(),
            r.unwrap().0.model() == node.model(),
    {
        Some(Stroke(node.duplicate()))
    }

    /// The node that was kept.
    pub fn to_sexp(&self) -> (r: SexpNode)
        ensures
            r.model() == self.0.model(),
    {
        self.0.duplicate()
    }
}

// ─── Changes ─────────────────────────────────────────────────────────────────

/// A readable record of the changes made to a schematic.
#[derive(Debug)]
pub struct ChangeSet {
    changes: Vec<String>,
}

impl ChangeSet {
    /// The changes, in the order they were recorded.
    pub closed spec fn view(&self) -> Seq<Seq<char>> {
        texts(self.changes@)
    }

    /// No changes.
    pub fn new() -> (r: ChangeSet)
        ensures
            r.view() == Seq::<Seq<char>>::empty(),
    {
        let r = ChangeSet { changes: Vec::new() };
        assert(r.view() =~= Seq::<Seq<char>>::empty());
        r
    }

    /// Record a change.
    pub fn record(&mut self, msg: &str)
        ensures
            final(self).view() == old(self).view().push(msg@),
    {
        let ghost was = self.view();
        self.changes.push(copy(msg));
        assert(self.view() =~= was.push(msg@));
    }

    /// Whether nothing was changed.
    pub fn is_empty(&self) -> (r: bool)
        ensures
            r == (self.view().len() == 0),
    {
        self.changes.len() == 0
    }

    /// How many changes there are.
    pub fn len(&self) -> (r: usize)
        ensures
            r == self.view().len(),
    {
        self.changes.len()
    }

    /// All recorded changes, one on each line.
    pub fn summary(&self) -> (r: String)
        ensures
            r@ == joined(self.view(), "\n"@),
    {
        join_all(&self.changes, "\n")
    }

    /// The changes.
    pub fn changes(&self) -> (r: &Vec<String>)
        ensures
            texts(r@) == self.view(),
    {
        &self.changes
    }
}

impl Default for ChangeSet {
    /// No changes.
    fn default() -> (r: ChangeSet)
        ensures
            r.view() == Seq::<Seq<char>>::empty(),
    {
        ChangeSet::new()
    }
}

} // verus!
