//! What a lookup of a pad answers, in terms of the nodes of the board.

#[allow(unused_imports)]
use crate::chars::int_value;
#[allow(unused_imports)]
use crate::number::is_number;
#[allow(unused_imports)]
use crate::pads::{
    footprint_in, gives_reference, has_reference, is_pad_place, pad_in, pad_index, pad_net,
    reference_index, PadPlace,
};
#[allow(unused_imports)]
use crate::sexp::{all_tagged, child_in, children_in, items_in, tag_in, tagged_at, text_at, Sexp};
#[allow(unused_imports)]
use crate::text::bytes;
#[allow(unused_imports)]
use crate::verification::is_position;
use vstd::prelude::*;

verus! {

// ─── Nodes by what they hold ─────────────────────────────────────────────────

/// A list that begins with the word.
pub open spec fn headed(n: Sexp, word: Seq<char>) -> bool {
    n matches Sexp::List(v) && v.len() > 0 && v[0] == Sexp::Atom(word)
}

/// A list whose node at position `i` is the text, bare or quoted.
pub open spec fn holds(n: Sexp, i: int, text: Seq<char>) -> bool {
    n matches Sexp::List(v) && 0 <= i < v.len() && (v[i] == Sexp::Atom(text) || v[i] == Sexp::Str(
        text,
    ))
}

/// Node `f` is the first that begins with the word.
pub open spec fn first_headed(v: Seq<Sexp>, f: int, word: Seq<char>) -> bool {
    &&& 0 <= f < v.len()
    &&& headed(v[f], word)
    &&& forall|j: int| 0 <= j < f ==> !(headed(#[trigger] v[j], word))
}

/// A node that gives the designator.
pub open spec fn designates(n: Sexp, reference: Seq<char>) -> bool {
    headed(n, "property"@) && holds(n, 1, "Reference"@) && holds(n, 2, reference)
}

/// A footprint with the designator.
pub open spec fn designated(n: Sexp, reference: Seq<char>) -> bool {
    &&& headed(n, "footprint"@)
    &&& n matches Sexp::List(v) && exists|i: int|
        0 <= i < v.len() && designates(#[trigger] v[i], reference)
}

/// Node `k` of the board is the first footprint with the designator.
pub open spec fn first_designated(board: Seq<Sexp>, k: int, reference: Seq<char>) -> bool {
    &&& 0 <= k < board.len()
    &&& designated(board[k], reference)
    &&& forall|j: int| 0 <= j < k ==> !(designated(#[trigger] board[j], reference))
}

/// A pad with the number.
pub open spec fn numbered(n: Sexp, number: Seq<char>) -> bool {
    headed(n, "pad"@) && holds(n, 1, number)
}

/// Node `g` of the footprint is the first pad with the number.
pub open spec fn first_numbered(fp: Seq<Sexp>, g: int, number: Seq<char>) -> bool {
    &&& 0 <= g < fp.len()
    &&& numbered(fp[g], number)
    &&& forall|j: int| 0 <= j < g ==> !(numbered(#[trigger] fp[j], number))
}

/// Whether the text is what a list says at position `i`: the number written there,
/// and zero only where no number is.
pub open spec fn says(v: Seq<Sexp>, i: int, text: Seq<char>) -> bool {
    &&& forall|w: Seq<char>|
        holds(Sexp::List(v), i, w) && #[trigger] is_number(bytes(w)) ==> text == w
    &&& (forall|w: Seq<char>|
        holds(Sexp::List(v), i, w) ==> !(#[trigger] is_number(bytes(w)))) ==> text == "0"@
}

// ─── Searching by tag ────────────────────────────────────────────────────────

pub proof fn lemma_headed(n: Sexp, word: Seq<char>)
    ensures
        headed(n, word) == (tag_in(n) == Some(word)),
{
}

pub proof fn lemma_holds(n: Sexp, i: int, text: Seq<char>)
    ensures
        holds(n, i, text) == (text_at(n, i) == Some(text)),
{
}

pub proof fn lemma_first_tagged(v: Seq<Sexp>, f: int, word: Seq<char>, from: int)
    requires
        first_headed(v, f, word),
        0 <= from <= f,
    ensures
        tagged_at(v, word, from) == Some(f),
    decreases f - from,
{
    lemma_headed(v[from], word);
    if from < f {
        lemma_first_tagged(v, f, word, from + 1);
    }
}

pub proof fn lemma_none_tagged(v: Seq<Sexp>, word: Seq<char>, from: int)
    requires
        0 <= from,
        forall|j: int| 0 <= j < v.len() ==> !(headed(#[trigger] v[j], word)),
    ensures
        tagged_at(v, word, from).is_none(),
    decreases v.len() - from,
{
    if from < v.len() {
        lemma_headed(v[from], word);
        lemma_none_tagged(v, word, from + 1);
    }
}

/// Where node `k` stands among those with its tag.
proof fn lemma_tagged_place(v: Seq<Sexp>, word: Seq<char>, k: int, n: int)
    requires
        0 <= k < n <= v.len(),
        headed(v[k], word),
    ensures
        all_tagged(v, word, k).len() < all_tagged(v, word, n).len(),
        all_tagged(v, word, n)[all_tagged(v, word, k).len() as int] == v[k],
        forall|j: int|
            0 <= j < all_tagged(v, word, k).len() ==> #[trigger] all_tagged(v, word, n)[j]
                == all_tagged(v, word, k)[j],
    decreases n,
{
    lemma_headed(v[k], word);
    if n - 1 > k {
        lemma_tagged_place(v, word, k, n - 1);
    }
}

/// Each of the nodes with the tag is a node of the list.
proof fn lemma_tagged_node(v: Seq<Sexp>, word: Seq<char>, n: int, j: int) -> (k: int)
    requires
        0 <= n <= v.len(),
        0 <= j < all_tagged(v, word, n).len(),
    ensures
        0 <= k < n,
        v[k] == all_tagged(v, word, n)[j],
        headed(v[k], word),
    decreases n,
{
    lemma_headed(v[n - 1], word);
    if tag_in(v[n - 1]) == Some(word) && j == all_tagged(v, word, n).len() - 1 {
        n - 1
    } else {
        lemma_tagged_node(v, word, n - 1, j)
    }
}

proof fn lemma_designated(n: Sexp, reference: Seq<char>)
    requires
        headed(n, "footprint"@),
    ensures
        designated(n, reference) == has_reference(n, reference),
{
    let v = items_in(n);
    let all = children_in(n, "property"@);
    if designated(n, reference) {
        let i = choose|i: int| 0 <= i < v.len() && designates(#[trigger] v[i], reference);
        lemma_tagged_place(v, "property"@, i, v.len() as int);
        let j = all_tagged(v, "property"@, i).len() as int;
        lemma_holds(v[i], 1, "Reference"@);
        lemma_holds(v[i], 2, reference);
        assert(gives_reference(all[j], reference));
    }
    if has_reference(n, reference) {
        let j = choose|j: int| 0 <= j < all.len() && gives_reference(#[trigger] all[j], reference);
        let i = lemma_tagged_node(v, "property"@, v.len() as int, j);
        lemma_holds(v[i], 1, "Reference"@);
        lemma_holds(v[i], 2, reference);
        assert(designates(v[i], reference));
    }
}

proof fn lemma_reference_index(fps: Seq<Sexp>, reference: Seq<char>, n: int, from: int)
    requires
        0 <= from <= n <= fps.len(),
        forall|j: int| 0 <= j < n ==> !(has_reference(#[trigger] fps[j], reference)),
        n < fps.len() ==> has_reference(fps[n], reference),
    ensures
        reference_index(fps, reference, from) == if n < fps.len() {
            Some(n)
        } else {
            None
        },
    decreases n - from,
{
    if from < n {
        assert(!has_reference(fps[from], reference));
        lemma_reference_index(fps, reference, n, from + 1);
    }
}

proof fn lemma_pad_index(pads: Seq<Sexp>, number: Seq<char>, n: int, from: int)
    requires
        0 <= from <= n <= pads.len(),
        forall|j: int| 0 <= j < n ==> text_at(#[trigger] pads[j], 1) != Some(number),
        n < pads.len() ==> text_at(pads[n], 1) == Some(number),
    ensures
        pad_index(pads, number, from) == if n < pads.len() {
            Some(n)
        } else {
            None
        },
    decreases n - from,
{
    if from < n {
        assert(text_at(pads[from], 1) != Some(number));
        lemma_pad_index(pads, number, n, from + 1);
    }
}

proof fn lemma_first_designated(board: Seq<Sexp>, k: int, reference: Seq<char>)
    requires
        first_designated(board, k, reference),
    ensures
        footprint_in(Sexp::List(board), reference) == Some(board[k]),
{
    let tag = "footprint"@;
    let all = all_tagged(board, tag, board.len() as int);
    lemma_tagged_place(board, tag, k, board.len() as int);
    let n = all_tagged(board, tag, k).len() as int;
    assert forall|j: int| 0 <= j < n implies !(has_reference(#[trigger] all[j], reference)) by {
        let i = lemma_tagged_node(board, tag, k, j);
        lemma_designated(board[i], reference);
        assert(!(designated(board[i], reference)));
    }
    lemma_designated(board[k], reference);
    lemma_reference_index(all, reference, n, 0);
}

proof fn lemma_first_numbered(fp: Seq<Sexp>, g: int, number: Seq<char>)
    requires
        first_numbered(fp, g, number),
    ensures
        pad_in(Sexp::List(fp), number) == Some(fp[g]),
{
    let tag = "pad"@;
    let all = all_tagged(fp, tag, fp.len() as int);
    lemma_tagged_place(fp, tag, g, fp.len() as int);
    let n = all_tagged(fp, tag, g).len() as int;
    assert forall|j: int| 0 <= j < n implies text_at(#[trigger] all[j], 1) != Some(number) by {
        let i = lemma_tagged_node(fp, tag, g, j);
        lemma_holds(fp[i], 1, number);
        assert(!(numbered(fp[i], number)));
    }
    lemma_holds(fp[g], 1, number);
    lemma_pad_index(all, number, n, 0);
}

proof fn lemma_none_designated(board: Seq<Sexp>, reference: Seq<char>)
    requires
        forall|j: int| 0 <= j < board.len() ==> !(designated(#[trigger] board[j], reference)),
    ensures
        footprint_in(Sexp::List(board), reference).is_none(),
{
    let tag = "footprint"@;
    let all = all_tagged(board, tag, board.len() as int);
    assert forall|j: int| 0 <= j < all.len() implies !(has_reference(
        #[trigger] all[j],
        reference,
    )) by {
        let i = lemma_tagged_node(board, tag, board.len() as int, j);
        lemma_designated(board[i], reference);
        assert(!(designated(board[i], reference)));
    }
    lemma_reference_index(all, reference, all.len() as int, 0);
}

proof fn lemma_none_numbered(fp: Seq<Sexp>, number: Seq<char>)
    requires
        forall|j: int| 0 <= j < fp.len() ==> !(numbered(#[trigger] fp[j], number)),
    ensures
        pad_in(Sexp::List(fp), number).is_none(),
{
    let tag = "pad"@;
    let all = all_tagged(fp, tag, fp.len() as int);
    assert forall|j: int| 0 <= j < all.len() implies text_at(#[trigger] all[j], 1) != Some(
        number,
    ) by {
        let i = lemma_tagged_node(fp, tag, fp.len() as int, j);
        lemma_holds(fp[i], 1, number);
        assert(!(numbered(fp[i], number)));
    }
    lemma_pad_index(all, number, all.len() as int, 0);
}

// ─── Where a pad stands ──────────────────────────────────────────────────────

/// The place of a pad holds what the board writes: the numbers of the footprint's
/// `(at X Y A)` are the footprint's position and angle, those of the pad's
/// `(at X Y)` are its offset. Zero stands only where the board writes no number.
pub proof fn law_pad_place_is_as_written(
    board: Seq<Sexp>,
    k: int,
    fp: Seq<Sexp>,
    f: int,
    at: Seq<Sexp>,
    g: int,
    pad: Seq<Sexp>,
    h: int,
    offset: Seq<Sexp>,
    reference: Seq<char>,
    number: Seq<char>,
    r: Result<PadPlace, String>,
)
    requires
        is_pad_place(r, Sexp::List(board), reference, number),
        first_designated(board, k, reference),
        board[k] == Sexp::List(fp),
        first_headed(fp, f, "at"@),
        fp[f] == Sexp::List(at),
        first_numbered(fp, g, number),
        fp[g] == Sexp::List(pad),
        first_headed(pad, h, "at"@),
        pad[h] == Sexp::List(offset),
    ensures
        r is Ok,
        says(at, 1, r->Ok_0.fp_x@),
        says(at, 2, r->Ok_0.fp_y@),
        says(at, 3, r->Ok_0.fp_rotation@),
        says(offset, 1, r->Ok_0.x@),
        says(offset, 2, r->Ok_0.y@),
{
    lemma_first_designated(board, k, reference);
    lemma_first_numbered(fp, g, number);
    lemma_first_tagged(fp, f, "at"@, 0);
    lemma_first_tagged(pad, h, "at"@, 0);
    lemma_says(Sexp::List(fp), "at"@, at, 1);
    lemma_says(Sexp::List(fp), "at"@, at, 2);
    lemma_says(Sexp::List(fp), "at"@, at, 3);
    lemma_says(Sexp::List(pad), "at"@, offset, 1);
    lemma_says(Sexp::List(pad), "at"@, offset, 2);
}

/// The position that is answered for a footprint is the one in its `(at …)`.
pub proof fn law_footprint_position_is_as_written(
    board: Seq<Sexp>,
    k: int,
    fp: Seq<Sexp>,
    f: int,
    at: Seq<Sexp>,
    reference: Seq<char>,
    r: Result<(String, String), String>,
)
    requires
        is_position(r, Sexp::List(board), reference),
        first_designated(board, k, reference),
        board[k] == Sexp::List(fp),
        first_headed(fp, f, "at"@),
        fp[f] == Sexp::List(at),
    ensures
        r is Ok,
        says(at, 1, r->Ok_0.0@),
        says(at, 2, r->Ok_0.1@),
{
    lemma_first_designated(board, k, reference);
    lemma_first_tagged(fp, f, "at"@, 0);
    lemma_says(Sexp::List(fp), "at"@, at, 1);
    lemma_says(Sexp::List(fp), "at"@, at, 2);
}

/// No position is answered where no footprint has the designator.
pub proof fn law_missing_footprint_has_no_position(
    board: Seq<Sexp>,
    reference: Seq<char>,
    r: Result<(String, String), String>,
)
    requires
        is_position(r, Sexp::List(board), reference),
        forall|j: int| 0 <= j < board.len() ==> !(designated(#[trigger] board[j], reference)),
    ensures
        r is Err,
        r->Err_0@ == "Footprint '"@ + reference + "' not found on board"@,
{
    lemma_none_designated(board, reference);
}

pub proof fn lemma_says(n: Sexp, word: Seq<char>, at: Seq<Sexp>, i: int)
    requires
        child_in(n, word) == Some(Sexp::List(at)),
    ensures
        says(at, i, crate::items::coordinate(n, word, i)),
{
    let t = crate::items::coordinate(n, word, i);
    let a = Sexp::List(at);
    assert forall|w: Seq<char>| holds(a, i, w) && #[trigger] is_number(bytes(w)) implies t == w by {
        lemma_holds(a, i, w);
    }
    if forall|w: Seq<char>| holds(a, i, w) ==> !(#[trigger] is_number(bytes(w))) {
        match text_at(a, i) {
            Some(w) => {
                lemma_holds(a, i, w);
                assert(!is_number(bytes(w)));
            },
            None => {},
        }
    }
}

/// A footprint that the board gives no `(at …)` stands at the origin, unturned.
pub proof fn law_unplaced_footprint_is_at_the_origin(
    board: Seq<Sexp>,
    k: int,
    fp: Seq<Sexp>,
    g: int,
    pad: Seq<Sexp>,
    h: int,
    offset: Seq<Sexp>,
    reference: Seq<char>,
    number: Seq<char>,
    r: Result<PadPlace, String>,
)
    requires
        is_pad_place(r, Sexp::List(board), reference, number),
        first_designated(board, k, reference),
        board[k] == Sexp::List(fp),
        forall|j: int| 0 <= j < fp.len() ==> !(headed(#[trigger] fp[j], "at"@)),
        first_numbered(fp, g, number),
        fp[g] == Sexp::List(pad),
        first_headed(pad, h, "at"@),
        pad[h] == Sexp::List(offset),
    ensures
        r is Ok,
        r->Ok_0.fp_x@ == "0"@,
        r->Ok_0.fp_y@ == "0"@,
        r->Ok_0.fp_rotation@ == "0"@,
        says(offset, 1, r->Ok_0.x@),
        says(offset, 2, r->Ok_0.y@),
{
    lemma_first_designated(board, k, reference);
    lemma_first_numbered(fp, g, number);
    lemma_none_tagged(fp, "at"@, 0);
    lemma_first_tagged(pad, h, "at"@, 0);
    lemma_says(Sexp::List(pad), "at"@, offset, 1);
    lemma_says(Sexp::List(pad), "at"@, offset, 2);
}

/// A pad is looked up in vain exactly where no footprint has the designator, where
/// the first that has it holds no pad with the number, or where that pad has no
/// `(at …)`; and the answer says which.
pub proof fn law_missing_pad_is_named(
    board: Seq<Sexp>,
    k: int,
    fp: Seq<Sexp>,
    g: int,
    pad: Seq<Sexp>,
    reference: Seq<char>,
    number: Seq<char>,
    r: Result<PadPlace, String>,
)
    requires
        is_pad_place(r, Sexp::List(board), reference, number),
    ensures
        (forall|j: int| 0 <= j < board.len() ==> !(designated(#[trigger] board[j], reference)))
            ==> r is Err && r->Err_0@ == "Footprint '"@ + reference + "' not found on board"@,
        first_designated(board, k, reference) && board[k] == Sexp::List(fp) && (forall|j: int|
            0 <= j < fp.len() ==> !(numbered(#[trigger] fp[j], number))) ==> r is Err && r->Err_0@
            == "Pad '"@ + number + "' not found on '"@ + reference + "'"@,
        first_designated(board, k, reference) && board[k] == Sexp::List(fp) && first_numbered(
            fp,
            g,
            number,
        ) && fp[g] == Sexp::List(pad) && (forall|j: int|
            0 <= j < pad.len() ==> !(headed(#[trigger] pad[j], "at"@))) ==> r is Err && r->Err_0@
            == "Pad has no (at) node"@,
{
    if forall|j: int| 0 <= j < board.len() ==> !(designated(#[trigger] board[j], reference)) {
        lemma_none_designated(board, reference);
    }
    if first_designated(board, k, reference) && board[k] == Sexp::List(fp) {
        lemma_first_designated(board, k, reference);
        if forall|j: int| 0 <= j < fp.len() ==> !(numbered(#[trigger] fp[j], number)) {
            lemma_none_numbered(fp, number);
        }
        if first_numbered(fp, g, number) && fp[g] == Sexp::List(pad) {
            lemma_first_numbered(fp, g, number);
            if forall|j: int| 0 <= j < pad.len() ==> !(headed(#[trigger] pad[j], "at"@)) {
                lemma_none_tagged(pad, "at"@, 0);
            }
        }
    }
}

// ─── The net of a pad ────────────────────────────────────────────────────────

/// The net of a pad is the name that its first `(net …)` writes: alone, or behind
/// the net's number. A pad without one, or with an empty name, is on no net.
pub proof fn law_pad_net_is_as_written(
    board: Seq<Sexp>,
    k: int,
    fp: Seq<Sexp>,
    g: int,
    pad: Seq<Sexp>,
    h: int,
    name: Seq<char>,
    number_of_net: Seq<char>,
    reference: Seq<char>,
    number: Seq<char>,
)
    requires
        first_designated(board, k, reference),
        board[k] == Sexp::List(fp),
        first_numbered(fp, g, number),
        fp[g] == Sexp::List(pad),
    ensures
        (forall|j: int| 0 <= j < pad.len() ==> !(headed(#[trigger] pad[j], "net"@))) ==> pad_net(
            Sexp::List(board),
            reference,
            number,
        ) == Ok::<Option<Seq<char>>, Seq<char>>(None),
        first_headed(pad, h, "net"@) && holds(pad[h], 1, name) && int_value(bytes(name)).is_none()
            && name.len() > 0 ==> pad_net(Sexp::List(board), reference, number) == Ok::<
            Option<Seq<char>>,
            Seq<char>,
        >(Some(name)),
        first_headed(pad, h, "net"@) && holds(pad[h], 1, number_of_net) && int_value(
            bytes(number_of_net),
        ).is_some() && holds(pad[h], 2, name) ==> pad_net(Sexp::List(board), reference, number)
            == Ok::<Option<Seq<char>>, Seq<char>>(
            if name.len() > 0 {
                Some(name)
            } else {
                None
            },
        ),
{
    lemma_first_designated(board, k, reference);
    lemma_first_numbered(fp, g, number);
    if forall|j: int| 0 <= j < pad.len() ==> !(headed(#[trigger] pad[j], "net"@)) {
        lemma_none_tagged(pad, "net"@, 0);
    }
    if first_headed(pad, h, "net"@) {
        lemma_first_tagged(pad, h, "net"@, 0);
        lemma_holds(pad[h], 1, name);
        lemma_holds(pad[h], 1, number_of_net);
        lemma_holds(pad[h], 2, name);
    }
}

} // verus!
