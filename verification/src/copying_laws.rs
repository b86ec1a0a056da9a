//! What a copy of a text with parts of it exchanged keeps, and what it exchanges: the
//! text falls into pieces that stay, with something between each two of them.

#[allow(unused_imports)]
use crate::chars::joined;
#[allow(unused_imports)]
use crate::number::is_number;
#[allow(unused_imports)]
use crate::routing::agreed_net;
#[allow(unused_imports)]
use crate::scan::{CLOSE, QUOTE};
#[allow(unused_imports)]
use crate::sch_batch::white_words;
#[allow(unused_imports)]
use crate::text::{bytes, first_byte, first_match, lemma_bytes_ascii, lemma_first_byte, lemma_first_match, matches_at, replaced_all, text_of};
#[allow(unused_imports)]
use crate::verification::{reassigned, shifted_from, shifted_words, uuid_count};
use vstd::prelude::*;

verus! {

/// The pieces with one separator between each two of them.
pub open spec fn strung(pieces: Seq<Seq<u8>>, between: Seq<Seq<u8>>) -> Seq<u8>
    decreases pieces.len(),
{
    if pieces.len() == 0 {
        Seq::empty()
    } else if pieces.len() == 1 {
        pieces[0]
    } else {
        pieces[0] + between[0] + strung(pieces.drop_first(), between.drop_first())
    }
}

proof fn lemma_strung(first: Seq<u8>, sep: Seq<u8>, pieces: Seq<Seq<u8>>, between: Seq<Seq<u8>>)
    requires
        pieces.len() > 0,
    ensures
        strung(seq![first] + pieces, seq![sep] + between) == first + sep + strung(pieces, between),
{
    assert((seq![first] + pieces).drop_first() =~= pieces);
    assert((seq![sep] + between).drop_first() =~= between);
}

/// The same separator so many times.
pub open spec fn same_between(sep: Seq<u8>, n: int) -> Seq<Seq<u8>> {
    Seq::new(n as nat, |j: int| sep)
}

/// The text stands nowhere in the piece.
pub open spec fn lacks(piece: Seq<u8>, pat: Seq<u8>) -> bool {
    forall|j: int| !(#[trigger] matches_at(piece, j, pat))
}

proof fn lemma_lacks(s: Seq<u8>, pat: Seq<u8>, a: int, b: int)
    requires
        0 <= a <= b <= s.len(),
        forall|j: int| a <= j && j + pat.len() <= b ==> !(#[trigger] matches_at(s, j, pat)),
    ensures
        lacks(s.subrange(a, b), pat),
{
    let piece = s.subrange(a, b);
    assert forall|j: int| !(#[trigger] matches_at(piece, j, pat)) by {
        if matches_at(piece, j, pat) {
            assert(s.subrange(a + j, a + j + pat.len()) =~= piece.subrange(j, j + pat.len()));
            assert(matches_at(s, a + j, pat));
        }
    }
}

/// Every occurrence of the pattern is exchanged and nothing else: the rest of the text is
/// pieces that lack the pattern, strung with the pattern before and with what replaces
/// it after.
pub proof fn law_every_occurrence_is_replaced(s: Seq<u8>, pat: Seq<u8>, with: Seq<u8>, i: int) -> (pieces:
    Seq<Seq<u8>>)
    requires
        0 <= i <= s.len(),
        pat.len() > 0,
    ensures
        pieces.len() > 0,
        s.skip(i) == strung(pieces, same_between(pat, pieces.len() - 1)),
        replaced_all(s, pat, with, i) == strung(pieces, same_between(with, pieces.len() - 1)),
        forall|j: int| 0 <= j < pieces.len() ==> lacks(#[trigger] pieces[j], pat),
    decreases s.len() - i,
{
    let n = s.len() as int;
    lemma_first_match(s, pat, i);
    match first_match(s, pat, i) {
        None => {
            lemma_lacks(s, pat, i, n);
            assert(s.skip(i) =~= s.subrange(i, n));
            seq![s.subrange(i, n)]
        },
        Some(p) => {
            let first = s.subrange(i, p);
            let rest = law_every_occurrence_is_replaced(s, pat, with, p + pat.len());
            lemma_lacks(s, pat, i, p);
            let m = rest.len() as int;
            lemma_strung(first, pat, rest, same_between(pat, m - 1));
            lemma_strung(first, with, rest, same_between(with, m - 1));
            assert(seq![pat] + same_between(pat, m - 1) =~= same_between(pat, m));
            assert(seq![with] + same_between(with, m - 1) =~= same_between(with, m));
            assert(s.skip(i) =~= first + pat + s.skip(p + pat.len())) by {
                assert(s.subrange(p, p + pat.len()) == pat);
                assert forall|x: int| 0 <= x < s.skip(i).len() implies s.skip(i)[x] == (first + pat
                    + s.skip(p + pat.len()))[x] by {
                    if p - i <= x < p - i + pat.len() {
                        assert(s.subrange(p, p + pat.len())[x - (p - i)] == s[i + x]);
                    }
                }
            }
            let pieces = seq![first] + rest;
            assert forall|j: int| 0 <= j < pieces.len() implies lacks(#[trigger] pieces[j], pat) by {
                if j > 0 {
                    assert(pieces[j] == rest[j - 1]);
                }
            }
            pieces
        },
    }
}

/// A piece that ends where an identifier begins, the first that begins in it.
pub open spec fn opens_identifier(piece: Seq<u8>) -> bool {
    let head = bytes("(uuid \""@);
    &&& matches_at(piece, piece.len() - head.len(), head)
    &&& forall|j: int| 0 <= j < piece.len() - head.len() ==> !(#[trigger] matches_at(piece, j, head))
}

/// An identifier with the quote that ends it.
pub open spec fn is_closed_text(t: Seq<u8>) -> bool {
    &&& t.len() > 0
    &&& t.last() == QUOTE
    &&& forall|j: int| 0 <= j < t.len() - 1 ==> #[trigger] t[j] != QUOTE
}

/// The new identifiers from `k` on, each with the quote that ends it.
pub open spec fn closed_ids(ids: Seq<Seq<char>>, k: int, n: int) -> Seq<Seq<u8>> {
    Seq::new(n as nat, |j: int| bytes(ids[k + j]) + bytes("\""@))
}

proof fn lemma_head()
    ensures
        bytes("(uuid \""@).len() == 7,
{
    reveal_strlit("(uuid \"");
    lemma_bytes_ascii("(uuid \""@);
}

/// Each identifier is exchanged for the next of the new ones, and nothing else is: the
/// rest of the text is pieces that each end where an identifier begins, and the last one,
/// in which none begins and ends.
pub proof fn law_every_identifier_is_new(s: Seq<u8>, i: int, ids: Seq<Seq<char>>, k: int) -> (r: (
    Seq<Seq<u8>>,
    Seq<Seq<u8>>,
))
    requires
        0 <= i <= s.len(),
    ensures
        ({
            let (pieces, was) = r;
            &&& pieces.len() == was.len() + 1
            &&& was.len() == uuid_count(s, i)
            &&& s.skip(i) == strung(pieces, was)
            &&& reassigned(s, i, ids, k) == strung(pieces, closed_ids(ids, k, was.len() as int))
            &&& forall|j: int| 0 <= j < was.len() ==> is_closed_text(#[trigger] was[j])
            &&& forall|j: int| 0 <= j < was.len() ==> opens_identifier(#[trigger] pieces[j])
            &&& forall|p: int, q: int|
                #[trigger] matches_at(pieces.last(), p, bytes("(uuid \""@)) && p + 7 <= q
                    < pieces.last().len() ==> #[trigger] pieces.last()[q] != QUOTE
        }),
    decreases s.len() - i,
{
    let n = s.len() as int;
    let head = bytes("(uuid \""@);
    lemma_head();
    lemma_first_match(s, head, i);
    let tail = s.subrange(i, n);
    assert(s.skip(i) =~= tail);
    match first_match(s, head, i) {
        None => {
            lemma_lacks(s, head, i, n);
            assert(seq![tail].last() == tail);
            (seq![tail], Seq::empty())
        },
        Some(p) => {
            lemma_first_byte(s, QUOTE, p + 7);
            match first_byte(s, QUOTE, p + 7) {
                None => {
                    assert forall|a: int, q: int|
                        #[trigger] matches_at(tail, a, head) && a + 7 <= q < tail.len() implies #[trigger] tail[q]
                        != QUOTE by {
                        assert(s.subrange(i + a, i + a + 7) =~= tail.subrange(a, a + 7));
                        assert(matches_at(s, i + a, head));
                        assert(tail[q] == s[i + q]);
                    }
                    assert(seq![tail].last() == tail);
                    (seq![tail], Seq::empty())
                },
                Some(e) => {
                    let first = s.subrange(i, p + 7);
                    let former = s.subrange(p + 7, e + 1);
                    let (rest, was) = law_every_identifier_is_new(s, e + 1, ids, k + 1);
                    let m = was.len() as int;
                    let later = bytes(ids[k]) + bytes("\""@);
                    lemma_strung(first, former, rest, was);
                    lemma_strung(first, later, rest, closed_ids(ids, k + 1, m));
                    assert(seq![later] + closed_ids(ids, k + 1, m) =~= closed_ids(ids, k, m + 1));
                    assert(tail =~= first + former + s.skip(e + 1));
                    assert(first + later + strung(rest, closed_ids(ids, k + 1, m)) =~= first + bytes(ids[k])
                        + bytes("\""@) + strung(rest, closed_ids(ids, k + 1, m)));
                    assert(is_closed_text(former)) by {
                        assert(former.last() == s[e]);
                        assert forall|j: int| 0 <= j < former.len() - 1 implies #[trigger] former[j] != QUOTE by {
                            assert(former[j] == s[p + 7 + j]);
                        }
                    }
                    assert(opens_identifier(first)) by {
                        assert(first.subrange(p - i, p - i + 7) =~= s.subrange(p, p + 7));
                        assert forall|j: int| 0 <= j < first.len() - 7 implies !(#[trigger] matches_at(
                            first,
                            j,
                            head,
                        )) by {
                            if matches_at(first, j, head) {
                                assert(first.subrange(j, j + 7) =~= s.subrange(i + j, i + j + 7));
                                assert(matches_at(s, i + j, head));
                            }
                        }
                    }
                    let pieces = seq![first] + rest;
                    let all = seq![former] + was;
                    assert(pieces.last() == rest.last());
                    assert forall|j: int| 0 <= j < all.len() implies is_closed_text(#[trigger] all[j]) by {
                        if j > 0 {
                            assert(all[j] == was[j - 1]);
                        }
                    }
                    assert forall|j: int| 0 <= j < all.len() implies opens_identifier(
                        #[trigger] pieces[j],
                    ) by {
                        if j > 0 {
                            assert(pieces[j] == rest[j - 1]);
                        }
                    }
                    (pieces, all)
                },
            }
        },
    }
}

// ─── Coordinates ─────────────────────────────────────────────────────────────

/// The words between the key and the parenthesis that closes it.
pub open spec fn words_before_close(t: Seq<u8>) -> Seq<Seq<char>> {
    white_words(text_of(t.take(t.len() - 1)))
}

/// What stands behind the key is two numbers, or begins with two.
pub open spec fn gives_pair(t: Seq<u8>) -> bool {
    let w = words_before_close(t);
    w.len() >= 2 && is_number(bytes(w[0])) && is_number(bytes(w[1]))
}

/// How many of the first `n` give a pair.
pub open spec fn pairs_among(v: Seq<Seq<u8>>, n: int) -> int
    decreases n,
{
    if n <= 0 {
        0
    } else {
        pairs_among(v, n - 1) + if gives_pair(v[n - 1]) {
            1int
        } else {
            0
        }
    }
}

proof fn lemma_pairs_among(first: Seq<u8>, v: Seq<Seq<u8>>, n: int)
    requires
        0 <= n <= v.len(),
    ensures
        pairs_among(seq![first] + v, n + 1) == pairs_among(v, n) + if gives_pair(first) {
            1int
        } else {
            0
        },
    decreases n,
{
    let all = seq![first] + v;
    if n > 0 {
        lemma_pairs_among(first, v, n - 1);
        assert(all[n] == v[n - 1]);
    } else {
        reveal_with_fuel(pairs_among, 2);
        assert(all[0] == first);
    }
}

/// What comes of the text behind the `j`-th key: the next new pair in place of the first
/// two words, or the same text where there is no pair or no new pair is left.
pub open spec fn exchanged(
    was: Seq<Seq<u8>>,
    to: Seq<(Seq<char>, Seq<char>)>,
    k: int,
    j: int,
) -> Seq<u8> {
    let at = k + pairs_among(was, j);
    if gives_pair(was[j]) && 0 <= at < to.len() {
        let w = words_before_close(was[j]);
        let pair = to[at].0 + " "@ + to[at].1;
        bytes(
            if w.len() > 2 {
                pair + " "@ + joined(w.skip(2), " "@)
            } else {
                pair
            },
        ) + bytes(")"@)
    } else {
        was[j]
    }
}

/// All that comes of the texts behind the keys.
pub open spec fn all_exchanged(was: Seq<Seq<u8>>, to: Seq<(Seq<char>, Seq<char>)>, k: int) -> Seq<Seq<u8>> {
    Seq::new(was.len(), |j: int| exchanged(was, to, k, j))
}

/// Behind each key the next of the new pairs takes the place of the pair that is there,
/// and nothing else changes: the text is pieces that each end with the key, and the last
/// one, in which no key is closed.
pub proof fn law_every_pair_is_shifted(
    s: Seq<u8>,
    key: Seq<u8>,
    i: int,
    to: Seq<(Seq<char>, Seq<char>)>,
    k: int,
) -> (r: (Seq<Seq<u8>>, Seq<Seq<u8>>))
    requires
        0 <= i <= s.len(),
        key.len() > 0,
        0 <= k <= to.len(),
    ensures
        ({
            let (pieces, was) = r;
            &&& pieces.len() == was.len() + 1
            &&& s.skip(i) == strung(pieces, was)
            &&& shifted_from(s, key, i, to, k) == strung(pieces, all_exchanged(was, to, k))
            &&& forall|j: int| 0 <= j < was.len() ==> ends_with_key(#[trigger] pieces[j], key)
            &&& forall|p: int, q: int|
                #[trigger] matches_at(pieces.last(), p, key) && p + key.len() <= q < pieces.last().len()
                    ==> #[trigger] pieces.last()[q] != CLOSE
        }),
    decreases s.len() - i,
{
    let n = s.len() as int;
    lemma_first_match(s, key, i);
    let tail = s.subrange(i, n);
    assert(s.skip(i) =~= tail);
    assert(seq![tail].last() == tail);
    match first_match(s, key, i) {
        None => {
            lemma_lacks(s, key, i, n);
            (seq![tail], Seq::empty())
        },
        Some(p) => {
            let a = p + key.len();
            lemma_first_byte(s, CLOSE, a);
            match first_byte(s, CLOSE, a) {
                None => {
                    assert forall|x: int, q: int|
                        #[trigger] matches_at(tail, x, key) && x + key.len() <= q < tail.len() implies #[trigger] tail[q]
                        != CLOSE by {
                        assert(s.subrange(i + x, i + x + key.len()) =~= tail.subrange(x, x + key.len()));
                        assert(matches_at(s, i + x, key));
                        assert(tail[q] == s[i + q]);
                    }
                    (seq![tail], Seq::empty())
                },
                Some(e) => {
                    let first = s.subrange(i, a);
                    let former = s.subrange(a, e + 1);
                    assert(former.take(former.len() - 1) =~= s.subrange(a, e));
                    let moved = gives_pair(former) && k < to.len();
                    let next = if moved {
                        k + 1
                    } else {
                        k
                    };
                    let (rest, was) = law_every_pair_is_shifted(s, key, e + 1, to, next);
                    let all = seq![former] + was;
                    let pieces = seq![first] + rest;
                    let m = all_exchanged(was, to, next);
                    let later = exchanged(all, to, k, 0);
                    assert(pairs_among(all, 0) == 0);
                    assert(all[0] == former);
                    assert(seq![later] + m =~= all_exchanged(all, to, k)) by {
                        assert forall|j: int| 0 <= j < was.len() implies #[trigger] m[j] == exchanged(
                            all,
                            to,
                            k,
                            j + 1,
                        ) by {
                            lemma_pairs_among(former, was, j);
                            lemma_pairs_positive(was, j);
                            assert(all[j + 1] == was[j]);
                        }
                    }
                    lemma_strung(first, former, rest, was);
                    lemma_strung(first, later, rest, m);
                    assert(tail =~= first + former + s.skip(e + 1));
                    assert(first + former =~= s.subrange(i, e + 1));
                    if moved {
                        let w = words_before_close(former);
                        assert(later == bytes(shifted_words(to[k], w)) + bytes(")"@));
                        assert(first + later + strung(rest, m) =~= first + bytes(shifted_words(to[k], w))
                            + bytes(")"@) + strung(rest, m));
                    }
                    assert(ends_with_key(first, key)) by {
                        assert(first.subrange(p - i, p - i + key.len()) =~= s.subrange(p, a));
                        assert forall|j: int| 0 <= j < first.len() - key.len() implies !(
                        #[trigger] matches_at(first, j, key)) by {
                            if matches_at(first, j, key) {
                                assert(first.subrange(j, j + key.len()) =~= s.subrange(
                                    i + j,
                                    i + j + key.len(),
                                ));
                                assert(matches_at(s, i + j, key));
                            }
                        }
                    }
                    assert(pieces.last() == rest.last());
                    assert forall|j: int| 0 <= j < all.len() implies ends_with_key(
                        #[trigger] pieces[j],
                        key,
                    ) by {
                        if j > 0 {
                            assert(pieces[j] == rest[j - 1]);
                        }
                    }
                    (pieces, all)
                },
            }
        },
    }
}

proof fn lemma_pairs_positive(v: Seq<Seq<u8>>, n: int)
    ensures
        pairs_among(v, n) >= 0,
    decreases n,
{
    if n > 0 {
        lemma_pairs_positive(v, n - 1);
    }
}

/// A piece that ends with the key, the first in it.
pub open spec fn ends_with_key(piece: Seq<u8>, key: Seq<u8>) -> bool {
    &&& matches_at(piece, piece.len() - key.len(), key)
    &&& forall|j: int| 0 <= j < piece.len() - key.len() ==> !(#[trigger] matches_at(piece, j, key))
}

// ─── The net of a route ──────────────────────────────────────────────────────

/// Two pads are routed on a net where both are on it already and no other net is asked
/// for; that net is the one taken.
pub proof fn law_route_is_on_the_net_of_both_pads(
    net1: Option<Seq<char>>,
    net2: Option<Seq<char>>,
    name: Seq<char>,
    ref1: Seq<char>,
    pad1: Seq<char>,
    ref2: Seq<char>,
    pad2: Seq<char>,
    net: Seq<char>,
)
    ensures
        agreed_net(net1, net2, name, ref1, pad1, ref2, pad2) == Ok::<Seq<char>, Seq<char>>(net) <==> {
            &&& net1 == Some(net)
            &&& net2 == Some(net)
            &&& name.len() == 0 || name == net
        },
{
}

} // verus!
