//! Names that resemble each other, for did-you-mean hints.

use crate::chars::{before, lemma_bytes_lt_total, lemma_bytes_lt_trans, name_lt, texts};
#[allow(unused_imports)]
use crate::text::{bytes, contains, copy, has, lemma_bytes_injective, length, match_at, matches_at, put};
#[allow(unused_imports)]
use vstd::multiset::Multiset;
use vstd::prelude::*;
use vstd::string::*;

verus! {

// ─── Edit distance ───────────────────────────────────────────────────────────

/// The least of two numbers.
pub open spec fn least(a: nat, b: nat) -> nat {
    if a <= b {
        a
    } else {
        b
    }
}

/// The Levenshtein distance: how many characters have to be put in, taken out or
/// exchanged to make `b` out of `a`.
pub open spec fn distance(a: Seq<char>, b: Seq<char>) -> nat
    decreases a.len() + b.len(),
{
    if a.len() == 0 {
        b.len()
    } else if b.len() == 0 {
        a.len()
    } else {
        let cost: nat = if a.last() == b.last() {
            0
        } else {
            1
        };
        least(
            distance(a.drop_last(), b.drop_last()) + cost,
            least(distance(a, b.drop_last()) + 1, distance(a.drop_last(), b) + 1),
        )
    }
}

/// No two texts are further apart than the longer one is long.
pub proof fn law_distance_bound(a: Seq<char>, b: Seq<char>)
    ensures
        distance(a, b) <= a.len() || distance(a, b) <= b.len(),
    decreases a.len() + b.len(),
{
    if a.len() > 0 && b.len() > 0 {
        law_distance_bound(a.drop_last(), b.drop_last());
    }
}

/// The distance is the same both ways.
pub proof fn law_distance_symmetric(a: Seq<char>, b: Seq<char>)
    ensures
        distance(a, b) == distance(b, a),
    decreases a.len() + b.len(),
{
    if a.len() > 0 && b.len() > 0 {
        law_distance_symmetric(a.drop_last(), b.drop_last());
        law_distance_symmetric(a, b.drop_last());
        law_distance_symmetric(a.drop_last(), b);
    }
}

/// Texts are at distance 0 exactly when they are equal.
pub proof fn law_distance_zero(a: Seq<char>, b: Seq<char>)
    ensures
        distance(a, b) == 0 <==> a == b,
    decreases a.len() + b.len(),
{
    if a.len() == 0 || b.len() == 0 {
        if distance(a, b) == 0 {
            assert(a =~= b);
        }
    } else {
        law_distance_zero(a.drop_last(), b.drop_last());
        assert(a =~= a.drop_last().push(a.last()));
        assert(b =~= b.drop_last().push(b.last()));
    }
}

/// The characters of a text.
pub fn characters(t: &str) -> (r: Vec<char>)
    ensures
        r@ == t@,
{
    let mut out: Vec<char> = Vec::new();
    let mut rest = t;
    while !rest.is_empty()
        invariant
            t@ == out@ + rest@,
        decreases rest@.len(),
    {
        let c = rest.get_char(0);
        let tail = rest.substring_char(1, rest.unicode_len());
        let ghost was = out@;
        out.push(c);
        proof {
            assert(rest@ =~= seq![c] + tail@);
            assert(was + rest@ =~= out@ + tail@);
        }
        rest = tail;
    }
    proof {
        assert(t@ =~= out@);
    }
    out
}

/// Plain Levenshtein distance, with a single-row table.
pub fn edit_distance(a: &str, b: &str) -> (r: usize)
    ensures
        r == distance(a@, b@),
{
    let a = characters(a);
    let b = characters(b);
    let n = a.len();
    let m = b.len();
    let mut row: Vec<usize> = Vec::new();
    let mut k: usize = 0;
    row.push(0);
    while k < m
        invariant
            k <= m,
            m == b.len(),
            row.len() == k + 1,
            forall|j: int| 0 <= j <= k ==> #[trigger] row[j] == distance(a@.take(0), b@.take(j)),
        decreases m - k,
    {
        k += 1;
        row.push(k);
    }
    let mut i: usize = 0;
    while i < n
        invariant
            n == a.len(),
            m == b.len(),
            i <= n,
            row.len() == m + 1,
            forall|j: int| 0 <= j <= m ==> #[trigger] row[j] == distance(a@.take(i as int), b@.take(j)),
        decreases n - i,
    {
        let mut diag: usize = row[0];
        row.set(0, i + 1);
        let mut j: usize = 0;
        while j < m
            invariant
                n == a.len(),
                m == b.len(),
                i < n,
                j <= m,
                row.len() == m + 1,
                diag == distance(a@.take(i as int), b@.take(j as int)),
                forall|k: int|
                    0 <= k <= j ==> #[trigger] row[k] == distance(a@.take(i + 1), b@.take(k)),
                forall|k: int|
                    j < k <= m ==> #[trigger] row[k] == distance(a@.take(i as int), b@.take(k)),
            decreases m - j,
        {
            let left = row[j];
            let up = row[j + 1];
            proof {
                let x = a@.take(i + 1);
                let y = b@.take(j + 1);
                assert(x.drop_last() =~= a@.take(i as int));
                assert(y.drop_last() =~= b@.take(j as int));
                assert(x.last() == a[i as int]);
                assert(y.last() == b[j as int]);
                law_distance_bound(a@.take(i as int), b@.take(j as int));
            }
            let near = if left <= up {
                left
            } else {
                up
            };
            let val: usize = if a[i] == b[j] {
                if diag <= near {
                    diag
                } else {
                    near + 1
                }
            } else if diag <= near {
                diag + 1
            } else {
                near + 1
            };
            row.set(j + 1, val);
            diag = up;
            j += 1;
        }
        i += 1;
    }
    proof {
        assert(a@.take(n as int) =~= a@);
        assert(b@.take(m as int) =~= b@);
    }
    row[m]
}

// ─── Shorthands ──────────────────────────────────────────────────────────────

/// What parts the words of a name.
pub open spec fn parts_words(c: char) -> bool {
    c == '_' || c == '-' || c == '.'
}

/// The words of a name up to the last separator, and what follows it.
pub open spec fn words_and_rest(t: Seq<char>) -> (Seq<Seq<char>>, Seq<char>)
    decreases t.len(),
{
    if t.len() == 0 {
        (Seq::empty(), Seq::empty())
    } else {
        let (done, rest) = words_and_rest(t.drop_last());
        if !parts_words(t.last()) {
            (done, rest.push(t.last()))
        } else if rest.len() > 0 {
            (done.push(rest), Seq::empty())
        } else {
            (done, rest)
        }
    }
}

/// The words of a name: what stands between separators, where anything does.
pub open spec fn words_of(t: Seq<char>) -> Seq<Seq<char>> {
    let (done, rest) = words_and_rest(t);
    if rest.len() > 0 {
        done.push(rest)
    } else {
        done
    }
}

/// The first characters of words.
pub open spec fn initials(words: Seq<Seq<char>>) -> Seq<char> {
    Seq::new(words.len(), |i: int| words[i][0])
}

/// One text begins with another.
pub open spec fn begins(t: Seq<char>, front: Seq<char>) -> bool {
    matches_at(bytes(t), 0, bytes(front))
}

/// A shorthand relationship between a wanted name and a candidate: the wanted name
/// is the candidate's initials, or both have the same number of words and each
/// wanted word begins the candidate's.
pub open spec fn stylized(wanted: Seq<char>, cand: Seq<char>) -> bool {
    let w = words_of(wanted);
    let c = words_of(cand);
    ||| w.len() == 1 && c.len() >= 2 && initials(c) == w[0]
    ||| w.len() > 0 && w.len() == c.len() && forall|i: int|
        0 <= i < w.len() ==> begins(#[trigger] c[i], w[i])
}

proof fn lemma_words_nonempty(t: Seq<char>)
    ensures
        forall|i: int|
            0 <= i < words_and_rest(t).0.len() ==> (#[trigger] words_and_rest(t).0[i]).len() > 0,
    decreases t.len(),
{
    if t.len() > 0 {
        lemma_words_nonempty(t.drop_last());
        let done = words_and_rest(t.drop_last()).0;
        let all = words_and_rest(t).0;
        assert forall|i: int| 0 <= i < all.len() implies (#[trigger] all[i]).len() > 0 by {
            if i < done.len() {
                assert(all[i] == done[i]);
            }
        }
    }
}

/// The words of a name.
pub fn words(t: &str) -> (r: Vec<String>)
    ensures
        texts(r@) == words_of(t@),
        forall|i: int| 0 <= i < r.len() ==> (#[trigger] r[i]@).len() > 0,
{
    let mut out: Vec<String> = Vec::new();
    let mut word = String::new();
    let mut rest = t;
    let ghost mut done: Seq<char> = Seq::empty();
    assert(texts(out@) =~= words_and_rest(done).0);
    while !rest.is_empty()
        invariant
            t@ == done + rest@,
            texts(out@) == words_and_rest(done).0,
            word@ == words_and_rest(done).1,
        decreases rest@.len(),
    {
        let c = rest.get_char(0);
        let tail = rest.substring_char(1, rest.unicode_len());
        let head = rest.substring_char(0, 1);
        proof {
            assert(head@ =~= seq![c]);
            assert(rest@ =~= seq![c] + tail@);
            assert(done + rest@ =~= done.push(c) + tail@);
            assert(done.push(c).drop_last() =~= done);
        }
        if c == '_' || c == '-' || c == '.' {
            if !word.as_str().is_empty() {
                let ghost was = texts(out@);
                let ghost w = word@;
                out.push(word);
                assert(texts(out@) =~= was.push(w));
                word = String::new();
            }
        } else {
            let ghost was = word@;
            put(&mut word, head);
            assert(word@ =~= was.push(c));
        }
        proof {
            done = done.push(c);
        }
        rest = tail;
    }
    proof {
        assert(t@ =~= done);
        lemma_words_nonempty(t@);
    }
    if !word.as_str().is_empty() {
        let ghost was = texts(out@);
        let ghost w = word@;
        out.push(word);
        assert(texts(out@) =~= was.push(w));
    }
    proof {
        assert forall|i: int| 0 <= i < out.len() implies (#[trigger] out[i]@).len() > 0 by {
            assert(texts(out@)[i] == out[i]@);
        }
    }
    out
}

fn are_initials(short: &str, words: &Vec<String>) -> (r: bool)
    requires
        forall|i: int| 0 <= i < words.len() ==> (#[trigger] words[i]@).len() > 0,
    ensures
        r == (initials(texts(words@)) == short@),
{
    let ghost all = texts(words@);
    if short.unicode_len() != words.len() {
        assert(initials(all).len() == words.len());
        return false;
    }
    let mut i: usize = 0;
    while i < words.len()
        invariant
            i <= words.len(),
            short@.len() == words.len(),
            all == texts(words@),
            forall|k: int| 0 <= k < words.len() ==> (#[trigger] words[k]@).len() > 0,
            forall|k: int| 0 <= k < i ==> initials(all)[k] == #[trigger] short@[k],
        decreases words.len() - i,
    {
        assert(all[i as int] == words[i as int]@);
        if words[i].as_str().get_char(0) != short.get_char(i) {
            assert(initials(all)[i as int] != short@[i as int]);
            return false;
        }
        i += 1;
    }
    assert(initials(all) =~= short@);
    true
}

fn each_begins(short: &Vec<String>, long: &Vec<String>) -> (r: bool)
    requires
        short.len() == long.len(),
    ensures
        r == (forall|i: int|
            0 <= i < short.len() ==> begins(#[trigger] texts(long@)[i], texts(short@)[i])),
{
    let mut i: usize = 0;
    while i < short.len()
        invariant
            i <= short.len(),
            short.len() == long.len(),
            forall|k: int| 0 <= k < i ==> begins(#[trigger] texts(long@)[k], texts(short@)[k]),
        decreases short.len() - i,
    {
        if !match_at(long[i].as_str(), 0, short[i].as_str()) {
            assert(!begins(texts(long@)[i as int], texts(short@)[i as int]));
            return false;
        }
        i += 1;
    }
    true
}

/// Whether `wanted` is a shorthand of `cand`, both in lower case: its initials
/// ("cp" of "c_polarized"), or its words cut short ("r_pot_trim" of
/// "r_potentiometer_trim").
pub fn stylized_match(wanted: &str, cand: &str) -> (r: bool)
    ensures
        r == stylized(wanted@, cand@),
{
    let w = words(wanted);
    let c = words(cand);
    if w.len() == 1 && c.len() >= 2 {
        assert(texts(w@)[0] == w[0]@);
        if are_initials(w[0].as_str(), &c) {
            return true;
        }
    }
    w.len() > 0 && w.len() == c.len() && each_begins(&w, &c)
}

// ─── Ranking ─────────────────────────────────────────────────────────────────

/// The greater of two numbers.
pub open spec fn greatest(a: int, b: int) -> int {
    if a >= b {
        a
    } else {
        b
    }
}

/// How far a candidate may be from the wanted name: two thirds of the longer of
/// the two, rounded up.
pub open spec fn reach(wanted: Seq<char>, lower: Seq<char>) -> int {
    (2 * greatest(bytes(wanted).len() as int, bytes(lower).len() as int) + 2) / 3
}

/// How far a candidate is from the wanted name: a shorthand or a truncation is at
/// distance 1.
pub open spec fn score(wanted: Seq<char>, lower: Seq<char>) -> int {
    if stylized(wanted, lower) || has(bytes(lower), bytes(wanted)) || has(bytes(wanted), bytes(lower)) {
        1
    } else {
        distance(wanted, lower) as int
    }
}

/// A candidate with its score.
pub struct Scored {
    pub score: int,
    pub name: Seq<char>,
}

/// One candidate ranks before another: by score, then by name.
pub open spec fn ranks_before(a: Scored, b: Scored) -> bool {
    a.score < b.score || (a.score == b.score && name_lt(a.name, b.name))
}

/// How many candidates at the front of `ranked` rank before `x`.
pub open spec fn rank_of(ranked: Seq<Scored>, x: Scored) -> int
    decreases ranked.len(),
{
    if ranked.len() > 0 && ranks_before(ranked[0], x) {
        1 + rank_of(ranked.drop_first(), x)
    } else {
        0
    }
}

/// The first `n` candidates that are near enough, in order of rank.
pub open spec fn ranking(
    wanted: Seq<char>,
    names: Seq<Seq<char>>,
    lowers: Seq<Seq<char>>,
    n: int,
) -> Seq<Scored>
    decreases n,
{
    if n <= 0 {
        Seq::empty()
    } else {
        let before = ranking(wanted, names, lowers, n - 1);
        let x = Scored { score: score(wanted, lowers[n - 1]), name: names[n - 1] };
        if x.score <= reach(wanted, lowers[n - 1]) {
            before.insert(rank_of(before, x), x)
        } else {
            before
        }
    }
}

/// The names of at most `limit` candidates, from the front.
pub open spec fn best(ranked: Seq<Scored>, limit: int) -> Seq<Seq<char>> {
    Seq::new(
        if ranked.len() <= limit {
            ranked.len()
        } else {
            limit as nat
        },
        |i: int| ranked[i].name,
    )
}

proof fn lemma_rank_of(ranked: Seq<Scored>, x: Scored)
    ensures
        0 <= rank_of(ranked, x) <= ranked.len(),
        forall|i: int| 0 <= i < rank_of(ranked, x) ==> ranks_before(#[trigger] ranked[i], x),
        rank_of(ranked, x) < ranked.len() ==> !ranks_before(ranked[rank_of(ranked, x)], x),
    decreases ranked.len(),
{
    if ranked.len() > 0 && ranks_before(ranked[0], x) {
        let rest = ranked.drop_first();
        lemma_rank_of(rest, x);
        assert forall|i: int| 0 <= i < rank_of(ranked, x) implies ranks_before(
            #[trigger] ranked[i],
            x,
        ) by {
            if i > 0 {
                assert(rest[i - 1] == ranked[i]);
            }
        }
    }
}

proof fn lemma_rank_is(ranked: Seq<Scored>, x: Scored, k: int)
    requires
        0 <= k <= ranked.len(),
        forall|i: int| 0 <= i < k ==> ranks_before(#[trigger] ranked[i], x),
        k < ranked.len() ==> !ranks_before(ranked[k], x),
    ensures
        rank_of(ranked, x) == k,
    decreases ranked.len(),
{
    if k > 0 {
        assert(ranks_before(ranked[0], x));
        let rest = ranked.drop_first();
        assert forall|i: int| 0 <= i < k - 1 implies ranks_before(#[trigger] rest[i], x) by {
            assert(rest[i] == ranked[i + 1]);
        }
        lemma_rank_is(rest, x, k - 1);
    }
}

/// Nobody in the list ranks before one that stands ahead.
pub open spec fn in_rank_order(s: Seq<Scored>) -> bool {
    forall|i: int, j: int| 0 <= i < j < s.len() ==> !ranks_before(#[trigger] s[j], #[trigger] s[i])
}

proof fn lemma_insert_ranked(s: Seq<Scored>, x: Scored)
    requires
        in_rank_order(s),
    ensures
        in_rank_order(s.insert(rank_of(s, x), x)),
{
    let p = rank_of(s, x);
    lemma_rank_of(s, x);
    let r = s.insert(p, x);
    assert forall|i: int, j: int| 0 <= i < j < r.len() implies !ranks_before(
        #[trigger] r[j],
        #[trigger] r[i],
    ) by {
        lemma_bytes_lt_total(bytes(r[i].name), bytes(r[j].name));
        if j == p {
            assert(r[i] == s[i]);
        } else if i == p {
            assert(r[j] == s[j - 1]);
            if ranks_before(s[j - 1], x) {
                if j - 1 > p {
                    assert(!ranks_before(s[j - 1], s[p]));
                    let a = bytes(s[j - 1].name);
                    let b = bytes(s[p].name);
                    let c = bytes(x.name);
                    lemma_bytes_lt_total(a, b);
                    lemma_bytes_lt_total(b, c);
                    lemma_bytes_lt_total(a, c);
                    if crate::chars::bytes_lt(a, c) && crate::chars::bytes_lt(b, a) {
                        lemma_bytes_lt_trans(b, a, c);
                    }
                }
            }
        } else {
            let i0 = if i < p {
                i
            } else {
                i - 1
            };
            let j0 = if j < p {
                j
            } else {
                j - 1
            };
            assert(r[i] == s[i0]);
            assert(r[j] == s[j0]);
        }
    }
}

/// A ranking is in order: nobody ranks before one that stands ahead. It holds only
/// candidates that were given, each near enough to the wanted name.
#[verifier::rlimit(30)]
pub proof fn law_ranking(wanted: Seq<char>, names: Seq<Seq<char>>, lowers: Seq<Seq<char>>, n: int)
    requires
        n <= names.len(),
        names.len() == lowers.len(),
    ensures
        in_rank_order(ranking(wanted, names, lowers, n)),
        forall|i: int|
            0 <= i < ranking(wanted, names, lowers, n).len() ==> exists|k: int|
                0 <= k < n && (#[trigger] ranking(wanted, names, lowers, n)[i]).name == #[trigger] names[k]
                    && ranking(wanted, names, lowers, n)[i].score == score(wanted, lowers[k])
                    && score(wanted, lowers[k]) <= reach(wanted, lowers[k]),
        forall|k: int|
            0 <= k < n && score(wanted, lowers[k]) <= reach(wanted, lowers[k]) ==> ranking(
                wanted,
                names,
                lowers,
                n,
            ).contains(Scored { score: score(wanted, lowers[k]), name: #[trigger] names[k] }),
    decreases n,
{
    if n > 0 {
        law_ranking(wanted, names, lowers, n - 1);
        let s = ranking(wanted, names, lowers, n - 1);
        let x = Scored { score: score(wanted, lowers[n - 1]), name: names[n - 1] };
        let r = ranking(wanted, names, lowers, n);
        if x.score <= reach(wanted, lowers[n - 1]) {
            let p = rank_of(s, x);
            lemma_rank_of(s, x);
            lemma_insert_ranked(s, x);
            assert forall|i: int| 0 <= i < r.len() implies exists|k: int|
                0 <= k < n && (#[trigger] r[i]).name == #[trigger] names[k] && r[i].score == score(
                    wanted,
                    lowers[k],
                ) && score(wanted, lowers[k]) <= reach(wanted, lowers[k]) by {
                if i == p {
                    assert(r[i].name == names[n - 1]);
                } else {
                    let i0 = if i < p {
                        i
                    } else {
                        i - 1
                    };
                    assert(r[i] == s[i0]);
                    let k = choose|k: int|
                        0 <= k < n - 1 && s[i0].name == #[trigger] names[k] && s[i0].score == score(
                            wanted,
                            lowers[k],
                        ) && score(wanted, lowers[k]) <= reach(wanted, lowers[k]);
                    assert(r[i].name == names[k]);
                }
            }
            assert forall|k: int|
                0 <= k < n && score(wanted, lowers[k]) <= reach(wanted, lowers[k]) implies r.contains(
                Scored { score: score(wanted, lowers[k]), name: #[trigger] names[k] },
            ) by {
                let y = Scored { score: score(wanted, lowers[k]), name: names[k] };
                if k == n - 1 {
                    assert(r[p] == y);
                } else {
                    assert(s.contains(y));
                    let q = choose|q: int| 0 <= q < s.len() && s[q] == y;
                    if q < p {
                        assert(r[q] == y);
                    } else {
                        assert(r[q + 1] == y);
                    }
                }
            }
        }
    }
}

/// What one candidate, its name and its lower-case form, adds to a ranking.
spec fn share(wanted: Seq<char>, c: (Seq<char>, Seq<char>)) -> Multiset<Scored> {
    if score(wanted, c.1) <= reach(wanted, c.1) {
        Multiset::singleton(Scored { score: score(wanted, c.1), name: c.0 })
    } else {
        Multiset::empty()
    }
}

/// What all the candidates add.
spec fn shares(wanted: Seq<char>, c: Seq<(Seq<char>, Seq<char>)>) -> Multiset<Scored>
    decreases c.len(),
{
    if c.len() == 0 {
        Multiset::empty()
    } else {
        shares(wanted, c.drop_last()).add(share(wanted, c.last()))
    }
}

/// Candidates as pairs of a name and its lower-case form.
pub open spec fn candidate_pairs(names: Seq<Seq<char>>, lowers: Seq<Seq<char>>) -> Seq<
    (Seq<char>, Seq<char>),
> {
    Seq::new(names.len(), |i: int| (names[i], lowers[i]))
}

proof fn lemma_ranking_shares(wanted: Seq<char>, names: Seq<Seq<char>>, lowers: Seq<Seq<char>>, n: int)
    requires
        0 <= n <= names.len(),
        names.len() == lowers.len(),
    ensures
        ranking(wanted, names, lowers, n).to_multiset() == shares(
            wanted,
            candidate_pairs(names, lowers).take(n),
        ),
    decreases n,
{
    broadcast use vstd::seq_lib::group_to_multiset_ensures;

    let c = candidate_pairs(names, lowers);
    if n == 0 {
        assert(ranking(wanted, names, lowers, 0).to_multiset() =~= Multiset::<Scored>::empty());
    } else {
        lemma_ranking_shares(wanted, names, lowers, n - 1);
        assert(c.take(n).drop_last() =~= c.take(n - 1));
        assert(c.take(n).last() == (names[n - 1], lowers[n - 1]));
        let before = ranking(wanted, names, lowers, n - 1);
        let x = Scored { score: score(wanted, lowers[n - 1]), name: names[n - 1] };
        lemma_rank_of(before, x);
        if x.score <= reach(wanted, lowers[n - 1]) {
            assert(before.insert(rank_of(before, x), x).to_multiset() =~= before.to_multiset().insert(x));
            assert(before.to_multiset().insert(x) =~= before.to_multiset().add(Multiset::singleton(x)));
        } else {
            assert(before.to_multiset().add(Multiset::empty()) =~= before.to_multiset());
        }
    }
}

/// Where a candidate stands does not change what all of them add.
proof fn lemma_shares_remove(wanted: Seq<char>, c: Seq<(Seq<char>, Seq<char>)>, j: int)
    requires
        0 <= j < c.len(),
    ensures
        shares(wanted, c) == shares(wanted, c.remove(j)).add(share(wanted, c[j])),
    decreases c.len(),
{
    let last = c.len() - 1;
    if j == last {
        assert(c.remove(j) =~= c.drop_last());
    } else {
        let d = c.drop_last();
        lemma_shares_remove(wanted, d, j);
        assert(c.remove(j).drop_last() =~= d.remove(j));
        assert(c.remove(j).last() == c.last());
        let m = shares(wanted, d.remove(j));
        assert(m.add(share(wanted, c[j])).add(share(wanted, c.last())) =~= m.add(
            share(wanted, c.last()),
        ).add(share(wanted, c[j])));
    }
}

proof fn lemma_shares_alike(
    wanted: Seq<char>,
    c: Seq<(Seq<char>, Seq<char>)>,
    d: Seq<(Seq<char>, Seq<char>)>,
)
    requires
        c.to_multiset() == d.to_multiset(),
    ensures
        shares(wanted, c) == shares(wanted, d),
    decreases c.len(),
{
    broadcast use vstd::seq_lib::group_to_multiset_ensures;

    assert(c.len() == c.to_multiset().len());
    assert(d.len() == d.to_multiset().len());
    if c.len() > 0 {
        let x = c.last();
        assert(c.contains(x)) by {
            assert(c[c.len() - 1] == x);
        }
        assert(c.to_multiset().count(x) > 0);
        assert(d.contains(x));
        let j = choose|j: int| 0 <= j < d.len() && d[j] == x;
        assert(c.remove(c.len() - 1) =~= c.drop_last());
        assert(c.drop_last().to_multiset() =~= d.remove(j).to_multiset());
        lemma_shares_alike(wanted, c.drop_last(), d.remove(j));
        lemma_shares_remove(wanted, d, j);
    }
}

/// A ranking does not depend on the order in which the candidates are given.
pub proof fn law_ranking_ignores_order(
    wanted: Seq<char>,
    names: Seq<Seq<char>>,
    lowers: Seq<Seq<char>>,
    other_names: Seq<Seq<char>>,
    other_lowers: Seq<Seq<char>>,
)
    requires
        names.len() == lowers.len(),
        other_names.len() == other_lowers.len(),
        candidate_pairs(names, lowers).to_multiset() == candidate_pairs(
            other_names,
            other_lowers,
        ).to_multiset(),
    ensures
        ranking(wanted, names, lowers, names.len() as int) == ranking(
            wanted,
            other_names,
            other_lowers,
            other_names.len() as int,
        ),
{
    let c = candidate_pairs(names, lowers);
    let d = candidate_pairs(other_names, other_lowers);
    let x = ranking(wanted, names, lowers, names.len() as int);
    let y = ranking(wanted, other_names, other_lowers, other_names.len() as int);
    lemma_ranking_shares(wanted, names, lowers, names.len() as int);
    lemma_ranking_shares(wanted, other_names, other_lowers, other_names.len() as int);
    assert(c.take(names.len() as int) =~= c);
    assert(d.take(other_names.len() as int) =~= d);
    lemma_shares_alike(wanted, c, d);
    law_ranking(wanted, names, lowers, names.len() as int);
    law_ranking(wanted, other_names, other_lowers, other_names.len() as int);
    let leq = |a: Scored, b: Scored| !ranks_before(b, a);
    lemma_rank_total();
    assert(vstd::relations::sorted_by(x, leq));
    assert(vstd::relations::sorted_by(y, leq));
    vstd::seq_lib::lemma_sorted_unique(x, y, leq);
}

proof fn lemma_rank_total()
    ensures
        vstd::relations::total_ordering(|a: Scored, b: Scored| !ranks_before(b, a)),
{
    let leq = |a: Scored, b: Scored| !ranks_before(b, a);
    assert forall|a: Scored, b: Scored| #[trigger] leq(a, b) && #[trigger] leq(b, a) implies a == b by {
        lemma_bytes_lt_total(bytes(a.name), bytes(b.name));
        if bytes(a.name) == bytes(b.name) {
            lemma_bytes_injective(a.name, b.name);
        }
    }
    assert forall|a: Scored, b: Scored, c: Scored| #[trigger] leq(a, b) && #[trigger] leq(b, c) implies leq(
        a,
        c,
    ) by {
        let (x, y, z) = (bytes(a.name), bytes(b.name), bytes(c.name));
        lemma_bytes_lt_total(x, y);
        lemma_bytes_lt_total(y, z);
        lemma_bytes_lt_total(x, z);
        if crate::chars::bytes_lt(z, x) {
            if crate::chars::bytes_lt(x, y) {
                lemma_bytes_lt_trans(z, x, y);
            }
            if crate::chars::bytes_lt(y, z) {
                lemma_bytes_lt_trans(y, z, x);
            }
        }
    }
    assert forall|a: Scored, b: Scored| #[trigger] leq(a, b) || #[trigger] leq(b, a) by {
        lemma_bytes_lt_total(bytes(a.name), bytes(b.name));
    }
    assert forall|a: Scored| #[trigger] leq(a, a) by {
        lemma_bytes_lt_total(bytes(a.name), bytes(a.name));
    }
}

/// The values of a list of scored names.
pub open spec fn scored(v: Seq<(usize, String)>) -> Seq<Scored> {
    Seq::new(v.len(), |i: int| Scored { score: v[i].0 as int, name: v[i].1@ })
}

fn score_of(wanted: &str, lower: &str) -> (r: usize)
    ensures
        r == score(wanted@, lower@),
{
    if stylized_match(wanted, lower) || contains(lower, wanted) || contains(wanted, lower) {
        1
    } else {
        edit_distance(wanted, lower)
    }
}

fn reach_of(wanted: &str, lower: &str) -> (r: usize)
    ensures
        r == reach(wanted@, lower@),
{
    let a = length(wanted);
    let b = length(lower);
    let m = if a >= b {
        a
    } else {
        b
    };
    m - m / 3
}

/// Rank candidates, given with their lower-case forms, by their likeness to
/// `wanted`, keeping at most `limit`, closest first.
pub fn rank_lowered(wanted: &str, candidates: &Vec<(String, String)>, limit: usize) -> (r: Vec<String>)
    ensures
        texts(r@) == best(
            ranking(
                wanted@,
                Seq::new(candidates@.len(), |i: int| candidates@[i].0@),
                Seq::new(candidates@.len(), |i: int| candidates@[i].1@),
                candidates@.len() as int,
            ),
            limit as int,
        ),
{
    let ghost names = Seq::new(candidates@.len(), |i: int| candidates@[i].0@);
    let ghost lowers = Seq::new(candidates@.len(), |i: int| candidates@[i].1@);
    let mut ranked: Vec<(usize, String)> = Vec::new();
    let mut i: usize = 0;
    assert(scored(ranked@) =~= ranking(wanted@, names, lowers, 0));
    while i < candidates.len()
        invariant
            i <= candidates.len(),
            names == Seq::new(candidates@.len(), |i: int| candidates@[i].0@),
            lowers == Seq::new(candidates@.len(), |i: int| candidates@[i].1@),
            scored(ranked@) == ranking(wanted@, names, lowers, i as int),
        decreases candidates.len() - i,
    {
        let name = candidates[i].0.as_str();
        let lower = candidates[i].1.as_str();
        assert(names[i as int] == name@);
        assert(lowers[i as int] == lower@);
        let points = score_of(wanted, lower);
        if points <= reach_of(wanted, lower) {
            let ghost x = Scored { score: points as int, name: name@ };
            let ghost all = scored(ranked@);
            let mut k: usize = 0;
            while k < ranked.len() && (ranked[k].0 < points || (ranked[k].0 == points && before(
                ranked[k].1.as_str(),
                name,
            )))
                invariant
                    k <= ranked.len(),
                    all == scored(ranked@),
                    x == (Scored { score: points as int, name: name@ }),
                    forall|j: int| 0 <= j < k ==> ranks_before(#[trigger] all[j], x),
                decreases ranked.len() - k,
            {
                k += 1;
            }
            proof {
                if k < ranked.len() {
                    assert(!ranks_before(all[k as int], x));
                }
                lemma_rank_is(all, x, k as int);
            }
            ranked.insert(k, (points, copy(name)));
            assert(scored(ranked@) =~= all.insert(k as int, x));
        }
        i += 1;
    }
    let mut out: Vec<String> = Vec::new();
    let ghost all = scored(ranked@);
    let mut k: usize = 0;
    while k < ranked.len() && k < limit
        invariant
            k <= ranked.len(),
            k <= limit,
            all == scored(ranked@),
            out.len() == k,
            forall|j: int| 0 <= j < k ==> (#[trigger] out[j])@ == all[j].name,
        decreases ranked.len() - k,
    {
        out.push(copy(ranked[k].1.as_str()));
        k += 1;
    }
    assert(texts(out@) =~= best(all, limit as int));
    out
}

/// The text in lower case, by the Unicode tables of the standard library.
pub uninterp spec fn lowercase(t: Seq<char>) -> Seq<char>;

/// `str::to_lowercase`: the text in lower case. What it is character by character
/// is left to Unicode; the same text always gives the same result.
pub assume_specification[ str::to_lowercase ](t: &str) -> (r: String)
    ensures
        r@ == lowercase(t@),
;

/// Rank `candidates` by their likeness to `wanted`, which is in lower case,
/// keeping at most `limit`, closest first.
pub fn rank_candidates(wanted: &str, candidates: Vec<String>, limit: usize) -> (r: Vec<String>)
    ensures
        texts(r@) == best(
            ranking(
                wanted@,
                texts(candidates@),
                Seq::new(candidates@.len(), |i: int| lowercase(candidates@[i]@)),
                candidates@.len() as int,
            ),
            limit as int,
        ),
{
    let mut pairs: Vec<(String, String)> = Vec::new();
    let mut i: usize = 0;
    while i < candidates.len()
        invariant
            i <= candidates.len(),
            pairs.len() == i,
            forall|k: int|
                0 <= k < i ==> (#[trigger] pairs[k]).0@ == candidates[k]@ && pairs[k].1@ == lowercase(
                    candidates[k]@,
                ),
        decreases candidates.len() - i,
    {
        let name = candidates[i].as_str();
        pairs.push((copy(name), name.to_lowercase()));
        i += 1;
    }
    proof {
        assert(Seq::new(pairs@.len(), |i: int| pairs@[i].0@) =~= texts(candidates@));
        assert(Seq::new(pairs@.len(), |i: int| pairs@[i].1@) =~= Seq::new(
            candidates@.len(),
            |i: int| lowercase(candidates@[i]@),
        ));
    }
    rank_lowered(wanted, &pairs, limit)
}

} // verus!
