//! The lines of a text.

#[allow(unused_imports)]
use crate::text::{
    boundary, byte_at, bytes, find_byte, first_byte, lemma_ascii_boundary, lemma_ends,
    lemma_first_byte, length, slice, slice_from,
};
use vstd::prelude::*;
use vstd::string::*;

verus! {

/// A line without the carriage return it may end with.
pub open spec fn without_return(line: Seq<u8>) -> Seq<u8> {
    if line.len() > 0 && line.last() == 0x0d {
        line.drop_last()
    } else {
        line
    }
}

/// The lines of the bytes from `i` on. Each ends with a line feed, or a carriage
/// return and a line feed; the last one need not.
pub open spec fn lines_from(s: Seq<u8>, i: int) -> Seq<Seq<u8>>
    decreases s.len() - i,
{
    if i < 0 || i >= s.len() {
        Seq::empty()
    } else {
        match first_byte(s, 0x0a, i) {
            Some(j) => if j < i || j >= s.len() {
                Seq::empty()
            } else {
                seq![without_return(s.subrange(i, j))] + lines_from(s, j + 1)
            },
            None => seq![s.subrange(i, s.len() as int)],
        }
    }
}

/// The bytes of slices.
pub open spec fn line_bytes(v: Seq<&str>) -> Seq<Seq<u8>> {
    Seq::new(v.len(), |i: int| bytes(v[i]@))
}

/// The lines of `t`.
pub fn lines(t: &str) -> (r: Vec<&str>)
    ensures
        line_bytes(r@) == lines_from(bytes(t@), 0),
{
    let ghost s = bytes(t@);
    let n = length(t);
    let mut out: Vec<&str> = Vec::new();
    let mut i: usize = 0;
    proof {
        lemma_ends(t@);
        assert(line_bytes(out@) + lines_from(s, 0) =~= lines_from(s, 0));
    }
    while i < n
        invariant
            s == bytes(t@),
            n == s.len(),
            i <= n,
            boundary(s, i as int),
            line_bytes(out@) + lines_from(s, i as int) == lines_from(s, 0),
        decreases n - i,
    {
        let ghost was = line_bytes(out@);
        match find_byte(t, 0x0a, i) {
            Some(j) => {
                proof {
                    lemma_first_byte(s, 0x0a, i as int);
                    lemma_ascii_boundary(t@, j as int);
                }
                let mut e: usize = j;
                if j > i && byte_at(t, j - 1) == 0x0d {
                    e = j - 1;
                    proof {
                        lemma_ascii_boundary(t@, j - 1);
                        let line = s.subrange(i as int, j as int);
                        assert(line.last() == 0x0d);
                        assert(line.drop_last() =~= s.subrange(i as int, j - 1));
                    }
                } else {
                    assert(j > i ==> s.subrange(i as int, j as int).last() == s[j - 1]);
                }
                let line = slice(t, i, e);
                out.push(line);
                proof {
                    let rest = lines_from(s, j + 1);
                    assert(bytes(line@) == without_return(s.subrange(i as int, j as int)));
                    assert(line_bytes(out@) =~= was.push(bytes(line@)));
                    assert(was + (seq![bytes(line@)] + rest) =~= line_bytes(out@) + rest);
                }
                i = j + 1;
            },
            None => {
                let line = slice_from(t, i);
                out.push(line);
                proof {
                    lemma_ends(t@);
                    assert(line_bytes(out@) =~= was + seq![bytes(line@)]);
                    assert(line_bytes(out@) + Seq::<Seq<u8>>::empty() =~= line_bytes(out@));
                }
                i = n;
            },
        }
    }
    proof {
        assert(line_bytes(out@) + Seq::<Seq<u8>>::empty() =~= line_bytes(out@));
    }
    out
}

} // verus!
