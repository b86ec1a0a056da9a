//! Pictures of a board as text.

use crate::chars::texts;
use crate::text::copy;
#[allow(unused_imports)]
use base64::Engine;
use vstd::prelude::*;
use vstd::string::*;

verus! {

/// The character of the standard alphabet for six bits.
pub open spec fn sextet(v: int) -> char {
    if v < 26 {
        ('A' as int + v) as char
    } else if v < 52 {
        ('a' as int + (v - 26)) as char
    } else if v < 62 {
        ('0' as int + (v - 52)) as char
    } else if v == 62 {
        '+'
    } else {
        '/'
    }
}

/// Bytes in standard base64, with padding: each three bytes are four characters of
/// six bits, and one or two bytes at the end are filled up with `=`.
pub open spec fn base64_text(b: Seq<u8>) -> Seq<char>
    decreases b.len(),
{
    if b.len() == 0 {
        Seq::empty()
    } else if b.len() == 1 {
        seq![sextet(b[0] as int / 4), sextet(b[0] as int % 4 * 16), '=', '=']
    } else if b.len() == 2 {
        seq![
            sextet(b[0] as int / 4),
            sextet(b[0] as int % 4 * 16 + b[1] as int / 16),
            sextet(b[1] as int % 16 * 4),
            '=',
        ]
    } else {
        seq![
            sextet(b[0] as int / 4),
            sextet(b[0] as int % 4 * 16 + b[1] as int / 16),
            sextet(b[1] as int % 16 * 4 + b[2] as int / 64),
            sextet(b[2] as int % 64),
        ] + base64_text(b.skip(3))
    }
}

/// `base64::engine::general_purpose::STANDARD.encode`: the bytes in standard base64
/// with padding. It panics where the length of the result does not fit, which is
/// left out.
#[verifier::external_body]
fn encode_base64(data: &Vec<u8>) -> (r: String)
    requires
        (data@.len() + 2) / 3 * 4 <= usize::MAX,
    ensures
        r@ == base64_text(data@),
{
    base64::engine::general_purpose::STANDARD.encode(data)
}

/// A picture as it is sent.
#[derive(Debug)]
pub struct Picture {
    pub data: String,
    pub mime_type: String,
}

/// A rendered board as it is sent.
pub fn board_picture(png: &Vec<u8>) -> (r: Picture)
    requires
        (png@.len() + 2) / 3 * 4 <= usize::MAX,
    ensures
        r.data@ == base64_text(png@),
        r.mime_type@ == "image/png"@,
{
    Picture { data: encode_base64(png), mime_type: copy("image/png") }
}

/// The layers of a board's picture where none are named.
pub open spec fn usual_layers() -> Seq<Seq<char>> {
    seq!["F.Cu"@, "B.Cu"@, "F.SilkS"@, "B.SilkS"@, "Edge.Cuts"@]
}

/// The layers of a board's picture: those that are named, or the usual ones.
pub fn picture_layers(named: Vec<String>) -> (r: Vec<String>)
    ensures
        texts(r@) == (if named@.len() == 0 {
            usual_layers()
        } else {
            texts(named@)
        }),
{
    if named.len() > 0 {
        return named;
    }
    let mut out: Vec<String> = Vec::new();
    out.push(copy("F.Cu"));
    out.push(copy("B.Cu"));
    out.push(copy("F.SilkS"));
    out.push(copy("B.SilkS"));
    out.push(copy("Edge.Cuts"));
    assert(texts(out@) =~= usual_layers());
    out
}

} // verus!
