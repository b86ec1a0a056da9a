//! Telling number texts from other words.
//!
//! Coordinates stay in the text they were written in: the library decides which
//! tokens are numbers and which ranges to rewrite, and leaves the arithmetic to
//! its callers.

#[allow(unused_imports)]
use crate::chars::{digit_run, skip_digits};
use crate::text::{byte_at, bytes, length};
use vstd::prelude::*;
use vstd::string::*;

verus! {

/// A plus or minus sign.
pub open spec fn sign(b: u8) -> bool {
    b == 43 || b == 45
}

/// An ASCII letter in lower case.
pub open spec fn lower(b: u8) -> u8 {
    if 65 <= b <= 90 {
        (b + 32) as u8
    } else {
        b
    }
}

/// `s` from `from` on is the ASCII word `word`, in letters of either case.
pub open spec fn is_word(s: Seq<u8>, from: int, word: Seq<u8>) -> bool {
    &&& s.len() - from == word.len()
    &&& forall|k: int| 0 <= k < word.len() ==> lower(s[from + k]) == #[trigger] word[k]
}

/// The exponent of a number: `e` or `E`, an optional sign and digits to the end.
pub open spec fn is_exponent(s: Seq<u8>, j: int) -> bool {
    let k = if j + 1 < s.len() && sign(s[j + 1]) {
        j + 2
    } else {
        j + 1
    };
    j < s.len() && (s[j] == 101 || s[j] == 69) && digit_run(s, k) > 0 && k + digit_run(s, k) == s.len()
}

/// Digits with at most one point among them, at least one digit, and at most an
/// exponent after them.
pub open spec fn is_decimal(s: Seq<u8>, from: int) -> bool {
    let whole = digit_run(s, from);
    let point = from + whole;
    let dotted = point < s.len() && s[point] == 46;
    let part = if dotted {
        digit_run(s, point + 1)
    } else {
        0
    };
    let end = if dotted {
        point + 1 + part
    } else {
        point
    };
    (whole > 0 || part > 0) && (end == s.len() || is_exponent(s, end))
}

/// The texts that `str::parse::<f64>` accepts.
pub open spec fn is_number(s: Seq<u8>) -> bool {
    let from = if s.len() > 0 && sign(s[0]) {
        1int
    } else {
        0int
    };
    from < s.len() && (is_decimal(s, from) || is_word(s, from, bytes("inf"@)) || is_word(
        s,
        from,
        bytes("infinity"@),
    ) || is_word(s, from, bytes("nan"@)))
}

/// Whether `t` from `from` on is the ASCII word `word`, in letters of either case.
fn word_at(t: &str, from: usize, word: &str) -> (r: bool)
    requires
        from <= bytes(t@).len(),
    ensures
        r == is_word(bytes(t@), from as int, bytes(word@)),
{
    let n = length(t);
    let m = length(word);
    if n - from != m {
        return false;
    }
    let mut k: usize = 0;
    while k < m
        invariant
            n == bytes(t@).len(),
            m == bytes(word@).len(),
            n - from == m,
            from <= n,
            k <= m,
            forall|j: int| 0 <= j < k ==> lower(bytes(t@)[from + j]) == #[trigger] bytes(word@)[j],
        decreases m - k,
    {
        let b = byte_at(t, from + k);
        let low: u8 = if 65 <= b && b <= 90 {
            b + 32
        } else {
            b
        };
        if low != byte_at(word, k) {
            assert(lower(bytes(t@)[from + k]) != bytes(word@)[k as int]);
            return false;
        }
        k += 1;
    }
    true
}

/// Whether an exponent stands at `j` and reaches to the end.
fn exponent_at(t: &str, j: usize) -> (r: bool)
    requires
        j <= bytes(t@).len(),
    ensures
        r == is_exponent(bytes(t@), j as int),
{
    let n = length(t);
    if j >= n {
        return false;
    }
    let e = byte_at(t, j);
    if e != 101 && e != 69 {
        return false;
    }
    let signed = j + 1 < n && (byte_at(t, j + 1) == 43 || byte_at(t, j + 1) == 45);
    let k: usize = if signed {
        j + 2
    } else {
        j + 1
    };
    let end = skip_digits(t, k);
    end > k && end == n
}

/// Whether `t` from `from` on is a decimal number.
fn decimal_at(t: &str, from: usize) -> (r: bool)
    requires
        from <= bytes(t@).len(),
    ensures
        r == is_decimal(bytes(t@), from as int),
{
    let n = length(t);
    let point = skip_digits(t, from);
    let dotted = point < n && byte_at(t, point) == 46;
    let end: usize = if dotted {
        skip_digits(t, point + 1)
    } else {
        point
    };
    let some = point > from || (dotted && end > point + 1);
    some && (end == n || exponent_at(t, end))
}

/// Whether `t` is a number.
pub fn number(t: &str) -> (r: bool)
    ensures
        r == is_number(bytes(t@)),
{
    let n = length(t);
    let from: usize = if n > 0 && (byte_at(t, 0) == 43 || byte_at(t, 0) == 45) {
        1
    } else {
        0
    };
    from < n && (decimal_at(t, from) || word_at(t, from, "inf") || word_at(t, from, "infinity")
        || word_at(t, from, "nan"))
}

} // verus!
