//! Character classes and the few operations of `char` and `String` that the
//! rest of the library builds on.
//!
//! The Unicode tables behind the three classes run to pages, so beyond ASCII
//! each class is a name without a definition. On the ASCII range the classes
//! are defined in full, and so are the ASCII case mappings.

use vstd::prelude::*;
use vstd::utf8::{encode_utf8, is_char_boundary};

verus! {

/// Whether `c` has the Unicode property `Lowercase`.
pub uninterp spec fn unicode_lowercase(c: char) -> bool;

/// Whether `c` has the Unicode property `Uppercase`.
pub uninterp spec fn unicode_uppercase(c: char) -> bool;

/// Whether `c` belongs to one of the Unicode number categories.
pub uninterp spec fn unicode_numeric(c: char) -> bool;

/// A lowercase character: `a` to `z`, or one beyond ASCII that Unicode
/// lists as lowercase.
pub open spec fn lowercase(c: char) -> bool {
    if is_ascii(c) {
        is_ascii_lowercase(c)
    } else {
        unicode_lowercase(c)
    }
}

/// An uppercase character: `A` to `Z`, or one beyond ASCII that Unicode
/// lists as uppercase.
pub open spec fn uppercase(c: char) -> bool {
    if is_ascii(c) {
        is_ascii_uppercase(c)
    } else {
        unicode_uppercase(c)
    }
}

/// A digit: `0` to `9`, or a character beyond ASCII that Unicode lists as a
/// number.
pub open spec fn numeric(c: char) -> bool {
    if is_ascii(c) {
        is_ascii_digit(c)
    } else {
        unicode_numeric(c)
    }
}

/// `c` lies in the ASCII range.
pub open spec fn is_ascii(c: char) -> bool {
    c <= '\u{7f}'
}

/// `c` is one of `a` to `z`.
pub open spec fn is_ascii_lowercase(c: char) -> bool {
    'a' <= c && c <= 'z'
}

/// `c` is one of `A` to `Z`.
pub open spec fn is_ascii_uppercase(c: char) -> bool {
    'A' <= c && c <= 'Z'
}

/// `c` is one of `0` to `9`.
pub open spec fn is_ascii_digit(c: char) -> bool {
    '0' <= c && c <= '9'
}

/// `c` with `A` to `Z` mapped to `a` to `z`, any other character unchanged.
pub open spec fn ascii_lower(c: char) -> char {
    if is_ascii_uppercase(c) {
        ((c as u8) + 32) as char
    } else {
        c
    }
}

/// `c` with `a` to `z` mapped to `A` to `Z`, any other character unchanged.
pub open spec fn ascii_upper(c: char) -> char {
    if is_ascii_lowercase(c) {
        ((c as u8) - 32) as char
    } else {
        c
    }
}

/// `s` with every character passed through [`ascii_lower`].
pub open spec fn lowered(s: Seq<char>) -> Seq<char> {
    Seq::new(s.len(), |i: int| ascii_lower(s[i]))
}

/// `s` with every character passed through [`ascii_upper`].
pub open spec fn raised(s: Seq<char>) -> Seq<char> {
    Seq::new(s.len(), |i: int| ascii_upper(s[i]))
}

/// `s` with every `from` turned into `to`.
pub open spec fn swapped(s: Seq<char>, from: char, to: char) -> Seq<char> {
    Seq::new(
        s.len(),
        |i: int|
            if s[i] == from {
                to
            } else {
                s[i]
            },
    )
}

/// `char::is_lowercase` of std. Among the ASCII characters it holds of `a`
/// to `z` and of no other; beyond ASCII it is the Unicode property
/// `Lowercase`.
pub assume_specification[ char::is_lowercase ](c: char) -> (r: bool)
    ensures
        r == if is_ascii(c) { is_ascii_lowercase(c) } else { unicode_lowercase(c) },
;

/// `char::is_uppercase` of std. Among the ASCII characters it holds of `A`
/// to `Z` and of no other; beyond ASCII it is the Unicode property
/// `Uppercase`.
pub assume_specification[ char::is_uppercase ](c: char) -> (r: bool)
    ensures
        r == if is_ascii(c) { is_ascii_uppercase(c) } else { unicode_uppercase(c) },
;

/// `char::is_numeric` of std. Among the ASCII characters it holds of `0` to
/// `9` and of no other; beyond ASCII it says whether `c` is in one of the
/// Unicode number categories.
pub assume_specification[ char::is_numeric ](c: char) -> (r: bool)
    ensures
        r == if is_ascii(c) { is_ascii_digit(c) } else { unicode_numeric(c) },
;

/// `char::to_ascii_lowercase` of std: `A` to `Z` become `a` to `z`, every
/// other character is returned unchanged.
pub assume_specification[ char::to_ascii_lowercase ](c: &char) -> (r: char)
    ensures
        r == ascii_lower(*c),
;

/// `char::to_ascii_uppercase` of std: `a` to `z` become `A` to `Z`, every
/// other character is returned unchanged.
pub assume_specification[ char::to_ascii_uppercase ](c: &char) -> (r: char)
    ensures
        r == ascii_upper(*c),
;

/// `String::push` of std: the character is appended at the end.
pub assume_specification[ String::push ](s: &mut String, c: char)
    ensures
        final(s)@ == old(s)@.push(c),
;

/// `String::replace_range` of std, called with the range `start..end`: the
/// bytes of that range leave the string and those of `with` take their
/// place. std panics where an end of the range lies beyond the string or
/// inside a character; those calls are left out.
#[verifier::external_body]
pub(crate) fn replace_range(buf: &mut String, start: usize, end: usize, with: &str)
    requires
        start <= end <= encode_utf8(old(buf)@).len(),
        is_char_boundary(encode_utf8(old(buf)@), start as int),
        is_char_boundary(encode_utf8(old(buf)@), end as int),
    ensures
        encode_utf8(final(buf)@) == encode_utf8(old(buf)@).subrange(0, start as int) + encode_utf8(
            with@,
        ) + encode_utf8(old(buf)@).subrange(end as int, encode_utf8(old(buf)@).len() as int),
{
    buf.replace_range(start..end, with);
}

} // verus!
