//! The canonical form of an identifier: its words in lowercase, joined by
//! [`SEPARATOR`]. A token has no convention of its own; one is applied when
//! it is rendered.

use crate::casing::{casing_of, Casing};
use crate::error::Error;
use crate::chars::{
    ascii_lower, ascii_upper, is_ascii_uppercase, lowercase, lowered, numeric, raised, swapped,
    uppercase,
};
use crate::SEPARATOR;
use vstd::prelude::*;
use vstd::string::StringExecFns;

verus! {

/// Why a token cannot be rendered in a convention without losing its word
/// boundaries.
#[derive(Debug, Clone, Copy, PartialEq, Eq, Structural)]
pub enum TokenError {
    /// Several words cannot be written as one lowercase run.
    AmbiguousToLowerCase,
    /// Several words cannot be written as one uppercase run.
    AmbiguousToUpperCase,
}

/// An identifier in canonical form.
#[derive(Debug)]
pub struct Token(String);

impl View for Token {
    type V = Seq<char>;

    closed spec fn view(&self) -> Seq<char> {
        self.0@
    }
}

/// `s` with a word boundary put before every uppercase character, and that
/// character lowered.
pub open spec fn unhumped(s: Seq<char>) -> Seq<char>
    decreases s.len(),
{
    if s.len() == 0 {
        seq![]
    } else if uppercase(s[0]) {
        seq![SEPARATOR, ascii_lower(s[0])] + unhumped(s.drop_first())
    } else {
        seq![s[0]] + unhumped(s.drop_first())
    }
}

/// The words of `t` written one after the other with no separator, the first
/// character of a word raised where a boundary precedes it. `raise` says
/// whether a boundary precedes the first character of `t`.
pub open spec fn humped(t: Seq<char>, raise: bool) -> Seq<char>
    decreases t.len(),
{
    if t.len() == 0 {
        seq![]
    } else if t[0] == SEPARATOR {
        humped(t.drop_first(), true)
    } else if raise {
        seq![ascii_upper(t[0])] + humped(t.drop_first(), false)
    } else {
        seq![t[0]] + humped(t.drop_first(), false)
    }
}

/// The token of a camelCase identifier; none where it begins with an
/// uppercase character.
pub open spec fn from_camel(s: Seq<char>) -> Option<Seq<char>> {
    if s.len() > 0 && uppercase(s[0]) {
        None
    } else {
        Some(unhumped(s))
    }
}

/// The token of a PascalCase identifier; none where it begins with a
/// character that is not uppercase.
pub open spec fn from_pascal(s: Seq<char>) -> Option<Seq<char>> {
    if s.len() == 0 {
        Some(seq![])
    } else if !uppercase(s[0]) {
        None
    } else {
        Some(seq![ascii_lower(s[0])] + unhumped(s.drop_first()))
    }
}

/// The token of the identifier `s`, read in the convention `c`.
pub open spec fn tokenized(c: Casing, s: Seq<char>) -> Option<Seq<char>> {
    match c {
        Casing::Camel => from_camel(s),
        Casing::Pascal => from_pascal(s),
        Casing::Lower => Some(s),
        Casing::Kebab => Some(swapped(s, '-', SEPARATOR)),
        Casing::Snake => Some(swapped(s, '_', SEPARATOR)),
        Casing::Upper => Some(lowered(s)),
        Casing::UpperSnake => Some(lowered(swapped(s, '_', SEPARATOR))),
        Casing::UpperKebab => Some(lowered(swapped(s, '-', SEPARATOR))),
    }
}

/// The token `t` written in the convention `c`. The two flat conventions
/// can hold one word only.
pub open spec fn rendered(t: Seq<char>, c: Casing) -> Result<Seq<char>, TokenError> {
    match c {
        Casing::Camel => Ok(humped(t, false)),
        Casing::Pascal => Ok(humped(t, true)),
        Casing::Lower => if t.contains(SEPARATOR) {
            Err(TokenError::AmbiguousToLowerCase)
        } else {
            Ok(t)
        },
        Casing::Kebab => Ok(swapped(t, SEPARATOR, '-')),
        Casing::Snake => Ok(swapped(t, SEPARATOR, '_')),
        Casing::Upper => if t.contains(SEPARATOR) {
            Err(TokenError::AmbiguousToUpperCase)
        } else {
            Ok(raised(t))
        },
        Casing::UpperSnake => Ok(raised(swapped(t, SEPARATOR, '_'))),
        Casing::UpperKebab => Ok(raised(swapped(t, SEPARATOR, '-'))),
    }
}

/// A copy of `s` with every `from` turned into `to`.
fn swap_chars(s: &str, from: char, to: char) -> (r: String)
    ensures
        r@ == swapped(s@, from, to),
{
    let mut out = String::new();
    for c in it: s.chars()
        invariant
            it.seq() == s@,
            out@ == swapped(s@, from, to).take(it.index()),
    {
        let d = if c == from {
            to
        } else {
            c
        };
        out.push(d);
        assert(swapped(s@, from, to).take(it.index() + 1) == swapped(s@, from, to).take(
            it.index(),
        ).push(d));
    }
    assert(swapped(s@, from, to).take(s@.len() as int) == swapped(s@, from, to));
    out
}

/// A copy of `s` with `A` to `Z` lowered.
fn lower_chars(s: &str) -> (r: String)
    ensures
        r@ == lowered(s@),
{
    let mut out = String::new();
    for c in it: s.chars()
        invariant
            it.seq() == s@,
            out@ == lowered(s@).take(it.index()),
    {
        let d = c.to_ascii_lowercase();
        out.push(d);
        assert(lowered(s@).take(it.index() + 1) == lowered(s@).take(it.index()).push(d));
    }
    assert(lowered(s@).take(s@.len() as int) == lowered(s@));
    out
}

/// A copy of `s` with `a` to `z` raised.
fn raise_chars(s: &str) -> (r: String)
    ensures
        r@ == raised(s@),
{
    let mut out = String::new();
    for c in it: s.chars()
        invariant
            it.seq() == s@,
            out@ == raised(s@).take(it.index()),
    {
        let d = c.to_ascii_uppercase();
        out.push(d);
        assert(raised(s@).take(it.index() + 1) == raised(s@).take(it.index()).push(d));
    }
    assert(raised(s@).take(s@.len() as int) == raised(s@));
    out
}

/// Whether `s` holds the character `c`.
fn has_char(s: &str, c: char) -> (r: bool)
    ensures
        r == s@.contains(c),
{
    let mut found = false;
    for d in it: s.chars()
        invariant
            it.seq() == s@,
            found == s@.take(it.index()).contains(c),
    {
        let ghost before = s@.take(it.index());
        let ghost after = s@.take(it.index() + 1);
        proof {
            assert(after == before.push(d));
            assert(after[before.len() as int] == d);
            if before.contains(c) {
                let j = choose|j: int| 0 <= j < before.len() && before[j] == c;
                assert(after[j] == c);
            }
        }
        found = found || d == c;
    }
    assert(s@.take(s@.len() as int) == s@);
    found
}

/// The text of the failure to read `s` in the convention `c`.
pub open spec fn failure_text(c: Casing, s: Seq<char>) -> Seq<char> {
    "Failed to obtain token from specified casing: "@ + c.name_text() + " and input: "@ + s
}

/// The token of the identifier `s`, read in the convention it is written
/// in; or, where that fails, the text that says why: `s` itself where no
/// convention fits.
pub open spec fn parsed(s: Seq<char>) -> Result<Seq<char>, Seq<char>> {
    match casing_of(s) {
        None => Err(s),
        Some(c) => match tokenized(c, s) {
            Some(t) => Ok(t),
            None => Err(failure_text(c, s)),
        },
    }
}

impl Token {
    /// Reads the identifier `s` in the convention it is written in.
    ///
    /// Fails where no convention fits `s`, and where the convention found
    /// cannot split it.
    pub fn parse(s: &str) -> (r: Result<Token, Error>)
        ensures
            match r {
                Ok(t) => parsed(s@) == Ok::<Seq<char>, Seq<char>>(t@),
                Err(Error::Custom(m)) => parsed(s@) == Err::<Seq<char>, Seq<char>>(m@),
                Err(_) => false,
            },
    {
        match Casing::detect_casing(s) {
            Ok(c) => match Token::from_casing(&c, s) {
                Ok(t) => Ok(t),
                Err(m) => Err(Error::Custom(m)),
            },
            Err(e) => Err(e),
        }
    }

    /// The words of the token run together, the first character of every
    /// word but the first raised; of the first word too where `raise` is set.
    fn hump(&self, raise: bool) -> (r: String)
        ensures
            r@ == humped(self@, raise),
    {
        let mut out = String::new();
        let mut up = raise;
        assert(self@.skip(0) == self@);
        assert(out@ + humped(self@, raise) == humped(self@, raise));
        for ch in it: self.0.as_str().chars()
            invariant
                it.seq() == self@,
                humped(self@, raise) == out@ + humped(self@.skip(it.index()), up),
        {
            let ghost rest = self@.skip(it.index());
            proof {
                assert(rest[0] == ch);
                assert(rest.drop_first() == self@.skip(it.index() + 1));
            }
            let ghost before = out@;
            if ch == SEPARATOR {
                up = true;
            } else if up {
                let d = ch.to_ascii_uppercase();
                out.push(d);
                up = false;
                assert(out@ + humped(rest.drop_first(), false) == before + (seq![d] + humped(
                    rest.drop_first(),
                    false,
                )));
            } else {
                out.push(ch);
                assert(out@ + humped(rest.drop_first(), false) == before + (seq![ch] + humped(
                    rest.drop_first(),
                    false,
                )));
            }
        }
        assert(self@.skip(self@.len() as int) == Seq::<char>::empty());
        assert(out@ + Seq::<char>::empty() == out@);
        out
    }

    /// Renders the token in `casing`.
    ///
    /// Fails only for the two flat conventions, and for them exactly when
    /// the token has more than one word.
    pub fn try_to_casing(&self, casing: &Casing) -> (r: Result<String, TokenError>)
        ensures
            match r {
                Ok(s) => rendered(self@, *casing) == Ok::<Seq<char>, TokenError>(s@),
                Err(e) => rendered(self@, *casing) == Err::<Seq<char>, TokenError>(e),
            },
    {
        match casing {
            Casing::Camel => Ok(self.to_camel_case()),
            Casing::Pascal => Ok(self.to_pascal_case()),
            Casing::Lower => self.try_to_lower_case(),
            Casing::Kebab => Ok(self.to_kebab_case()),
            Casing::Snake => Ok(self.to_snake_case()),
            Casing::Upper => self.try_to_upper_case(),
            Casing::UpperSnake => Ok(self.to_upper_snake_case()),
            Casing::UpperKebab => Ok(self.to_upper_kebab_case()),
        }
    }

    /// Reads `input` as an identifier written in `casing`.
    ///
    /// Fails exactly when the convention is camelCase and `input` begins
    /// with an uppercase character, or PascalCase and it begins with another.
    pub fn from_casing(casing: &Casing, input: &str) -> (r: Result<Token, String>)
        ensures
            match r {
                Ok(t) => tokenized(*casing, input@) == Some(t@),
                Err(m) => tokenized(*casing, input@).is_none() && m@ == failure_text(
                    *casing,
                    input@,
                ),
            },
    {
        let token = match casing {
            Casing::Camel => Token::from_camel_case(input),
            Casing::Pascal => Token::from_pascal_case(input),
            Casing::Lower => Some(Token(input.to_owned())),
            Casing::Kebab => Token::from_kebab_case(input),
            Casing::Snake => Token::from_snake_case(input),
            Casing::Upper => Some(Token(lower_chars(input))),
            Casing::UpperSnake => Token::from_upper_snake_case(input),
            Casing::UpperKebab => Token::from_upper_kebab_case(input),
        };
        match token {
            Some(t) => Ok(t),
            None => {
                let mut m = String::from_str("Failed to obtain token from specified casing: ");
                m.append(casing.name());
                m.append(" and input: ");
                m.append(input);
                Err(m)
            },
        }
    }

    /// Reads a camelCase identifier: a word begins at every uppercase
    /// character.
    pub fn from_camel_case(input: &str) -> (r: Option<Token>)
        ensures
            match r {
                Some(t) => from_camel(input@) == Some(t@),
                None => from_camel(input@).is_none(),
            },
    {
        let mut result = String::new();
        let mut first = true;
        assert(input@.skip(0) == input@);
        assert(result@ + unhumped(input@) == unhumped(input@));
        for ch in it: input.chars()
            invariant
                it.seq() == input@,
                first == (it.index() == 0),
                it.index() > 0 ==> !uppercase(input@[0]),
                unhumped(input@) == result@ + unhumped(input@.skip(it.index())),
        {
            let ghost rest = input@.skip(it.index());
            let ghost before = result@;
            proof {
                assert(rest[0] == ch);
                assert(rest.drop_first() == input@.skip(it.index() + 1));
            }
            if ch.is_uppercase() {
                if first {
                    return None;
                }
                let d = ch.to_ascii_lowercase();
                result.push(SEPARATOR);
                result.push(d);
                assert(result@ + unhumped(rest.drop_first()) == before + (seq![SEPARATOR, d]
                    + unhumped(rest.drop_first())));
            } else {
                result.push(ch);
                assert(result@ + unhumped(rest.drop_first()) == before + (seq![ch] + unhumped(
                    rest.drop_first(),
                )));
            }
            first = false;
        }
        assert(input@.skip(input@.len() as int) == Seq::<char>::empty());
        assert(result@ + Seq::<char>::empty() == result@);
        Some(Token(result))
    }

    /// Reads a snake_case identifier: every underscore is a word boundary.
    pub fn from_snake_case(input: &str) -> (r: Option<Token>)
        ensures
            r matches Some(t) && t@ == swapped(input@, '_', SEPARATOR),
    {
        Some(Token(swap_chars(input, '_', SEPARATOR)))
    }

    /// Reads an UPPER_SNAKE_CASE identifier: every underscore is a word
    /// boundary, and `A` to `Z` are lowered.
    pub fn from_upper_snake_case(input: &str) -> (r: Option<Token>)
        ensures
            r matches Some(t) && t@ == lowered(swapped(input@, '_', SEPARATOR)),
    {
        let swapped = swap_chars(input, '_', SEPARATOR);
        Some(Token(lower_chars(swapped.as_str())))
    }

    /// Reads a kebab-case identifier: every hyphen is a word boundary.
    pub fn from_kebab_case(input: &str) -> (r: Option<Token>)
        ensures
            r matches Some(t) && t@ == swapped(input@, '-', SEPARATOR),
    {
        Some(Token(swap_chars(input, '-', SEPARATOR)))
    }

    /// Reads an UPPER-KEBAB-CASE identifier: every hyphen is a word
    /// boundary, and `A` to `Z` are lowered.
    pub fn from_upper_kebab_case(input: &str) -> (r: Option<Token>)
        ensures
            r matches Some(t) && t@ == lowered(swapped(input@, '-', SEPARATOR)),
    {
        let swapped = swap_chars(input, '-', SEPARATOR);
        Some(Token(lower_chars(swapped.as_str())))
    }

    /// Reads a PascalCase identifier: a word begins at every uppercase
    /// character, the first among them.
    pub fn from_pascal_case(input: &str) -> (r: Option<Token>)
        ensures
            match r {
                Some(t) => from_pascal(input@) == Some(t@),
                None => from_pascal(input@).is_none(),
            },
    {
        let mut result = String::new();
        let mut first = true;
        for ch in it: input.chars()
            invariant
                it.seq() == input@,
                first == (it.index() == 0),
                first ==> result@ == Seq::<char>::empty(),
                !first ==> uppercase(input@[0]) && seq![ascii_lower(input@[0])] + unhumped(
                    input@.drop_first(),
                ) == result@ + unhumped(input@.skip(it.index())),
        {
            let ghost rest = input@.skip(it.index());
            let ghost before = result@;
            proof {
                assert(rest[0] == ch);
                assert(rest.drop_first() == input@.skip(it.index() + 1));
                assert(input@.drop_first() == input@.skip(1));
            }
            if ch.is_uppercase() {
                let d = ch.to_ascii_lowercase();
                if first {
                    result.push(d);
                    assert(result@ == seq![d]);
                } else {
                    result.push(SEPARATOR);
                    result.push(d);
                    assert(result@ + unhumped(rest.drop_first()) == before + (seq![SEPARATOR, d]
                        + unhumped(rest.drop_first())));
                }
            } else {
                if first {
                    return None;
                }
                result.push(ch);
                assert(result@ + unhumped(rest.drop_first()) == before + (seq![ch] + unhumped(
                    rest.drop_first(),
                )));
            }
            first = false;
        }
        assert(input@.skip(input@.len() as int) == Seq::<char>::empty());
        assert(result@ + Seq::<char>::empty() == result@);
        Some(Token(result))
    }

    /// The token in camelCase.
    pub fn to_camel_case(&self) -> (r: String)
        ensures
            r@ == humped(self@, false),
    {
        self.hump(false)
    }

    /// The token in snake_case.
    pub fn to_snake_case(&self) -> (r: String)
        ensures
            r@ == swapped(self@, SEPARATOR, '_'),
    {
        swap_chars(self.0.as_str(), SEPARATOR, '_')
    }

    /// The token in UPPER_SNAKE_CASE.
    pub fn to_upper_snake_case(&self) -> (r: String)
        ensures
            r@ == raised(swapped(self@, SEPARATOR, '_')),
    {
        raise_chars(self.to_snake_case().as_str())
    }

    /// The token in PascalCase.
    pub fn to_pascal_case(&self) -> (r: String)
        ensures
            r@ == humped(self@, true),
    {
        self.hump(true)
    }

    /// The token in lowercase, if it is one word.
    pub fn try_to_lower_case(&self) -> (r: Result<String, TokenError>)
        ensures
            match r {
                Ok(s) => !self@.contains(SEPARATOR) && s@ == self@,
                Err(e) => self@.contains(SEPARATOR) && e == TokenError::AmbiguousToLowerCase,
            },
    {
        if has_char(self.0.as_str(), SEPARATOR) {
            Err(TokenError::AmbiguousToLowerCase)
        } else {
            Ok(self.0.clone())
        }
    }

    /// The token in uppercase, if it is one word.
    pub fn try_to_upper_case(&self) -> (r: Result<String, TokenError>)
        ensures
            match r {
                Ok(s) => !self@.contains(SEPARATOR) && s@ == raised(self@),
                Err(e) => self@.contains(SEPARATOR) && e == TokenError::AmbiguousToUpperCase,
            },
    {
        if has_char(self.0.as_str(), SEPARATOR) {
            Err(TokenError::AmbiguousToUpperCase)
        } else {
            Ok(raise_chars(self.0.as_str()))
        }
    }

    /// The token in kebab-case.
    pub fn to_kebab_case(&self) -> (r: String)
        ensures
            r@ == swapped(self@, SEPARATOR, '-'),
    {
        swap_chars(self.0.as_str(), SEPARATOR, '-')
    }

    /// The token in UPPER-KEBAB-CASE.
    pub fn to_upper_kebab_case(&self) -> (r: String)
        ensures
            r@ == raised(swapped(self@, SEPARATOR, '-')),
    {
        raise_chars(self.to_kebab_case().as_str())
    }
}

/// `unhumped` leaves no character from `A` to `Z`.
proof fn lemma_unhumped_is_lowered(s: Seq<char>)
    ensures
        forall|i: int| 0 <= i < unhumped(s).len() ==> !is_ascii_uppercase(#[trigger] unhumped(s)[i]),
    decreases s.len(),
{
    if s.len() > 0 {
        let rest = unhumped(s.drop_first());
        lemma_unhumped_is_lowered(s.drop_first());
        let whole = unhumped(s);
        assert forall|i: int| 0 <= i < whole.len() implies !is_ascii_uppercase(
            #[trigger] whole[i],
        ) by {
            if uppercase(s[0]) {
                if i >= 2 {
                    assert(whole[i] == rest[i - 2]);
                }
            } else {
                if i >= 1 {
                    assert(whole[i] == rest[i - 1]);
                }
            }
        }
    }
}

/// The token of an identifier that was read in the convention it is written
/// in holds no character from `A` to `Z`: a token is its words in lowercase.
pub proof fn lemma_token_is_lowered(s: Seq<char>)
    requires
        parsed(s) is Ok,
    ensures
        forall|i: int|
            0 <= i < parsed(s)->Ok_0.len() ==> !is_ascii_uppercase(#[trigger] parsed(s)->Ok_0[i]),
{
    let c = casing_of(s)->Some_0;
    let t = parsed(s)->Ok_0;
    match c {
        Casing::Camel => {
            lemma_unhumped_is_lowered(s);
        },
        Casing::Pascal => {
            lemma_unhumped_is_lowered(s.drop_first());
        },
        _ => {},
    }
}

/// Raising undoes lowering on a character that is uppercase or a digit, and
/// lowering never yields the separator from another character.
proof fn lemma_lower_then_raise(c: char)
    requires
        uppercase(c) || numeric(c) || c == '_' || c == '-' || c == SEPARATOR,
    ensures
        ascii_upper(ascii_lower(c)) == c,
        ascii_lower(c) == SEPARATOR <==> c == SEPARATOR,
{
}

/// Joining the words again undoes the splitting at uppercase characters, as
/// long as the identifier does not itself hold the separator.
proof fn lemma_humped_unhumped(s: Seq<char>)
    requires
        !s.contains(SEPARATOR),
    ensures
        humped(unhumped(s), false) == s,
    decreases s.len(),
{
    if s.len() > 0 {
        let rest = s.drop_first();
        assert forall|i: int| 0 <= i < rest.len() implies rest[i] != SEPARATOR by {
            assert(rest[i] == s[i + 1]);
            assert(s.contains(s[i + 1]));
        }
        lemma_humped_unhumped(rest);
        assert(s.contains(s[0]));
        let tail = unhumped(rest);
        if uppercase(s[0]) {
            let low = ascii_lower(s[0]);
            lemma_lower_then_raise(s[0]);
            let whole = seq![SEPARATOR, low] + tail;
            assert(whole.drop_first() =~= seq![low] + tail);
            assert((seq![low] + tail).drop_first() =~= tail);
            assert(humped(whole, false) == humped(seq![low] + tail, true));
            assert(humped(seq![low] + tail, true) == seq![s[0]] + humped(tail, false));
        } else {
            let whole = seq![s[0]] + tail;
            assert(whole.drop_first() =~= tail);
        }
        assert(seq![s[0]] + rest =~= s);
    }
}

/// Reading an identifier in the convention it is written in, and rendering
/// the token in that convention again, gives the identifier back:
/// for every `s` that [`casing_of`] classifies as `c`, that does not hold the
/// separator, and whose first character is not lowercase and uppercase at
/// once.
pub proof fn lemma_round_trip(s: Seq<char>, c: Casing)
    requires
        casing_of(s) == Some(c),
        !s.contains(SEPARATOR),
        !(lowercase(s[0]) && uppercase(s[0])),
    ensures
        tokenized(c, s) matches Some(t) && rendered(t, c) == Ok::<Seq<char>, TokenError>(s),
{
    assert forall|i: int| 0 <= i < s.len() implies s[i] != SEPARATOR by {
        assert(s.contains(s[i]));
    }
    match c {
        Casing::Lower => {},
        Casing::Upper => {
            let t = lowered(s);
            assert forall|i: int| 0 <= i < s.len() implies ascii_upper(ascii_lower(s[i])) == s[i]
                && ascii_lower(s[i]) != SEPARATOR by {
                lemma_lower_then_raise(s[i]);
            }
            if t.contains(SEPARATOR) {
                let i = choose|i: int| 0 <= i < t.len() && t[i] == SEPARATOR;
                assert(ascii_lower(s[i]) == SEPARATOR);
            }
            assert(raised(t) =~= s);
        },
        Casing::Snake => {
            assert(swapped(swapped(s, '_', SEPARATOR), SEPARATOR, '_') =~= s);
        },
        Casing::Kebab => {
            assert(swapped(swapped(s, '-', SEPARATOR), SEPARATOR, '-') =~= s);
        },
        Casing::UpperSnake => {
            assert forall|i: int| 0 <= i < s.len() implies ascii_upper(ascii_lower(s[i])) == s[i]
                && (ascii_lower(s[i]) == SEPARATOR <==> s[i] == SEPARATOR) by {
                lemma_lower_then_raise(s[i]);
            }
            assert(raised(swapped(lowered(swapped(s, '_', SEPARATOR)), SEPARATOR, '_')) =~= s);
        },
        Casing::UpperKebab => {
            assert forall|i: int| 0 <= i < s.len() implies ascii_upper(ascii_lower(s[i])) == s[i]
                && (ascii_lower(s[i]) == SEPARATOR <==> s[i] == SEPARATOR) by {
                lemma_lower_then_raise(s[i]);
            }
            assert(raised(swapped(lowered(swapped(s, '-', SEPARATOR)), SEPARATOR, '-')) =~= s);
        },
        Casing::Camel => {
            lemma_humped_unhumped(s);
        },
        Casing::Pascal => {
            let rest = s.drop_first();
            assert forall|i: int| 0 <= i < rest.len() implies rest[i] != SEPARATOR by {
                assert(rest[i] == s[i + 1]);
            }
            lemma_humped_unhumped(rest);
            lemma_lower_then_raise(s[0]);
            let low = ascii_lower(s[0]);
            let t = seq![low] + unhumped(rest);
            assert(t.drop_first() =~= unhumped(rest));
            assert(seq![s[0]] + rest =~= s);
        },
    }
}

impl std::str::FromStr for Token {
    type Err = Error;

    /// As [`Token::parse`].
    fn from_str(s: &str) -> (r: Result<Self, Error>)
        ensures
            match r {
                Ok(t) => parsed(s@) == Ok::<Seq<char>, Seq<char>>(t@),
                Err(Error::Custom(m)) => parsed(s@) == Err::<Seq<char>, Seq<char>>(m@),
                Err(_) => false,
            },
    {
        Token::parse(s)
    }
}

} // verus!
