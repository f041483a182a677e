//! Naming conventions and the classifier that tells which one an identifier
//! is written in.

use crate::chars::{lowercase, numeric, uppercase};
use crate::error::Error;
use vstd::prelude::*;

verus! {

/// A naming convention.
#[derive(Debug, Clone, Copy, PartialEq, Eq, Structural)]
pub enum Casing {
    Camel,
    Pascal,
    Lower,
    Kebab,
    Snake,
    Upper,
    UpperSnake,
    UpperKebab,
}

/// The character that a convention puts between words.
#[derive(Debug, Clone, Copy, PartialEq, Eq, Structural)]
pub enum CasingSeparator {
    NoSeparator,
    Underscore,
    Hyphen,
}

/// Every character of `s` is a digit.
pub open spec fn all_numeric(s: Seq<char>) -> bool {
    forall|i: int| 0 <= i < s.len() ==> numeric(#[trigger] s[i])
}

/// Every character of `s` is lowercase or a digit.
pub open spec fn all_lower(s: Seq<char>) -> bool {
    forall|i: int| 0 <= i < s.len() ==> lowercase(#[trigger] s[i]) || numeric(s[i])
}

/// Every character of `s` is uppercase or a digit.
pub open spec fn all_upper(s: Seq<char>) -> bool {
    forall|i: int| 0 <= i < s.len() ==> uppercase(#[trigger] s[i]) || numeric(s[i])
}

/// Every character of `s` is `sep`, lowercase or a digit.
pub open spec fn all_lower_or(s: Seq<char>, sep: char) -> bool {
    forall|i: int|
        0 <= i < s.len() ==> #[trigger] s[i] == sep || lowercase(s[i]) || numeric(s[i])
}

/// Every character of `s` is `sep`, uppercase or a digit.
pub open spec fn all_upper_or(s: Seq<char>, sep: char) -> bool {
    forall|i: int|
        0 <= i < s.len() ==> #[trigger] s[i] == sep || uppercase(s[i]) || numeric(s[i])
}

/// `s` holds neither a hyphen nor an underscore.
pub open spec fn unseparated(s: Seq<char>) -> bool {
    !s.contains('-') && !s.contains('_')
}

/// The convention that `s` is written in, if any.
///
/// The tests are tried in this order and the first that holds decides, so a
/// single lowercase word is `Lower`, not `Camel`, and a single uppercase word
/// is `Upper`, not `UpperSnake`. A string of digits alone, the empty string
/// among them, has no convention.
pub open spec fn casing_of(s: Seq<char>) -> Option<Casing> {
    if all_numeric(s) {
        None
    } else if all_lower(s) {
        Some(Casing::Lower)
    } else if all_upper(s) {
        Some(Casing::Upper)
    } else if s.contains('_') && all_lower_or(s, '_') {
        Some(Casing::Snake)
    } else if s.contains('-') && all_lower_or(s, '-') {
        Some(Casing::Kebab)
    } else if all_upper_or(s, '_') {
        Some(Casing::UpperSnake)
    } else if all_upper_or(s, '-') {
        Some(Casing::UpperKebab)
    } else if lowercase(s[0]) && unseparated(s) {
        Some(Casing::Camel)
    } else if uppercase(s[0]) && unseparated(s) {
        Some(Casing::Pascal)
    } else {
        None
    }
}

impl Casing {
    /// The name of the convention.
    pub open spec fn name_text(self) -> Seq<char> {
        match self {
            Casing::Camel => "Camel"@,
            Casing::Pascal => "Pascal"@,
            Casing::Lower => "Lower"@,
            Casing::Kebab => "Kebab"@,
            Casing::Snake => "Snake"@,
            Casing::Upper => "Upper"@,
            Casing::UpperSnake => "UpperSnake"@,
            Casing::UpperKebab => "UpperKebab"@,
        }
    }

    /// The name of the convention.
    pub fn name(&self) -> (r: &'static str)
        ensures
            r@ == self.name_text(),
    {
        match self {
            Casing::Camel => "Camel",
            Casing::Pascal => "Pascal",
            Casing::Lower => "Lower",
            Casing::Kebab => "Kebab",
            Casing::Snake => "Snake",
            Casing::Upper => "Upper",
            Casing::UpperSnake => "UpperSnake",
            Casing::UpperKebab => "UpperKebab",
        }
    }

    /// Classifies the identifier `s`.
    ///
    /// Fails exactly when `s` fits no convention, and then hands `s` back in
    /// the error.
    pub fn detect_casing(s: &str) -> (r: Result<Casing, Error>)
        ensures
            match r {
                Ok(c) => casing_of(s@) == Some(c),
                Err(Error::Custom(t)) => casing_of(s@).is_none() && t@ == s@,
                Err(_) => false,
            },
    {
        let mut numeric = true;
        let mut lower = true;
        let mut upper = true;
        let mut snake = true;
        let mut kebab = true;
        let mut upper_snake = true;
        let mut upper_kebab = true;
        let mut underscore = false;
        let mut hyphen = false;
        let mut first_lower = false;
        let mut first_upper = false;
        let mut first = true;
        for c in it: s.chars()
            invariant
                it.seq() == s@,
                first == (it.index() == 0),
                numeric == all_numeric(s@.take(it.index())),
                lower == all_lower(s@.take(it.index())),
                upper == all_upper(s@.take(it.index())),
                snake == all_lower_or(s@.take(it.index()), '_'),
                kebab == all_lower_or(s@.take(it.index()), '-'),
                upper_snake == all_upper_or(s@.take(it.index()), '_'),
                upper_kebab == all_upper_or(s@.take(it.index()), '-'),
                underscore == s@.take(it.index()).contains('_'),
                hyphen == s@.take(it.index()).contains('-'),
                it.index() > 0 ==> first_lower == lowercase(s@[0]),
                it.index() > 0 ==> first_upper == uppercase(s@[0]),
        {
            let ghost before = s@.take(it.index());
            let ghost after = s@.take(it.index() + 1);
            proof {
                assert(after == before.push(c));
                assert(forall|j: int| 0 <= j < before.len() ==> before[j] == after[j]);
                assert(after[before.len() as int] == c);
                if before.contains('_') {
                    let j = choose|j: int| 0 <= j < before.len() && before[j] == '_';
                    assert(after[j] == '_');
                }
                if before.contains('-') {
                    let j = choose|j: int| 0 <= j < before.len() && before[j] == '-';
                    assert(after[j] == '-');
                }
            }
            let low = c.is_lowercase();
            let up = c.is_uppercase();
            let num = c.is_numeric();
            if first {
                first_lower = low;
                first_upper = up;
                first = false;
            }
            numeric = numeric && num;
            lower = lower && (low || num);
            upper = upper && (up || num);
            snake = snake && (c == '_' || low || num);
            kebab = kebab && (c == '-' || low || num);
            upper_snake = upper_snake && (c == '_' || up || num);
            upper_kebab = upper_kebab && (c == '-' || up || num);
            underscore = underscore || c == '_';
            hyphen = hyphen || c == '-';
        }
        assert(s@.take(s@.len() as int) == s@);
        if numeric {
            Err(Error::Custom(s.to_owned()))
        } else if lower {
            Ok(Casing::Lower)
        } else if upper {
            Ok(Casing::Upper)
        } else if underscore && snake {
            Ok(Casing::Snake)
        } else if hyphen && kebab {
            Ok(Casing::Kebab)
        } else if upper_snake {
            Ok(Casing::UpperSnake)
        } else if upper_kebab {
            Ok(Casing::UpperKebab)
        } else if first_lower && !hyphen && !underscore {
            Ok(Casing::Camel)
        } else if first_upper && !hyphen && !underscore {
            Ok(Casing::Pascal)
        } else {
            Err(Error::Custom(s.to_owned()))
        }
    }
}

impl CasingSeparator {
    /// The separator of the convention `c`.
    pub open spec fn of(c: Casing) -> CasingSeparator {
        match c {
            Casing::Camel | Casing::Pascal | Casing::Lower | Casing::Upper => {
                CasingSeparator::NoSeparator
            },
            Casing::Snake | Casing::UpperSnake => CasingSeparator::Underscore,
            Casing::Kebab | Casing::UpperKebab => CasingSeparator::Hyphen,
        }
    }
}

impl From<Casing> for CasingSeparator {
    /// The separator of the convention `value`.
    fn from(value: Casing) -> (r: Self) {
        match value {
            Casing::Camel => CasingSeparator::NoSeparator,
            Casing::Pascal => CasingSeparator::NoSeparator,
            Casing::Lower => CasingSeparator::NoSeparator,
            Casing::Kebab => CasingSeparator::Hyphen,
            Casing::Snake => CasingSeparator::Underscore,
            Casing::Upper => CasingSeparator::NoSeparator,
            Casing::UpperSnake => CasingSeparator::Underscore,
            Casing::UpperKebab => CasingSeparator::Hyphen,
        }
    }
}

impl vstd::std_specs::convert::FromSpecImpl<Casing> for CasingSeparator {
    open spec fn obeys_from_spec() -> bool {
        true
    }

    open spec fn from_spec(value: Casing) -> Self {
        CasingSeparator::of(value)
    }
}

impl From<Option<Casing>> for CasingSeparator {
    /// The separator of the convention, and none where there is no
    /// convention.
    fn from(value: Option<Casing>) -> (r: Self) {
        match value {
            Some(v) => CasingSeparator::from(v),
            None => CasingSeparator::NoSeparator,
        }
    }
}

impl vstd::std_specs::convert::FromSpecImpl<Option<Casing>> for CasingSeparator {
    open spec fn obeys_from_spec() -> bool {
        true
    }

    open spec fn from_spec(value: Option<Casing>) -> Self {
        match value {
            Some(v) => CasingSeparator::of(v),
            None => CasingSeparator::NoSeparator,
        }
    }
}

} // verus!
