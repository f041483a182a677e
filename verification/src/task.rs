//! The rename task: finds every occurrence of one identifier in a text and
//! rewrites each in the convention it was found in.

use crate::casing::{casing_of, Casing, CasingSeparator};
use crate::chars::replace_range;
use crate::error::Error;
use crate::record::{ascending, holds, lemma_ascending_members, Record, Records};
use crate::task::offset::Offset;
use crate::task::rewrite::{
    apart, fits, front, lemma_fits_next, lemma_replacement_position, lemma_step, net_growth,
    reach, rewritten,
};
use crate::task::scan::{at_boundary, scan_pattern, starts_character};
use crate::task::search::{
    found_in, lemma_found_is_sound, lemma_found_on_boundaries, line_end, line_found, marks,
    on_boundaries, scan_order, text_found,
};
use crate::token::{parsed, rendered, Token, TokenError};
use crate::SEPARATOR;
use vstd::prelude::*;
use vstd::utf8::{encode_utf8, is_char_boundary, valid_utf8};

pub mod offset;
pub mod rewrite;
pub mod scan;
pub mod search;

verus! {

/// What a task stands for.
pub struct TaskView {
    /// The identifier to look for, as a token.
    pub candidate: Seq<char>,
    /// The identifier to put in its place, as a token.
    pub rename: Seq<char>,
    /// The separator that the replacement was written with.
    pub separator: CasingSeparator,
    /// The text to search.
    pub text: Seq<char>,
}

/// The convention that stands in for a flat one in which the replacement
/// cannot be rendered: the one of the same case that joins its words as
/// `sep` says. Uppercase words with no separator are joined by underscores.
pub open spec fn substitute(e: TokenError, sep: CasingSeparator) -> Casing {
    match (e, sep) {
        (TokenError::AmbiguousToLowerCase, CasingSeparator::NoSeparator) => Casing::Camel,
        (TokenError::AmbiguousToLowerCase, CasingSeparator::Underscore) => Casing::Snake,
        (TokenError::AmbiguousToLowerCase, CasingSeparator::Hyphen) => Casing::Kebab,
        (TokenError::AmbiguousToUpperCase, CasingSeparator::NoSeparator) => Casing::UpperSnake,
        (TokenError::AmbiguousToUpperCase, CasingSeparator::Underscore) => Casing::UpperSnake,
        (TokenError::AmbiguousToUpperCase, CasingSeparator::Hyphen) => Casing::UpperKebab,
    }
}

/// What is written in place of an occurrence found in `casing`: the token
/// `rename` in that convention, or in its substitute where it cannot be
/// rendered in it.
pub open spec fn replacement(rename: Seq<char>, sep: CasingSeparator, casing: Casing) -> Seq<
    char,
> {
    match rendered(rename, casing) {
        Ok(s) => s,
        Err(e) => rendered(rename, substitute(e, sep))->Ok_0,
    }
}

/// The convention in which the replacement of an occurrence found in
/// `casing` is written where the replacement has several words: a flat
/// convention gives way to its substitute, every other stays.
pub open spec fn written_in(casing: Casing, sep: CasingSeparator) -> Casing {
    match casing {
        Casing::Lower => substitute(TokenError::AmbiguousToLowerCase, sep),
        Casing::Upper => substitute(TokenError::AmbiguousToUpperCase, sep),
        c => c,
    }
}

/// What is written in place of an occurrence is always a rendering of the
/// replacement: in the convention of the occurrence where the replacement is
/// one word, and in [`written_in`] of it where the replacement has several.
pub proof fn lemma_replacement_policy(rename: Seq<char>, sep: CasingSeparator, casing: Casing)
    ensures
        !rename.contains(SEPARATOR) ==> rendered(rename, casing) == Ok::<Seq<char>, TokenError>(
            replacement(rename, sep, casing),
        ),
        rename.contains(SEPARATOR) ==> rendered(rename, written_in(casing, sep)) == Ok::<
            Seq<char>,
            TokenError,
        >(replacement(rename, sep, casing)),
        casing != Casing::Lower && casing != Casing::Upper ==> rendered(rename, casing) == Ok::<
            Seq<char>,
            TokenError,
        >(replacement(rename, sep, casing)),
{
}

impl TaskView {
    /// The bytes of the text.
    pub open spec fn bytes(self) -> Seq<u8> {
        encode_utf8(self.text)
    }

    /// The bytes written in place of an occurrence, by its convention.
    pub open spec fn put(self) -> spec_fn(Casing) -> Seq<u8> {
        |c: Casing| encode_utf8(replacement(self.rename, self.separator, c))
    }

    /// The bytes of the text with every one of `recs` replaced.
    pub open spec fn outcome(self, recs: Seq<Record>) -> Seq<u8> {
        rewritten(self.bytes(), recs, self.put())
    }

    /// The occurrences of the candidate that a scan of the text finds, in
    /// ascending order of position.
    pub open spec fn occurrences(self) -> Seq<Record> {
        ascending(found_in(self.bytes(), self.candidate))
    }

    /// Where the replacement of the `k`-th of `recs` begins in the rewritten
    /// text: at the position of the record, moved by the net growth of the
    /// replacements before it.
    pub open spec fn moved(self, recs: Seq<Record>, k: int) -> int {
        recs[k].pos + net_growth(recs.take(k), self.put())
    }

    /// In `out`, the replacement of the `k`-th of `recs` stands where
    /// [`TaskView::moved`] says.
    pub open spec fn stands_at(self, recs: Seq<Record>, k: int, out: Seq<u8>) -> bool {
        let new = encode_utf8(replacement(self.rename, self.separator, recs[k].casing));
        &&& 0 <= self.moved(recs, k)
        &&& self.moved(recs, k) + new.len() <= out.len()
        &&& out.subrange(self.moved(recs, k), self.moved(recs, k) + new.len()) == new
    }

    /// The text can be rewritten at `recs`: they fit it, and neither the
    /// text nor the result is longer than a signed 64-bit displacement can
    /// span.
    pub open spec fn admits(self, recs: Seq<Record>) -> bool {
        &&& fits(self.bytes(), recs)
        &&& self.bytes().len() <= i64::MAX
        &&& self.outcome(recs).len() <= i64::MAX
    }
}

/// In the text rewritten at records that lie apart, the replacement of each
/// stands at the position of its record, moved by the signed net growth of
/// the replacements before it.
pub proof fn lemma_outcome_places(task: TaskView, recs: Seq<Record>, k: int)
    requires
        apart(task.bytes(), recs),
        0 <= k < recs.len(),
    ensures
        task.stands_at(recs, k, task.outcome(recs)),
{
    lemma_replacement_position(task.bytes(), recs, task.put(), k);
}

/// In the text rewritten at records that lie apart, what stands in place of
/// each is the replacement rendered as its policy says: a replacement of
/// several words in [`written_in`] of the record's convention, one of a
/// single word in the record's convention itself.
pub proof fn lemma_outcome_follows_policy(task: TaskView, recs: Seq<Record>, k: int)
    requires
        apart(task.bytes(), recs),
        0 <= k < recs.len(),
    ensures
        ({
            let casing = if task.rename.contains(SEPARATOR) {
                written_in(recs[k].casing, task.separator)
            } else {
                recs[k].casing
            };
            &&& rendered(task.rename, casing) matches Ok(form) && task.outcome(recs).subrange(
                task.moved(recs, k),
                task.moved(recs, k) + encode_utf8(form).len(),
            ) == encode_utf8(form)
        }),
{
    lemma_outcome_places(task, recs, k);
    lemma_replacement_policy(task.rename, task.separator, recs[k].casing);
}

/// What a scan finds lies between character boundaries: it fits the text as
/// soon as no two occurrences overlap.
pub proof fn lemma_scan_fits(task: TaskView)
    requires
        task.bytes().len() <= usize::MAX,
    ensures
        fits(task.bytes(), task.occurrences()) <==> apart(task.bytes(), task.occurrences()),
{
    let text = task.bytes();
    let found = found_in(text, task.candidate);
    let recs = task.occurrences();
    vstd::utf8::encode_utf8_valid_utf8(task.text);
    lemma_found_on_boundaries(text, task.candidate);
    lemma_ascending_members(found);
    assert forall|k: int| 0 <= k < recs.len() implies {
        let r = #[trigger] recs[k];
        &&& at_boundary(text, r.pos as int)
        &&& at_boundary(text, r.pos + r.len)
    } by {
        assert(holds(found, recs[k]));
        let p = choose|p: usize| found.contains_key(p) && found[p] == recs[k];
        assert(on_boundaries(text, found[p]));
    }
}

/// In valid UTF-8, a byte that is no continuation byte begins a character.
proof fn lemma_boundary(bytes: Seq<u8>, i: int)
    requires
        valid_utf8(bytes),
        at_boundary(bytes, i),
    ensures
        is_char_boundary(bytes, i),
{
    if i == bytes.len() {
        vstd::utf8::is_char_boundary_start_end_of_seq(bytes);
    } else {
        vstd::utf8::is_char_boundary_iff_not_is_continuation_byte(bytes, i);
    }
}

/// One renaming of one identifier in one text.
#[derive(Debug)]
pub struct Task<'a> {
    candidate: Token,
    rename: Token,
    preferred_casing_separator: CasingSeparator,
    buf: &'a str,
}

impl<'a> View for Task<'a> {
    type V = TaskView;

    closed spec fn view(&self) -> TaskView {
        TaskView {
            candidate: self.candidate@,
            rename: self.rename@,
            separator: self.preferred_casing_separator,
            text: self.buf@,
        }
    }
}

/// The first `n` of `forms` are the token rendered in the first `n`
/// conventions of [`scan_order`], each left out where the token cannot be
/// rendered in it.
spec fn surface_forms(forms: Seq<Option<String>>, token: Seq<char>, n: int) -> bool {
    forall|j: int|
        0 <= j < n ==> match #[trigger] forms[j] {
            Some(s) => rendered(token, scan_order()[j]) == Ok::<Seq<char>, TokenError>(s@),
            None => rendered(token, scan_order()[j]) is Err,
        }
}

/// The conventions of [`scan_order`].
fn casings() -> (r: Vec<Casing>)
    ensures
        r@ == scan_order(),
{
    let mut v: Vec<Casing> = Vec::new();
    v.push(Casing::Lower);
    v.push(Casing::Pascal);
    v.push(Casing::Camel);
    v.push(Casing::Snake);
    v.push(Casing::Upper);
    v.push(Casing::UpperSnake);
    v.push(Casing::Kebab);
    v.push(Casing::UpperKebab);
    assert(v@ =~= scan_order());
    v
}

/// Finds the end of the line that begins at `start`.
fn find_line_end(text: &[u8], start: usize) -> (r: usize)
    requires
        start <= text@.len(),
    ensures
        r == line_end(text@, start as int),
        start <= r <= text@.len(),
{
    let size = text.len();
    let mut i = start;
    while i < size && text[i] != 0x0a
        invariant
            size == text@.len(),
            start <= i <= size,
            line_end(text@, start as int) == line_end(text@, i as int),
        decreases size - i,
    {
        i += 1;
    }
    i
}

impl<'a> Task<'a> {
    /// Sets up the renaming of `candidate` to `rename` in `buf`.
    ///
    /// Fails exactly when one of the two identifiers cannot be read, the
    /// candidate being looked at first.
    pub fn build(candidate: &str, rename: &str, buf: &'a str) -> (r: Result<Self, Error>)
        ensures
            match r {
                Ok(task) => {
                    &&& parsed(candidate@) == Ok::<Seq<char>, Seq<char>>(task@.candidate)
                    &&& parsed(rename@) == Ok::<Seq<char>, Seq<char>>(task@.rename)
                    &&& casing_of(rename@) matches Some(c) && task@.separator
                        == CasingSeparator::of(c)
                    &&& task@.text == buf@
                },
                Err(Error::CandidateCasing(m)) => parsed(candidate@) == Err::<
                    Seq<char>,
                    Seq<char>,
                >(m@),
                Err(Error::RenameCasing(m)) => parsed(candidate@) is Ok && parsed(rename@)
                    == Err::<Seq<char>, Seq<char>>(m@),
                Err(Error::Custom(_)) => false,
            },
    {
        let candidate_token = match Token::parse(candidate) {
            Ok(t) => t,
            Err(Error::Custom(m)) => { return Err(Error::CandidateCasing(m)); },
            Err(e) => { return Err(e); },
        };
        let rename_token = match Token::parse(rename) {
            Ok(t) => t,
            Err(Error::Custom(m)) => { return Err(Error::RenameCasing(m)); },
            Err(e) => { return Err(e); },
        };
        let separator = match Casing::detect_casing(rename) {
            Ok(c) => CasingSeparator::from(c),
            Err(Error::Custom(m)) => { return Err(Error::RenameCasing(m)); },
            Err(e) => { return Err(e); },
        };
        Ok(
            Self {
                candidate: candidate_token,
                rename: rename_token,
                preferred_casing_separator: separator,
                buf,
            },
        )
    }

    /// Scans the text, line by line, for the candidate in every convention
    /// in which it can be rendered. Every record marks a place where the
    /// candidate stands in the text, between two character boundaries.
    #[verifier::rlimit(30)]
    pub fn generate_records(&mut self) -> (r: Records)
        ensures
            *final(self) == *old(self),
            r.wf(),
            r@ == found_in(old(self)@.bytes(), old(self)@.candidate),
            forall|p: usize|
                r@.contains_key(p) ==> marks(
                    old(self)@.bytes(),
                    old(self)@.candidate,
                    p,
                    #[trigger] r@[p],
                ) && on_boundaries(old(self)@.bytes(), r@[p]),
    {
        let mut records = Records::new();
        let casings = casings();
        let mut forms: Vec<Option<String>> = Vec::new();
        for k in 0..8
            invariant
                casings@ == scan_order(),
                forms@.len() == k,
                surface_forms(forms@, self.candidate@, k as int),
        {
            match self.candidate.try_to_casing(&casings[k]) {
                Ok(s) => forms.push(Some(s)),
                Err(_) => forms.push(None),
            }
        }
        let text = self.buf.as_bytes();
        let size = text.len();
        let mut start: usize = 0;
        while start < size
            invariant
                size == text@.len(),
                start <= size,
                records.wf(),
                casings@ == scan_order(),
                forms@.len() == 8,
                surface_forms(forms@, self.candidate@, 8),
                found_in(text@, self.candidate@) == text_found(
                    text@,
                    self.candidate@,
                    start as int,
                    records@,
                ),
            decreases size - start,
        {
            let end = find_line_end(text, start);
            let stop = if end < size && start < end && text[end - 1] == 0x0d {
                end - 1
            } else {
                end
            };
            let ghost line = text@.subrange(start as int, stop as int);
            let ghost before = records@;
            for k in 0..8
                invariant
                    start <= stop <= size,
                    size == text@.len(),
                    records.wf(),
                    casings@ == scan_order(),
                    forms@.len() == 8,
                    line == text@.subrange(start as int, stop as int),
                    surface_forms(forms@, self.candidate@, 8),
                    records@ == line_found(before, line, start as int, self.candidate@, k as nat),
            {
                match &forms[k] {
                    Some(s) => {
                        scan_pattern(
                            &mut records,
                            text,
                            start,
                            stop,
                            s.as_str().as_bytes(),
                            casings[k],
                        );
                    },
                    None => {},
                }
            }
            if end < size {
                start = end + 1;
            } else {
                start = size;
            }
        }
        proof {
            vstd::utf8::encode_utf8_valid_utf8(self.buf@);
            lemma_found_is_sound(text@, self.candidate@);
            lemma_found_on_boundaries(text@, self.candidate@);
        }
        records
    }

    /// What is written in place of an occurrence found in `casing`.
    pub fn replacement(&self, casing: &Casing) -> (r: String)
        ensures
            r@ == replacement(self@.rename, self@.separator, *casing),
    {
        match self.rename.try_to_casing(casing) {
            Ok(s) => s,
            Err(TokenError::AmbiguousToLowerCase) => match self.preferred_casing_separator {
                CasingSeparator::NoSeparator => self.rename.to_camel_case(),
                CasingSeparator::Underscore => self.rename.to_snake_case(),
                CasingSeparator::Hyphen => self.rename.to_kebab_case(),
            },
            Err(TokenError::AmbiguousToUpperCase) => match self.preferred_casing_separator {
                CasingSeparator::NoSeparator => self.rename.to_upper_snake_case(),
                CasingSeparator::Underscore => self.rename.to_upper_snake_case(),
                CasingSeparator::Hyphen => self.rename.to_upper_kebab_case(),
            },
        }
    }

    /// Whether the text can be rewritten at `records`.
    #[verifier::rlimit(30)]
    pub fn can_process(&self, records: &Records) -> (r: bool)
        ensures
            r == self@.admits(ascending(records@)),
    {
        let entries = records.entries();
        let text = self.buf.as_bytes();
        let size = text.len();
        let n = entries.len();
        let limit: u64 = 0x7fff_ffff_ffff_ffff;
        if size as u64 > limit {
            return false;
        }
        let ghost put = self@.put();
        let ghost recs = entries@;
        let mut cursor: usize = 0;
        let mut written: u64 = 0;
        let mut k: usize = 0;
        assert(recs.take(0) =~= Seq::<Record>::empty());
        while k < n
            invariant
                n == recs.len(),
                recs == entries@,
                recs == ascending(records@),
                text@ == self@.bytes(),
                put == self@.put(),
                size == text@.len(),
                size <= limit,
                limit == i64::MAX,
                k <= n,
                fits(text@, recs.take(k as int)),
                cursor == reach(recs.take(k as int)),
                cursor <= size,
                written == front(text@, recs.take(k as int), put).len(),
                written <= limit,
            decreases n - k,
        {
            let record = entries[k];
            proof {
                lemma_fits_next(text@, recs, put, k as int);
            }
            if record.pos < cursor || record.pos > size || record.len > size - record.pos {
                return false;
            }
            let stop = record.pos + record.len;
            if !starts_character(text, record.pos) || !starts_character(text, stop) {
                return false;
            }
            let new = self.replacement(&record.casing);
            let width = new.as_str().as_bytes().len();
            let kept = record.pos - cursor;
            assert(put(record.casing) == encode_utf8(new@));
            if kept as u64 > limit - written || width as u64 > limit - written - kept as u64 {
                return false;
            }
            written = written + kept as u64 + width as u64;
            cursor = stop;
            k += 1;
        }
        assert(recs.take(n as int) == recs);
        (size - cursor) as u64 <= limit - written
    }

    /// Rewrites the text: every record, in ascending order of position, is
    /// replaced by the new identifier in the record's convention.
    ///
    /// The records must fit the text, and neither the text nor the result
    /// may be longer than a signed 64-bit displacement can span:
    /// [`Task::can_process`] tells.
    #[verifier::rlimit(30)]
    pub fn process_records(&mut self, records: &mut Records) -> (r: String)
        requires
            old(self)@.admits(ascending(old(records)@)),
        ensures
            *final(self) == *old(self),
            *final(records) == *old(records),
            encode_utf8(r@) == old(self)@.outcome(ascending(old(records)@)),
            forall|k: int|
                0 <= k < ascending(old(records)@).len() ==> #[trigger] old(self)@.stands_at(
                    ascending(old(records)@),
                    k,
                    encode_utf8(r@),
                ),
    {
        let entries = records.entries();
        let mut buf = self.buf.to_owned();
        let mut offset = Offset { delta: 0 };
        let ghost text = self@.bytes();
        let ghost put = self@.put();
        let ghost recs = entries@;
        let n = entries.len();
        let size = self.buf.as_bytes().len();
        let mut k: usize = 0;
        assert(recs.take(0) =~= Seq::<Record>::empty());
        assert(text.subrange(0, text.len() as int) =~= text);
        assert(front(text, recs.take(0), put) + text == text);
        while k < n
            invariant
                n == recs.len(),
                recs == entries@,
                text == self@.bytes(),
                put == self@.put(),
                k <= n,
                fits(text, recs),
                text.len() == size,
                text.len() <= i64::MAX,
                rewritten(text, recs, put).len() <= i64::MAX,
                encode_utf8(buf@) == front(text, recs.take(k as int), put) + text.subrange(
                    reach(recs.take(k as int)),
                    text.len() as int,
                ),
                offset@ == front(text, recs.take(k as int), put).len() - reach(
                    recs.take(k as int),
                ),
            decreases n - k,
        {
            let record = entries[k];
            let rename = self.replacement(&record.casing);
            // the buffer is in memory: its length bounds the positions below
            let held = buf.as_str().as_bytes().len();
            let width = rename.as_str().as_bytes().len();
            proof {
                let cur = encode_utf8(buf@);
                assert(cur.len() == held);
                lemma_step(text, recs, put, k as int, cur);
                assert(put(record.casing) == encode_utf8(rename@));
                vstd::utf8::encode_utf8_valid_utf8(buf@);
                lemma_boundary(cur, record.pos + offset@);
                lemma_boundary(cur, record.pos + record.len + offset@);
            }
            let start = offset.apply(record.pos);
            let end = offset.apply(record.pos + record.len);
            replace_range(&mut buf, start, end, rename.as_str());
            offset = Offset::add(offset, Offset::from_diff(width, record.len));
            k += 1;
        }
        assert(recs.take(n as int) == recs);
        assert forall|k: int| 0 <= k < recs.len() implies #[trigger] self@.stands_at(
            recs,
            k,
            encode_utf8(buf@),
        ) by {
            lemma_outcome_places(self@, recs, k);
        }
        buf
    }

    /// Scans the text and rewrites it at every occurrence found.
    ///
    /// Gives nothing where the text cannot be rewritten at what the scan
    /// found: where two occurrences in different conventions overlap, or
    /// the text or the result is too long.
    pub fn rewrite(&mut self) -> (r: Option<String>)
        ensures
            *final(self) == *old(self),
            match r {
                Some(s) => {
                    &&& old(self)@.admits(old(self)@.occurrences())
                    &&& encode_utf8(s@) == old(self)@.outcome(old(self)@.occurrences())
                },
                None => !old(self)@.admits(old(self)@.occurrences()),
            },
    {
        let mut records = self.generate_records();
        if self.can_process(&records) {
            Some(self.process_records(&mut records))
        } else {
            None
        }
    }
}

} // verus!
