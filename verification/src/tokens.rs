//! The layout-time tokens of master-page text — `{page}`, `{section}`, `{heading:N}` — and the one
//! parser that finds them.
//!
//! The resolver and the font-subset collector both find tokens through [`StaticToken::scan`], so
//! the two cannot disagree about what a token is; a `{…}` group that spells no token prints
//! literally.

use std::collections::BTreeSet;
use std::ops::Range;
use vstd::prelude::*;
use vstd::string::StringSliceAdditionalSpecFns;
use crate::model::{alphabets, alphabets_of, TokenText};
use crate::numbering::NumberFormat;
use crate::resolve::string_views;
use crate::numbering::{decimal_digits, push_decimal};

verus! {

/// The page-number token.
pub const PAGE_TOKEN: &'static str = "{page}";

/// The section-name token.
pub const SECTION_TOKEN: &'static str = "{section}";

/// The opening of the heading token: `{heading:1}`, `{heading:2}`, …
pub const HEADING_TOKEN_PREFIX: &'static str = "{heading:";

/// A token in master-page text, resolved when the page is laid out.
#[derive(Debug, Clone, Copy, PartialEq, Eq, PartialOrd, Ord, Hash, Structural)]
pub enum StaticToken {
    /// `{page}` — the page's folio.
    Page,
    /// `{section}` — the name of the section the page belongs to.
    Section,
    /// `{heading:N}` — the text of the last heading of level ≤ `N` at or before this page.
    Heading { level: u8 },
}

/// The value of a run of ASCII digit bytes.
pub open spec fn byte_digits_value(s: Seq<u8>) -> nat
    decreases s.len(),
{
    if s.len() == 0 {
        0
    } else {
        byte_digits_value(s.drop_last()) * 10 + (s.last() - 48) as nat
    }
}

/// Whether every byte of `s` is an ASCII digit.
pub open spec fn all_digit_bytes(s: Seq<u8>) -> bool {
    forall|i: int| 0 <= i < s.len() ==> 48 <= #[trigger] s[i] <= 57
}

/// What std's `u8` parse gives for these bytes: an optional `+`, then one or more ASCII digits
/// whose value is at most 255.
pub open spec fn parse_u8_spec(s: Seq<u8>) -> Option<u8> {
    let digits = if s.len() > 0 && s[0] == 43 { s.drop_first() } else { s };
    if digits.len() > 0 && all_digit_bytes(digits) && byte_digits_value(digits) <= 255 {
        Some(byte_digits_value(digits) as u8)
    } else {
        None
    }
}

/// The token one whole `{…}` group spells, if any.
pub open spec fn parse_token_spec(group: Seq<u8>) -> Option<StaticToken> {
    let prefix = HEADING_TOKEN_PREFIX.spec_bytes();
    if group == PAGE_TOKEN.spec_bytes() {
        Some(StaticToken::Page)
    } else if group == SECTION_TOKEN.spec_bytes() {
        Some(StaticToken::Section)
    } else if prefix.len() < group.len() && group.subrange(0, prefix.len() as int) == prefix
        && group.last() == 125
    {
        match parse_u8_spec(group.subrange(prefix.len() as int, group.len() - 1)) {
            Some(level) => Some(StaticToken::Heading { level }),
            None => None,
        }
    } else {
        None
    }
}

/// The first position at or after `from` holding byte `x`.
pub open spec fn next_byte(b: Seq<u8>, x: u8, from: int) -> Option<int>
    decreases b.len() - from,
{
    if from < 0 || from >= b.len() {
        None
    } else if b[from] == x {
        Some(from)
    } else {
        next_byte(b, x, from + 1)
    }
}

/// What [`next_byte`] finds: the first position holding the byte, or proof there is none.
pub proof fn lemma_next_byte(b: Seq<u8>, x: u8, from: int)
    ensures
        match next_byte(b, x, from) {
            Some(i) => from <= i < b.len() && 0 <= i && b[i] == x
                && forall|j: int| from <= j < i ==> b[j] != x,
            None => from >= 0 ==> forall|j: int| from <= j < b.len() ==> b[j] != x,
        },
    decreases b.len() - from,
{
    if 0 <= from < b.len() && b[from] != x {
        lemma_next_byte(b, x, from + 1);
    }
}

/// Every token in `b` from `cursor` on, as (start, end, token): each `{` opens a group that runs
/// to the next `}`; a group that spells a token is reported, and scanning resumes after the group.
pub open spec fn scan_spec(b: Seq<u8>, cursor: int) -> Seq<(int, int, StaticToken)>
    decreases b.len() - cursor,
{
    match next_byte(b, 123, cursor) {
        Some(start) => match next_byte(b, 125, start) {
            Some(close) => {
                proof {
                    lemma_next_byte(b, 123, cursor);
                    lemma_next_byte(b, 125, start);
                }
                let rest = scan_spec(b, close + 1);
                match parse_token_spec(b.subrange(start, close + 1)) {
                    Some(token) => seq![(start, close + 1, token)] + rest,
                    None => rest,
                }
            },
            None => Seq::empty(),
        },
        None => Seq::empty(),
    }
}

/// Token spans as plain numbers.
pub open spec fn spans(v: Seq<(Range<usize>, StaticToken)>) -> Seq<(int, int, StaticToken)> {
    v.map_values(|e: (Range<usize>, StaticToken)| (e.0.start as int, e.0.end as int, e.1))
}

fn find_byte(b: &[u8], x: u8, from: usize) -> (r: Option<usize>)
    ensures
        match r {
            Some(i) => next_byte(b@, x, from as int) == Some(i as int),
            None => next_byte(b@, x, from as int) is None,
        },
{
    let mut i: usize = from;
    while i < b.len()
        invariant
            from <= i,
            next_byte(b@, x, from as int) == next_byte(b@, x, i as int),
        decreases b.len() - i,
    {
        if b[i] == x {
            return Some(i);
        }
        i = i + 1;
    }
    None
}

/// Whether `b[start..end]` equals `t`.
fn bytes_equal_at(b: &[u8], start: usize, end: usize, t: &[u8]) -> (r: bool)
    requires
        start <= end <= b@.len(),
    ensures
        r == (b@.subrange(start as int, end as int) == t@),
{
    if end - start != t.len() {
        return false;
    }
    let mut i: usize = 0;
    while i < t.len()
        invariant
            end - start == t@.len(),
            start <= end <= b@.len(),
            0 <= i <= t@.len(),
            b@.subrange(start as int, start + i) == t@.subrange(0, i as int),
        decreases t.len() - i,
    {
        if b[start + i] != t[i] {
            assert(b@.subrange(start as int, end as int)[i as int] != t@[i as int]);
            return false;
        }
        i = i + 1;
        assert(b@.subrange(start as int, start + i) =~= t@.subrange(0, i as int));
    }
    assert(t@.subrange(0, t@.len() as int) =~= t@);
    true
}

proof fn lemma_byte_digits_grow(s: Seq<u8>, k: int)
    requires
        0 <= k <= s.len(),
        all_digit_bytes(s),
    ensures
        byte_digits_value(s.subrange(0, k)) <= byte_digits_value(s),
    decreases s.len() - k,
{
    if k < s.len() {
        let next = s.subrange(0, k + 1);
        assert(next.drop_last() =~= s.subrange(0, k));
        assert(48 <= s[k] <= 57);
        lemma_byte_digits_grow(s, k + 1);
    } else {
        assert(s.subrange(0, k) =~= s);
    }
}

/// `b[start..end]` read as a `u8`, as std's `str::parse::<u8>` reads it.
fn parse_u8_at(b: &[u8], start: usize, end: usize) -> (r: Option<u8>)
    requires
        start <= end <= b@.len(),
    ensures
        r == parse_u8_spec(b@.subrange(start as int, end as int)),
{
    let ghost s = b@.subrange(start as int, end as int);
    let first: usize = if start < end && b[start] == 43 { start + 1 } else { start };
    let ghost digits = if s.len() > 0 && s[0] == 43 { s.drop_first() } else { s };
    assert(digits =~= b@.subrange(first as int, end as int));
    if first >= end {
        return None;
    }
    let mut value: u32 = 0;
    let mut i: usize = first;
    while i < end
        invariant
            first <= i <= end <= b@.len(),
            s == b@.subrange(start as int, end as int),
            digits == b@.subrange(first as int, end as int),
            digits == (if s.len() > 0 && s[0] == 43 { s.drop_first() } else { s }),
            all_digit_bytes(b@.subrange(first as int, i as int)),
            value as nat == byte_digits_value(b@.subrange(first as int, i as int)),
            value <= 255,
        decreases end - i,
    {
        let c = b[i];
        let ghost prefix = b@.subrange(first as int, i + 1);
        assert(prefix.drop_last() =~= b@.subrange(first as int, i as int));
        if c < 48 || c > 57 {
            assert(digits[i - first] == c);
            return None;
        }
        assert(all_digit_bytes(prefix)) by {
            assert forall|k: int| 0 <= k < prefix.len() implies 48 <= #[trigger] prefix[k] <= 57 by {
                if k < prefix.len() - 1 {
                    assert(prefix[k] == b@.subrange(first as int, i as int)[k]);
                }
            }
        }
        value = value * 10 + (c - 48) as u32;
        if value > 255 {
            proof {
                assert(all_digit_bytes(digits) ==> byte_digits_value(digits) > 255) by {
                    if all_digit_bytes(digits) {
                        assert(prefix =~= digits.subrange(0, i + 1 - first));
                        lemma_byte_digits_grow(digits, i + 1 - first);
                    }
                }
            }
            return None;
        }
        i = i + 1;
    }
    Some(value as u8)
}

/// The token `b[start..end]` spells, if any.
fn parse_token_at(b: &[u8], start: usize, end: usize) -> (r: Option<StaticToken>)
    requires
        start <= end <= b@.len(),
    ensures
        r == parse_token_spec(b@.subrange(start as int, end as int)),
{
    let ghost group = b@.subrange(start as int, end as int);
    if bytes_equal_at(b, start, end, PAGE_TOKEN.as_bytes()) {
        return Some(StaticToken::Page);
    }
    if bytes_equal_at(b, start, end, SECTION_TOKEN.as_bytes()) {
        return Some(StaticToken::Section);
    }
    let prefix = HEADING_TOKEN_PREFIX.as_bytes();
    if prefix.len() < end - start && bytes_equal_at(b, start, start + prefix.len(), prefix) && b[end - 1] == 125 {
        assert(b@.subrange(start as int, start + prefix@.len()) =~= group.subrange(0, prefix@.len() as int));
        assert(b@.subrange(start + prefix@.len(), end - 1) =~= group.subrange(prefix@.len() as int, group.len() - 1));
        match parse_u8_at(b, start + prefix.len(), end - 1) {
            Some(level) => Some(StaticToken::Heading { level }),
            None => None,
        }
    } else {
        proof {
            if prefix@.len() < group.len() && group.subrange(0, prefix@.len() as int) == prefix@ {
                assert(b@.subrange(start as int, start + prefix@.len()) =~= group.subrange(0, prefix@.len() as int));
            }
        }
        None
    }
}

impl StaticToken {
    /// One whole `{…}` group, or `None` if it spells no token.
    pub fn parse(whole: &str) -> (r: Option<StaticToken>)
        ensures
            r == parse_token_spec(whole.spec_bytes()),
    {
        let b = whole.as_bytes();
        assert(b@.subrange(0, b@.len() as int) =~= b@);
        parse_token_at(b, 0, b.len())
    }

    /// Every token occurrence in `text`, in order, as (byte range, token).
    ///
    /// A `{…}` group whose body is not a token this build knows is left alone and prints literally.
    pub fn scan(text: &str) -> (out: Vec<(Range<usize>, StaticToken)>)
        ensures
            spans(out@) == scan_spec(text.spec_bytes(), 0),
    {
        let b = text.as_bytes();
        let mut out: Vec<(Range<usize>, StaticToken)> = Vec::new();
        let mut cursor: usize = 0;
        while cursor < b.len()
            invariant
                b@ == text.spec_bytes(),
                cursor <= b@.len(),
                spans(out@) + scan_spec(b@, cursor as int) == scan_spec(b@, 0),
            ensures
                spans(out@) == scan_spec(b@, 0),
            decreases b.len() - cursor,
        {
            let start = match find_byte(b, 123, cursor) {
                Some(s) => s,
                None => {
                    assert(scan_spec(b@, cursor as int) =~= Seq::<(int, int, StaticToken)>::empty());
                    assert(spans(out@) =~= spans(out@) + scan_spec(b@, cursor as int));
                    break;
                },
            };
            proof {
                lemma_next_byte(b@, 123, cursor as int);
            }
            let close = match find_byte(b, 125, start) {
                Some(c) => c,
                None => {
                    assert(scan_spec(b@, cursor as int) =~= Seq::<(int, int, StaticToken)>::empty());
                    assert(spans(out@) =~= spans(out@) + scan_spec(b@, cursor as int));
                    break;
                },
            };
            proof {
                lemma_next_byte(b@, 125, start as int);
            }
            let end = close + 1;
            let ghost before = spans(out@);
            match parse_token_at(b, start, end) {
                Some(token) => {
                    out.push((start..end, token));
                    assert(spans(out@) =~= before.push((start as int, end as int, token)));
                    assert(seq![(start as int, end as int, token)] + scan_spec(b@, end as int)
                        =~= scan_spec(b@, cursor as int));
                    assert(spans(out@) + scan_spec(b@, end as int) =~= before + scan_spec(b@, cursor as int));
                },
                None => {},
            }
            cursor = end;
        }
        out
    }

    /// Everything this token can draw — what the font-subset collector must carry — given the
    /// numeral formats the document's folios use, its section names, and its headings as
    /// (level, text) in document order.
    pub fn contributes(
        &self,
        folio_formats: &[NumberFormat],
        section_names: &[String],
        headings: &[(u8, String)],
    ) -> (t: TokenText)
        ensures
            match *self {
                StaticToken::Page => t.runs@.len() == 0 && t.chars@ == alphabets_of(folio_formats@),
                StaticToken::Section => string_views(t.runs@) == string_views(section_names@)
                    && t.chars@ == Set::<char>::empty(),
                StaticToken::Heading { level } => string_views(t.runs@) == heading_texts(headings@, level)
                    && t.chars@ == Set::<char>::empty(),
            },
    {
        match self {
            StaticToken::Page => TokenText { runs: Vec::new(), chars: alphabets(folio_formats) },
            StaticToken::Section => {
                let mut runs: Vec<String> = Vec::new();
                let mut i: usize = 0;
                while i < section_names.len()
                    invariant
                        0 <= i <= section_names@.len(),
                        string_views(runs@) == string_views(section_names@.subrange(0, i as int)),
                    decreases section_names.len() - i,
                {
                    let ghost before = string_views(runs@);
                    runs.push(section_names[i].clone());
                    assert(string_views(runs@) =~= before.push(section_names@[i as int]@));
                    i = i + 1;
                    assert(section_names@.subrange(0, i as int) =~= section_names@.subrange(0, i - 1).push(section_names@[i - 1]));
                    assert(string_views(section_names@.subrange(0, i as int)) =~= string_views(section_names@.subrange(0, i - 1)).push(section_names@[i - 1]@));
                }
                assert(section_names@.subrange(0, section_names@.len() as int) =~= section_names@);
                TokenText { runs, chars: BTreeSet::new() }
            },
            StaticToken::Heading { level } => {
                let mut runs: Vec<String> = Vec::new();
                let mut i: usize = 0;
                while i < headings.len()
                    invariant
                        0 <= i <= headings@.len(),
                        string_views(runs@) == heading_texts(headings@.subrange(0, i as int), *level),
                    decreases headings.len() - i,
                {
                    let ghost sub = headings@.subrange(0, i + 1);
                    assert(sub.drop_last() =~= headings@.subrange(0, i as int));
                    if headings[i].0 <= *level {
                        let ghost before = string_views(runs@);
                        runs.push(headings[i].1.clone());
                        assert(string_views(runs@) =~= before.push(headings@[i as int].1@));
                        assert(string_views(runs@) =~= heading_texts(sub, *level));
                    }
                    i = i + 1;
                }
                assert(headings@.subrange(0, headings@.len() as int) =~= headings@);
                TokenText { runs, chars: BTreeSet::new() }
            },
        }
    }
}

/// The texts of the headings of level at most `level`, in order.
pub open spec fn heading_texts(headings: Seq<(u8, String)>, level: u8) -> Seq<Seq<char>>
    decreases headings.len(),
{
    if headings.len() == 0 {
        Seq::empty()
    } else {
        let rest = heading_texts(headings.drop_last(), level);
        if headings.last().0 <= level { rest.push(headings.last().1@) } else { rest }
    }
}

/// The paragraph style a contents entry at heading level `level` is set in: `toc-1`..`toc-6`.
pub fn toc_entry_style_name(level: u8) -> (s: String)
    ensures
        s@ == seq!['t', 'o', 'c', '-'] + decimal_digits(clamp_level(level) as nat),
{
    let mut out: Vec<char> = vec!['t', 'o', 'c', '-'];
    assert(out@ =~= seq!['t', 'o', 'c', '-']);
    push_decimal(clamp_level_exec(level) as u32, &mut out);
    crate::text::string_from_chars(&out)
}

/// The paragraph style a heading of level `level` is set in: `h1`..`h6`.
pub fn heading_style_name(level: u8) -> (s: String)
    ensures
        s@ == seq!['h'] + decimal_digits(clamp_level(level) as nat),
{
    let mut out: Vec<char> = vec!['h'];
    assert(out@ =~= seq!['h']);
    push_decimal(clamp_level_exec(level) as u32, &mut out);
    crate::text::string_from_chars(&out)
}

/// A heading level held to `1..=6`.
pub open spec fn clamp_level(level: u8) -> u8 {
    if level < 1 { 1 } else if level > 6 { 6 } else { level }
}

fn clamp_level_exec(level: u8) -> (r: u8)
    ensures
        r == clamp_level(level),
{
    if level < 1 { 1 } else if level > 6 { 6 } else { level }
}

} // verus!
