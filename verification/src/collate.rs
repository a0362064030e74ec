//! **The quill index collation** — the rule an index's terms are filed in.
//!
//! A term's key is four levels, compared in order and each lexicographically:
//!
//! 1. **Primary** — the base letters. Case and diacritics are folded away, and everything that is
//!    neither a letter nor a digit is ignored entirely. Digits sort before letters.
//! 2. **Secondary** — the accents that were folded away.
//! 3. **Tertiary** — case, lower before upper.
//! 4. **The term itself**, so the order is total.
//!
//! Diacritic folding covers U+00C0–U+024F plus the ligatures and stroked letters that have no
//! decomposition; outside that range a character keeps its own lower-cased self.

use vstd::prelude::*;
use crate::model::IndexMark;
use crate::text::{
    char_alphabetic, char_lowercase, char_numeric, char_uppercase, char_whitespace, is_alphabetic,
    is_numeric, is_uppercase, is_whitespace, skip_leading_whitespace, str_chars, to_lowercase,
    first_position, lemma_first_position_extends, starts_with,
};

verus! {

/// Characters that fold to a single ASCII base letter (U+00C0–U+024F, by canonical decomposition).
pub const FOLD_FROM: &'static str = "ÀÁÂÃÄÅÇÈÉÊËÌÍÎÏÑÒÓÔÕÖÙÚÛÜÝàáâãäåçèéêëìíîïñòóôõöùúûüýÿĀāĂăĄąĆ\
ćĈĉĊċČčĎďĒēĔĕĖėĘęĚěĜĝĞğĠġĢģĤĥĨĩĪīĬĭĮįİĴĵĶķĹĺĻļĽľŃńŅņŇňŌōŎŏŐő\
ŔŕŖŗŘřŚśŜŝŞşŠšŢţŤťŨũŪūŬŭŮůŰűŲųŴŵŶŷŸŹźŻżŽžƠơƯưǍǎǏǐǑǒǓǔǕǖǗǘǙǚǛ\
ǜǞǟǠǡǦǧǨǩǪǫǬǭǰǴǵǸǹǺǻȀȁȂȃȄȅȆȇȈȉȊȋȌȍȎȏȐȑȒȓȔȕȖȗȘșȚțȞȟȦȧȨȩȪȫȬȭȮȯ\
ȰȱȲȳ";

/// What each character of [`FOLD_FROM`] folds to, position for position.
pub const FOLD_TO: &'static str = "aaaaaaceeeeiiiinooooouuuuyaaaaaaceeeeiiiinooooouuuuyyaaaaaac\
cccccccddeeeeeeeeeegggggggghhiiiiiiiiijjkkllllllnnnnnnoooooo\
rrrrrrssssssssttttuuuuuuuuuuuuwwyyyzzzzzzoouuaaiioouuuuuuuuu\
uaaaaggkkoooojggnnaaaaaaeeeeiiiioooorrrruuuusstthhaaeeoooooo\
ooyy";

/// Letters with no canonical decomposition, and the letters they file as: a ligature is two
/// letters, a stroked letter is its base.
pub open spec fn special_fold(c: char) -> Option<Seq<char>> {
    if c == 'Æ' || c == 'æ' || c == 'Ǽ' || c == 'ǽ' || c == 'Ǣ' || c == 'ǣ' {
        Some(seq!['a', 'e'])
    } else
    if c == 'Œ' || c == 'œ' {
        Some(seq!['o', 'e'])
    } else
    if c == 'ß' {
        Some(seq!['s', 's'])
    } else
    if c == 'Þ' || c == 'þ' {
        Some(seq!['t', 'h'])
    } else
    if c == 'Ð' || c == 'ð' || c == 'Đ' || c == 'đ' {
        Some(seq!['d'])
    } else
    if c == 'Ø' || c == 'ø' || c == 'Ǿ' || c == 'ǿ' {
        Some(seq!['o'])
    } else
    if c == 'Ł' || c == 'ł' {
        Some(seq!['l'])
    } else
    if c == 'Ħ' || c == 'ħ' {
        Some(seq!['h'])
    } else
    if c == 'Ŧ' || c == 'ŧ' {
        Some(seq!['t'])
    } else
    if c == 'Ŋ' || c == 'ŋ' {
        Some(seq!['n'])
    } else
    if c == 'Ĳ' || c == 'ĳ' {
        Some(seq!['i', 'j'])
    } else
    if c == 'ı' {
        Some(seq!['i'])
    } else
    if c == 'ſ' {
        Some(seq!['s'])
    } else {
        None
    }
}

fn special_fold_exec(c: char) -> (r: Option<Vec<char>>)
    ensures
        match r {
            Some(v) => special_fold(c) == Some(v@),
            None => special_fold(c) is None,
        },
{
    match c {
        'Æ' | 'æ' | 'Ǽ' | 'ǽ' | 'Ǣ' | 'ǣ' => {
            let v: Vec<char> = vec!['a', 'e'];
            assert(v@ =~= seq!['a', 'e']);
            Some(v)
        },
        'Œ' | 'œ' => {
            let v: Vec<char> = vec!['o', 'e'];
            assert(v@ =~= seq!['o', 'e']);
            Some(v)
        },
        'ß' => {
            let v: Vec<char> = vec!['s', 's'];
            assert(v@ =~= seq!['s', 's']);
            Some(v)
        },
        'Þ' | 'þ' => {
            let v: Vec<char> = vec!['t', 'h'];
            assert(v@ =~= seq!['t', 'h']);
            Some(v)
        },
        'Ð' | 'ð' | 'Đ' | 'đ' => {
            let v: Vec<char> = vec!['d'];
            assert(v@ =~= seq!['d']);
            Some(v)
        },
        'Ø' | 'ø' | 'Ǿ' | 'ǿ' => {
            let v: Vec<char> = vec!['o'];
            assert(v@ =~= seq!['o']);
            Some(v)
        },
        'Ł' | 'ł' => {
            let v: Vec<char> = vec!['l'];
            assert(v@ =~= seq!['l']);
            Some(v)
        },
        'Ħ' | 'ħ' => {
            let v: Vec<char> = vec!['h'];
            assert(v@ =~= seq!['h']);
            Some(v)
        },
        'Ŧ' | 'ŧ' => {
            let v: Vec<char> = vec!['t'];
            assert(v@ =~= seq!['t']);
            Some(v)
        },
        'Ŋ' | 'ŋ' => {
            let v: Vec<char> = vec!['n'];
            assert(v@ =~= seq!['n']);
            Some(v)
        },
        'Ĳ' | 'ĳ' => {
            let v: Vec<char> = vec!['i', 'j'];
            assert(v@ =~= seq!['i', 'j']);
            Some(v)
        },
        'ı' => {
            let v: Vec<char> = vec!['i'];
            assert(v@ =~= seq!['i']);
            Some(v)
        },
        'ſ' => {
            let v: Vec<char> = vec!['s'];
            assert(v@ =~= seq!['s']);
            Some(v)
        },
        _ => None,
    }
}

/// What `c` files as, or `None` if it files as itself lower-cased.
pub open spec fn fold_spec(c: char) -> Option<Seq<char>> {
    match special_fold(c) {
        Some(s) => Some(s),
        None => match first_position(FOLD_FROM@, c, FOLD_FROM@.len() as int) {
            Some(i) => if i < FOLD_TO@.len() { Some(seq![FOLD_TO@[i]]) } else { None },
            None => None,
        },
    }
}

fn fold(c: char) -> (r: Option<Vec<char>>)
    ensures
        match r {
            Some(v) => fold_spec(c) == Some(v@),
            None => fold_spec(c) is None,
        },
{
    let special = special_fold_exec(c);
    if special.is_some() {
        return special;
    }
    let from = str_chars(FOLD_FROM);
    let to = str_chars(FOLD_TO);
    let mut i: usize = 0;
    while i < from.len()
        invariant
            0 <= i <= from.len(),
            from@ == FOLD_FROM@,
            to@ == FOLD_TO@,
            first_position(from@, c, i as int) is None,
            special_fold(c) is None,
        decreases from.len() - i,
    {
        if from[i] == c {
            proof {
                assert(from@[i as int] == c);
                reveal_with_fuel(first_position, 2);
                assert(first_position(from@, c, i as int + 1) == Some(i as int));
                lemma_first_position_extends(from@, c, i as int + 1, from.len() as int);
            }
            if i < to.len() {
                let v: Vec<char> = vec![to[i]];
                assert(v@ =~= seq![FOLD_TO@[i as int]]);
                return Some(v);
            }
            return None;
        }
        i = i + 1;
    }
    None
}

/// The class tag of a digit's primary weight: digits sort before letters.
const CLASS_DIGIT: u32 = 16777216;
/// The class tag of a letter's primary weight.
const CLASS_LETTER: u32 = 33554432;

/// The primary weight of one already-folded, already-lower-cased character: class-tagged for a
/// digit or a letter, and `None` — ignored entirely — for anything else.
pub open spec fn primary_weight_spec(c: char) -> Option<u32> {
    if char_numeric(c) {
        Some((16777216 + (c as u32)) as u32)
    } else if char_alphabetic(c) {
        Some((33554432 + (c as u32)) as u32)
    } else {
        None
    }
}

fn primary_weight(c: char) -> (w: Option<u32>)
    ensures
        w == primary_weight_spec(c),
{
    let v: u32 = c as u32;
    if is_numeric(c) {
        Some(CLASS_DIGIT + v)
    } else if is_alphabetic(c) {
        Some(CLASS_LETTER + v)
    } else {
        None
    }
}

/// What one character of a term's filing text expands to: its fold, or its lower case.
pub open spec fn bases_of(c: char) -> Seq<char> {
    match fold_spec(c) {
        Some(base) => base,
        None => char_lowercase(c),
    }
}

/// One key level's contribution from character `c` of the filing text: one entry per base letter
/// that has a primary weight.
///
/// `level` selects which level: 0 primary, 1 secondary, 2 tertiary. The accent is recorded once,
/// against the first of the letters a fold expands to.
pub open spec fn expand(c: char, bases: Seq<char>, level: int) -> Seq<u32>
    decreases bases.len(),
{
    if bases.len() == 0 {
        Seq::empty()
    } else {
        let i = bases.len() - 1;
        let b = bases[i];
        let prev = expand(c, bases.drop_last(), level);
        match primary_weight_spec(b) {
            Some(w) => prev.push(
                if level == 0 {
                    w
                } else if level == 1 {
                    if fold_spec(c) is Some && i == 0 { c as u32 } else { 0 }
                } else {
                    if char_uppercase(c) { 1 } else { 0 }
                },
            ),
            None => prev,
        }
    }
}

/// A key level for a whole filing text.
pub open spec fn key_level(text: Seq<char>, level: int) -> Seq<u32>
    decreases text.len(),
{
    if text.len() == 0 {
        Seq::empty()
    } else {
        key_level(text.drop_last(), level) + expand(text.last(), bases_of(text.last()), level)
    }
}

/// The tertiary level as bytes.
pub open spec fn tertiary_bytes(text: Seq<char>) -> Seq<u8> {
    key_level(text, 2).map_values(|v: u32| v as u8)
}

/// The term lowered character by character.
pub open spec fn lower_all(s: Seq<char>) -> Seq<char>
    decreases s.len(),
{
    if s.len() == 0 {
        Seq::empty()
    } else {
        lower_all(s.drop_last()) + char_lowercase(s.last())
    }
}

/// Whether `c` may follow a leading article: a space or an apostrophe.
pub open spec fn article_boundary(c: char) -> bool {
    char_whitespace(c) || c == '\'' || c == '\u{2019}'
}

/// The character length of the longest of the first `n` declared articles that `term` starts with
/// (compared case-folded) and that is followed by a space or an apostrophe; the earliest of equal
/// lengths.
pub open spec fn best_article(term: Seq<char>, articles: Seq<String>, n: int) -> Option<nat>
    decreases n,
{
    if n <= 0 {
        None
    } else {
        let best = best_article(term, articles, n - 1);
        let a = lower_all(articles[n - 1]@);
        let folded = lower_all(term);
        let len = a.len();
        if a.len() == 0 || !(a.len() <= folded.len() && folded.subrange(0, a.len() as int) == a)
            || len >= term.len() || !article_boundary(term[len as int])
        {
            best
        } else {
            match best {
                Some(b) => if len > b { Some(len) } else { best },
                None => Some(len),
            }
        }
    }
}

/// The term with the longest declared leading article removed, or `None` if none applies or
/// nothing would be left.
pub open spec fn strip_article_spec(term: Seq<char>, articles: Seq<String>) -> Option<Seq<char>> {
    match best_article(term, articles, articles.len() as int) {
        Some(len) => {
            let rest = skip_leading_whitespace(term.subrange((len + 1) as int, term.len() as int));
            if rest.len() == 0 { None } else { Some(rest) }
        },
        None => None,
    }
}

/// The text a mark files under: its `sort_as`, else the term less any declared leading article.
pub open spec fn sort_text_spec(mark: IndexMark, articles: Seq<String>) -> Seq<char> {
    match mark.sort_as {
        Some(s) => s@,
        None => match strip_article_spec(mark.term@, articles) {
            Some(rest) => rest,
            None => mark.term@,
        },
    }
}

fn lower_chars(s: &[char]) -> (out: Vec<char>)
    ensures
        out@ == lower_all(s@),
{
    let mut out: Vec<char> = Vec::new();
    let mut i: usize = 0;
    while i < s.len()
        invariant
            0 <= i <= s.len(),
            out@ == lower_all(s@.subrange(0, i as int)),
        decreases s.len() - i,
    {
        let low = to_lowercase(s[i]);
        crate::text::push_all(&mut out, &low);
        i = i + 1;
        proof {
            assert(s@.subrange(0, i as int).drop_last() =~= s@.subrange(0, i - 1));
        }
    }
    assert(s@.subrange(0, s.len() as int) =~= s@);
    out
}

fn strip_longest_article(term: &[char], ignore_leading: &[String]) -> (r: Option<Vec<char>>)
    ensures
        match r {
            Some(v) => strip_article_spec(term@, ignore_leading@) == Some(v@),
            None => strip_article_spec(term@, ignore_leading@) is None,
        },
{
    let folded = lower_chars(term);
    let mut best: Option<usize> = None;
    let mut k: usize = 0;
    while k < ignore_leading.len()
        invariant
            0 <= k <= ignore_leading.len(),
            folded@ == lower_all(term@),
            match best {
                Some(b) => best_article(term@, ignore_leading@, k as int) == Some(b as nat)
                    && b < term@.len(),
                None => best_article(term@, ignore_leading@, k as int) is None,
            },
        decreases ignore_leading.len() - k,
    {
        let article = str_chars(ignore_leading[k].as_str());
        let a = lower_chars(&article);
        let len = a.len();
        if len > 0 && starts_with(&folded, &a) && len < term.len() {
            let next = term[len];
            if is_whitespace(next) || next == '\'' || next == '\u{2019}' {
                let better = match best {
                    Some(b) => len > b,
                    None => true,
                };
                if better {
                    best = Some(len);
                }
            }
        }
        k = k + 1;
    }
    let chars: usize = match best {
        Some(b) => b,
        None => return None,
    };
    assert(best_article(term@, ignore_leading@, ignore_leading@.len() as int) == Some(chars as nat));
    assert(chars < term.len());
    let mut i: usize = chars + 1;
    let ghost tail = term@.subrange(chars + 1, term@.len() as int);
    while i < term.len() && is_whitespace(term[i])
        invariant
            chars + 1 <= i <= term.len(),
            skip_leading_whitespace(term@.subrange(i as int, term@.len() as int)) == skip_leading_whitespace(tail),
        decreases term.len() - i,
    {
        proof {
            assert(term@.subrange(i as int, term@.len() as int).drop_first() =~= term@.subrange(i + 1, term@.len() as int));
        }
        i = i + 1;
    }
    let mut rest: Vec<char> = Vec::new();
    let start = i;
    while i < term.len()
        invariant
            start <= i <= term.len(),
            rest@ == term@.subrange(start as int, i as int),
        decreases term.len() - i,
    {
        rest.push(term[i]);
        i = i + 1;
        assert(rest@ =~= term@.subrange(start as int, i as int));
    }
    proof {
        let s = term@.subrange(start as int, term@.len() as int);
        assert(rest@ == s);
        if start < term@.len() {
            assert(!char_whitespace(s[0]));
        } else {
            assert(s.len() == 0);
        }
        assert(skip_leading_whitespace(s) == s);
    }
    if rest.len() == 0 {
        None
    } else {
        Some(rest)
    }
}

fn sort_text(mark: &IndexMark, ignore_leading: &[String]) -> (t: Vec<char>)
    ensures
        t@ == sort_text_spec(*mark, ignore_leading@),
{
    if let Some(explicit) = &mark.sort_as {
        return str_chars(explicit.as_str());
    }
    let term = str_chars(mark.term.as_str());
    match strip_longest_article(&term, ignore_leading) {
        Some(rest) => rest,
        None => term,
    }
}

/// A term's sort position under the quill index collation. Compared field by field.
#[derive(Debug, Clone, PartialEq, Eq, PartialOrd, Ord)]
pub struct CollationKey {
    primary: Vec<u32>,
    secondary: Vec<u32>,
    tertiary: Vec<u8>,
    tiebreak: String,
}

impl CollationKey {
    /// Base letters and digits, class-tagged.
    pub closed spec fn primary_level(&self) -> Seq<u32> {
        self.primary@
    }

    /// The unfolded character wherever a fold discarded an accent, `0` where it did not.
    pub closed spec fn secondary_level(&self) -> Seq<u32> {
        self.secondary@
    }

    /// `1` for an upper-case character, `0` otherwise.
    pub closed spec fn tertiary_level(&self) -> Seq<u8> {
        self.tertiary@
    }

    /// The printed term.
    pub closed spec fn tiebreak_level(&self) -> Seq<char> {
        self.tiebreak@
    }
}

/// The sort position of `mark` under the quill index collation, given the index's declared
/// article list (empty for a book that states none).
pub fn collation_key(mark: &IndexMark, ignore_leading: &[String]) -> (key: CollationKey)
    ensures
        key.primary_level() == key_level(sort_text_spec(*mark, ignore_leading@), 0),
        key.secondary_level() == key_level(sort_text_spec(*mark, ignore_leading@), 1),
        key.tertiary_level() == tertiary_bytes(sort_text_spec(*mark, ignore_leading@)),
        key.tiebreak_level() == mark.term@,
{
    let text = sort_text(mark, ignore_leading);
    let mut primary: Vec<u32> = Vec::new();
    let mut secondary: Vec<u32> = Vec::new();
    let mut tertiary: Vec<u8> = Vec::new();
    let mut t: usize = 0;
    while t < text.len()
        invariant
            0 <= t <= text.len(),
            primary@ == key_level(text@.subrange(0, t as int), 0),
            secondary@ == key_level(text@.subrange(0, t as int), 1),
            tertiary@ == tertiary_bytes(text@.subrange(0, t as int)),
        decreases text.len() - t,
    {
        let c = text[t];
        let upper = is_uppercase(c);
        let folded = fold(c);
        let was_folded = folded.is_some();
        let bases = match folded {
            Some(base) => base,
            None => to_lowercase(c),
        };
        let ghost p0 = primary@;
        let ghost s0 = secondary@;
        let ghost t0 = key_level(text@.subrange(0, t as int), 2);
        let mut i: usize = 0;
        while i < bases.len()
            invariant
                0 <= i <= bases.len(),
                c == text@[t as int],
                bases@ == bases_of(c),
                was_folded == fold_spec(c) is Some,
                upper == char_uppercase(c),
                primary@ == p0 + expand(c, bases@.subrange(0, i as int), 0),
                secondary@ == s0 + expand(c, bases@.subrange(0, i as int), 1),
                tertiary@ == (t0 + expand(c, bases@.subrange(0, i as int), 2)).map_values(|v: u32| v as u8),
            decreases bases.len() - i,
        {
            let b = bases[i];
            let ghost sub = bases@.subrange(0, i + 1);
            assert(sub.drop_last() =~= bases@.subrange(0, i as int));
            if let Some(w) = primary_weight(b) {
                primary.push(w);
                secondary.push(if was_folded && i == 0 { c as u32 } else { 0 });
                tertiary.push(if upper { 1u8 } else { 0u8 });
                proof {
                    let e2 = expand(c, bases@.subrange(0, i as int), 2);
                    let v: u32 = if char_uppercase(c) { 1 } else { 0 };
                    assert(expand(c, sub, 2) == e2.push(v));
                    assert((t0 + e2.push(v)).map_values(|v: u32| v as u8) =~= (t0 + e2).map_values(|v: u32| v as u8).push(v as u8));
                }
            } else {
                assert(expand(c, sub, 2) == expand(c, bases@.subrange(0, i as int), 2));
            }
            i = i + 1;
        }
        proof {
            assert(bases@.subrange(0, bases.len() as int) =~= bases@);
            let sub = text@.subrange(0, t + 1);
            assert(sub.drop_last() =~= text@.subrange(0, t as int));
            assert(sub.last() == c);
            assert(key_level(sub, 2) == t0 + expand(c, bases@, 2));
        }
        t = t + 1;
    }
    assert(text@.subrange(0, text.len() as int) =~= text@);
    CollationKey { primary, secondary, tertiary, tiebreak: mark.term.clone() }
}

/// **The order is total**: marks with different printed terms never collate equal, so
/// collating a set of terms is deterministic whatever order they were found in.
pub proof fn lemma_collation_is_total(a: CollationKey, b: CollationKey)
    requires
        a.tiebreak_level() != b.tiebreak_level(),
    ensures
        a != b,
{
}

/// **Declared articles are matched without regard to case**: two article lists that agree
/// once lower-cased, entry for entry, strip the same leading article from every term, so every
/// mark files under the same text with either.
pub proof fn lemma_article_case_of_articles(mark: IndexMark, a1: Seq<String>, a2: Seq<String>)
    requires
        a1.len() == a2.len(),
        forall|i: int| 0 <= i < a1.len() ==> lower_all((#[trigger] a1[i])@) == lower_all(a2[i]@),
    ensures
        forall|n: int| 0 <= n <= a1.len() ==> #[trigger] best_article(mark.term@, a1, n) == best_article(mark.term@, a2, n),
        strip_article_spec(mark.term@, a1) == strip_article_spec(mark.term@, a2),
        sort_text_spec(mark, a1) == sort_text_spec(mark, a2),
{
    assert forall|n: int| 0 <= n <= a1.len() implies #[trigger] best_article(mark.term@, a1, n) == best_article(mark.term@, a2, n) by {
        lemma_best_article_articles(mark.term@, a1, a2, n);
    }
    assert(best_article(mark.term@, a1, a1.len() as int) == best_article(mark.term@, a2, a2.len() as int));
}

proof fn lemma_best_article_articles(term: Seq<char>, a1: Seq<String>, a2: Seq<String>, n: int)
    requires
        0 <= n <= a1.len(),
        a1.len() == a2.len(),
        forall|i: int| 0 <= i < a1.len() ==> lower_all((#[trigger] a1[i])@) == lower_all(a2[i]@),
    ensures
        best_article(term, a1, n) == best_article(term, a2, n),
    decreases n,
{
    if n > 0 {
        lemma_best_article_articles(term, a1, a2, n - 1);
        assert(lower_all(a1[n - 1]@) == lower_all(a2[n - 1]@));
    }
}

proof fn lemma_best_article_terms(t1: Seq<char>, t2: Seq<char>, articles: Seq<String>, n: int)
    requires
        0 <= n <= articles.len(),
        t1.len() == t2.len(),
        lower_all(t1) == lower_all(t2),
        forall|i: int| 0 <= i < t1.len() ==> article_boundary(#[trigger] t1[i]) == article_boundary(t2[i]),
    ensures
        best_article(t1, articles, n) == best_article(t2, articles, n),
        best_article(t1, articles, n) matches Some(b) ==> b < t1.len(),
    decreases n,
{
    if n > 0 {
        lemma_best_article_terms(t1, t2, articles, n - 1);
        let len = lower_all(articles[n - 1]@).len();
        if len < t1.len() {
            assert(article_boundary(t1[len as int]) == article_boundary(t2[len as int]));
        }
    }
}

proof fn lemma_skip_whitespace_same_shape(s1: Seq<char>, s2: Seq<char>)
    requires
        s1.len() == s2.len(),
        forall|i: int| 0 <= i < s1.len() ==> char_whitespace(#[trigger] s1[i]) == char_whitespace(s2[i]),
    ensures
        skip_leading_whitespace(s1).len() == skip_leading_whitespace(s2).len(),
    decreases s1.len(),
{
    if s1.len() > 0 && char_whitespace(s1[0]) {
        assert(char_whitespace(s2[0]));
        assert forall|i: int| 0 <= i < s1.drop_first().len() implies
            char_whitespace(#[trigger] s1.drop_first()[i]) == char_whitespace(s2.drop_first()[i]) by {
            assert(s1.drop_first()[i] == s1[i + 1]);
            assert(s2.drop_first()[i] == s2[i + 1]);
        }
        lemma_skip_whitespace_same_shape(s1.drop_first(), s2.drop_first());
    } else if s1.len() > 0 {
        assert(!char_whitespace(s2[0]));
    }
}

/// **A term's leading article is found without regard to its case**: two terms that are the
/// same once lower-cased, with their spaces and apostrophes in the same places (`The Ruined Keep`
/// and `the ruined keep`), have the same declared article stripped: either both have one removed
/// or neither does, and what is left has the same length.
pub proof fn lemma_article_case_of_terms(t1: Seq<char>, t2: Seq<char>, articles: Seq<String>)
    requires
        t1.len() == t2.len(),
        lower_all(t1) == lower_all(t2),
        forall|i: int| 0 <= i < t1.len() ==> article_boundary(#[trigger] t1[i]) == article_boundary(t2[i]),
        forall|i: int| 0 <= i < t1.len() ==> char_whitespace(#[trigger] t1[i]) == char_whitespace(t2[i]),
    ensures
        best_article(t1, articles, articles.len() as int) == best_article(t2, articles, articles.len() as int),
        strip_article_spec(t1, articles) is Some == strip_article_spec(t2, articles) is Some,
        strip_article_spec(t1, articles) matches Some(r1) ==> strip_article_spec(t2, articles)->Some_0.len() == r1.len(),
{
    lemma_best_article_terms(t1, t2, articles, articles.len() as int);
    match best_article(t1, articles, articles.len() as int) {
        Some(len) => {
            let s1 = t1.subrange((len + 1) as int, t1.len() as int);
            let s2 = t2.subrange((len + 1) as int, t2.len() as int);
            assert forall|i: int| 0 <= i < s1.len() implies char_whitespace(#[trigger] s1[i]) == char_whitespace(s2[i]) by {
                assert(s1[i] == t1[i + len + 1]);
                assert(s2[i] == t2[i + len + 1]);
            }
            lemma_skip_whitespace_same_shape(s1, s2);
        },
        None => {},
    }
}

proof fn lemma_matching_article_found(term: Seq<char>, articles: Seq<String>, k: int, n: int)
    requires
        0 <= k < n <= articles.len(),
        ({
            let a = lower_all(articles[k]@);
            &&& a.len() > 0
            &&& a.len() <= lower_all(term).len()
            &&& lower_all(term).subrange(0, a.len() as int) == a
            &&& a.len() < term.len()
            &&& article_boundary(term[a.len() as int])
        }),
    ensures
        best_article(term, articles, n) matches Some(b) && b >= lower_all(articles[k]@).len(),
    decreases n,
{
    if n - 1 > k {
        lemma_matching_article_found(term, articles, k, n - 1);
    }
}

/// **A term that begins with a declared article, in whatever case either is written, has an
/// article stripped**: when the lower-cased term starts with a lower-cased declared article that
/// is followed in the term by a space or an apostrophe, some article at least that long is found.
pub proof fn lemma_leading_article_is_found(term: Seq<char>, articles: Seq<String>, k: int)
    requires
        0 <= k < articles.len(),
        ({
            let a = lower_all(articles[k]@);
            &&& a.len() > 0
            &&& a.len() <= lower_all(term).len()
            &&& lower_all(term).subrange(0, a.len() as int) == a
            &&& a.len() < term.len()
            &&& article_boundary(term[a.len() as int])
        }),
    ensures
        best_article(term, articles, articles.len() as int) matches Some(b) && b >= lower_all(articles[k]@).len(),
{
    lemma_matching_article_found(term, articles, k, articles.len() as int);
}

} // verus!
