//! Conversions between `str`/`String` and character vectors.

use std::collections::BTreeSet;
use vstd::prelude::*;

verus! {

/// Whether `c` is numeric, as Unicode's `Numeric_Type` says (std `char::is_numeric`).
pub uninterp spec fn char_numeric(c: char) -> bool;

/// Whether `c` is alphabetic, as Unicode's `Alphabetic` property says (std `char::is_alphabetic`).
pub uninterp spec fn char_alphabetic(c: char) -> bool;

/// Whether `c` is upper case, as Unicode's `Uppercase` property says (std `char::is_uppercase`).
pub uninterp spec fn char_uppercase(c: char) -> bool;

/// Whether `c` is white space, as Unicode's `White_Space` property says (std `char::is_whitespace`).
pub uninterp spec fn char_whitespace(c: char) -> bool;

/// The lower-case mapping of `c`, one or more characters (std `char::to_lowercase`).
pub uninterp spec fn char_lowercase(c: char) -> Seq<char>;

/// std `char::is_numeric`: a pure function of the character's Unicode properties.
#[verifier::external_body]
pub(crate) fn is_numeric(c: char) -> (b: bool)
    ensures
        b == char_numeric(c),
{
    c.is_numeric()
}

/// std `char::is_alphabetic`: a pure function of the character's Unicode properties.
#[verifier::external_body]
pub(crate) fn is_alphabetic(c: char) -> (b: bool)
    ensures
        b == char_alphabetic(c),
{
    c.is_alphabetic()
}

/// std `char::is_uppercase`: a pure function of the character's Unicode properties.
#[verifier::external_body]
pub(crate) fn is_uppercase(c: char) -> (b: bool)
    ensures
        b == char_uppercase(c),
{
    c.is_uppercase()
}

/// std `char::is_whitespace`: a pure function of the character's Unicode properties.
#[verifier::external_body]
pub(crate) fn is_whitespace(c: char) -> (b: bool)
    ensures
        b == char_whitespace(c),
{
    c.is_whitespace()
}

/// std `char::to_lowercase`, collected: a pure function of the character.
#[verifier::external_body]
pub(crate) fn to_lowercase(c: char) -> (v: Vec<char>)
    ensures
        v@ == char_lowercase(c),
{
    c.to_lowercase().collect()
}


/// The characters of `s`, in order (std `str::chars`, collected).
#[verifier::external_body]
pub fn str_chars(s: &str) -> (out: Vec<char>)
    ensures
        out@ == s@,
{
    s.chars().collect()
}


/// `s` with its leading white space dropped.
pub open spec fn skip_leading_whitespace(s: Seq<char>) -> Seq<char>
    decreases s.len(),
{
    if s.len() > 0 && char_whitespace(s[0]) {
        skip_leading_whitespace(s.drop_first())
    } else {
        s
    }
}

/// `s` with its trailing white space dropped.
pub open spec fn drop_trailing_whitespace(s: Seq<char>) -> Seq<char>
    decreases s.len(),
{
    if s.len() > 0 && char_whitespace(s.last()) {
        drop_trailing_whitespace(s.drop_last())
    } else {
        s
    }
}

/// `s` with white space dropped from both ends, as std `str::trim` has it.
pub open spec fn trim_spec(s: Seq<char>) -> Seq<char> {
    drop_trailing_whitespace(skip_leading_whitespace(s))
}

/// `s` with white space dropped from both ends.
pub fn trim_chars(s: &[char]) -> (out: Vec<char>)
    ensures
        out@ == trim_spec(s@),
{
    let n = s.len();
    let mut i: usize = 0;
    assert(s@.subrange(0, n as int) =~= s@);
    while i < n && is_whitespace(s[i])
        invariant
            0 <= i <= n == s@.len(),
            skip_leading_whitespace(s@.subrange(i as int, n as int)) == skip_leading_whitespace(s@),
        decreases n - i,
    {
        proof {
            assert(s@.subrange(i as int, n as int).drop_first() =~= s@.subrange(i + 1, n as int));
        }
        i = i + 1;
    }
    proof {
        let rest = s@.subrange(i as int, n as int);
        if i < n {
            assert(rest[0] == s@[i as int]);
        }
        assert(skip_leading_whitespace(rest) == rest);
    }
    let mut j: usize = n;
    while j > i && is_whitespace(s[j - 1])
        invariant
            i <= j <= n == s@.len(),
            drop_trailing_whitespace(s@.subrange(i as int, j as int))
                == drop_trailing_whitespace(s@.subrange(i as int, n as int)),
        decreases j,
    {
        proof {
            assert(s@.subrange(i as int, j as int).drop_last() =~= s@.subrange(i as int, j - 1));
        }
        j = j - 1;
    }
    proof {
        let kept = s@.subrange(i as int, j as int);
        if j > i {
            assert(kept.last() == s@[j - 1]);
        }
        assert(drop_trailing_whitespace(kept) == kept);
    }
    let mut out: Vec<char> = Vec::new();
    let mut k: usize = i;
    while k < j
        invariant
            i <= k <= j <= n == s@.len(),
            out@ == s@.subrange(i as int, k as int),
        decreases j - k,
    {
        out.push(s[k]);
        k = k + 1;
        assert(out@ =~= s@.subrange(i as int, k as int));
    }
    out
}


/// Whether `a` and `b` hold the same characters.
pub fn chars_equal(a: &[char], b: &[char]) -> (r: bool)
    ensures
        r == (a@ == b@),
{
    if a.len() != b.len() {
        return false;
    }
    let mut i: usize = 0;
    while i < a.len()
        invariant
            0 <= i <= a@.len() == b@.len(),
            a@.subrange(0, i as int) == b@.subrange(0, i as int),
        decreases a.len() - i,
    {
        if a[i] != b[i] {
            assert(a@[i as int] != b@[i as int]);
            return false;
        }
        i = i + 1;
        assert(a@.subrange(0, i as int) =~= b@.subrange(0, i as int));
    }
    assert(a@ =~= a@.subrange(0, a@.len() as int));
    assert(b@ =~= b@.subrange(0, b@.len() as int));
    true
}

/// The `sep`-separated parts of `s`, in order. `""` has one, empty, part.
pub open spec fn split_on(s: Seq<char>, sep: char) -> Seq<Seq<char>>
    decreases s.len(),
{
    if s.len() == 0 {
        seq![Seq::<char>::empty()]
    } else {
        let rest = split_on(s.drop_last(), sep);
        if s.last() == sep {
            rest.push(Seq::<char>::empty())
        } else {
            rest.update(rest.len() - 1, rest.last().push(s.last()))
        }
    }
}

pub proof fn lemma_split_nonempty(s: Seq<char>, sep: char)
    ensures
        split_on(s, sep).len() >= 1,
    decreases s.len(),
{
    if s.len() > 0 {
        lemma_split_nonempty(s.drop_last(), sep);
    }
}

/// The views of a vector of character vectors.
pub open spec fn views(parts: Seq<Vec<char>>) -> Seq<Seq<char>> {
    parts.map_values(|v: Vec<char>| v@)
}

/// `s` split on `sep`.
pub fn split_chars(s: &[char], sep: char) -> (out: Vec<Vec<char>>)
    ensures
        views(out@) == split_on(s@, sep),
{
    let mut done: Vec<Vec<char>> = Vec::new();
    let mut current: Vec<char> = Vec::new();
    let mut i: usize = 0;
    while i < s.len()
        invariant
            0 <= i <= s@.len(),
            views(done@).push(current@) == split_on(s@.subrange(0, i as int), sep),
        decreases s.len() - i,
    {
        let c = s[i];
        proof {
            let sub = s@.subrange(0, i + 1);
            assert(sub.drop_last() =~= s@.subrange(0, i as int));
            assert(sub.last() == c);
            lemma_split_nonempty(s@.subrange(0, i as int), sep);
        }
        if c == sep {
            let ghost before = views(done@).push(current@);
            done.push(current);
            current = Vec::new();
            proof {
                assert(views(done@).push(current@) =~= before.push(Seq::<char>::empty()));
            }
        } else {
            let ghost before = views(done@).push(current@);
            current.push(c);
            proof {
                assert(views(done@).push(current@) =~= before.update(before.len() - 1, before.last().push(c)));
            }
        }
        i = i + 1;
    }
    assert(s@.subrange(0, s@.len() as int) =~= s@);
    let ghost before = views(done@).push(current@);
    done.push(current);
    assert(views(done@) =~= before);
    done
}

/// The first position of `c` in `s`, among the first `n`.
pub open spec fn first_position(s: Seq<char>, c: char, n: int) -> Option<int>
    decreases n,
{
    if n <= 0 {
        None
    } else {
        match first_position(s, c, n - 1) {
            Some(i) => Some(i),
            None => if s[n - 1] == c { Some(n - 1) } else { None },
        }
    }
}

/// Once found among the first `m`, the first position stays put.
pub proof fn lemma_first_position_extends(s: Seq<char>, c: char, m: int, n: int)
    requires
        0 <= m <= n,
        first_position(s, c, m) is Some,
    ensures
        first_position(s, c, n) == first_position(s, c, m),
    decreases n - m,
{
    if n > m {
        lemma_first_position_extends(s, c, m, n - 1);
    }
}

/// Whether `s` begins with `prefix`.
pub fn starts_with(s: &[char], prefix: &[char]) -> (b: bool)
    ensures
        b == (prefix@.len() <= s@.len() && s@.subrange(0, prefix@.len() as int) == prefix@),
{
    if prefix.len() > s.len() {
        return false;
    }
    let mut i: usize = 0;
    while i < prefix.len()
        invariant
            0 <= i <= prefix.len() <= s.len(),
            s@.subrange(0, i as int) == prefix@.subrange(0, i as int),
        decreases prefix.len() - i,
    {
        if s[i] != prefix[i] {
            assert(s@.subrange(0, prefix@.len() as int)[i as int] != prefix@[i as int]);
            return false;
        }
        i = i + 1;
        assert(s@.subrange(0, i as int) =~= prefix@.subrange(0, i as int));
    }
    assert(prefix@.subrange(0, prefix@.len() as int) =~= prefix@);
    true
}


/// Whether `s` begins with `prefix`.
pub open spec fn has_prefix(s: Seq<char>, prefix: Seq<char>) -> bool {
    prefix.len() <= s.len() && s.subrange(0, prefix.len() as int) == prefix
}

/// The first position of `c` in `s`.
pub fn find_char(s: &[char], c: char) -> (r: Option<usize>)
    ensures
        match r {
            Some(i) => first_position(s@, c, s@.len() as int) == Some(i as int),
            None => first_position(s@, c, s@.len() as int) is None,
        },
{
    let mut i: usize = 0;
    while i < s.len()
        invariant
            0 <= i <= s@.len(),
            first_position(s@, c, i as int) is None,
        decreases s.len() - i,
    {
        if s[i] == c {
            proof {
                reveal_with_fuel(first_position, 2);
                lemma_first_position_extends(s@, c, i + 1, s@.len() as int);
            }
            return Some(i);
        }
        i = i + 1;
    }
    None
}

/// What [`first_position`] finds: the earliest position holding `c`, or proof that none does.
pub proof fn lemma_first_position(s: Seq<char>, c: char, n: int)
    requires
        0 <= n <= s.len(),
    ensures
        match first_position(s, c, n) {
            Some(i) => 0 <= i < n && s[i] == c && forall|j: int| 0 <= j < i ==> s[j] != c,
            None => forall|j: int| 0 <= j < n ==> s[j] != c,
        },
    decreases n,
{
    if n > 0 {
        lemma_first_position(s, c, n - 1);
    }
}

/// `s` split at its first `c`, the `c` dropped, or `None` if it has none.
pub open spec fn split_once_spec(s: Seq<char>, c: char) -> Option<(Seq<char>, Seq<char>)> {
    match first_position(s, c, s.len() as int) {
        Some(i) => Some((s.subrange(0, i), s.subrange(i + 1, s.len() as int))),
        None => None,
    }
}

/// The characters of `s` from `start` to `end`.
pub fn copy_range(s: &[char], start: usize, end: usize) -> (out: Vec<char>)
    requires
        start <= end <= s@.len(),
    ensures
        out@ == s@.subrange(start as int, end as int),
{
    let mut out: Vec<char> = Vec::new();
    let mut k: usize = start;
    while k < end
        invariant
            start <= k <= end <= s@.len(),
            out@ == s@.subrange(start as int, k as int),
        decreases end - k,
    {
        out.push(s[k]);
        k = k + 1;
        assert(out@ =~= s@.subrange(start as int, k as int));
    }
    out
}

/// `s` split at its first `c`, the `c` dropped.
pub fn split_once(s: &[char], c: char) -> (r: Option<(Vec<char>, Vec<char>)>)
    ensures
        match r {
            Some((a, b)) => split_once_spec(s@, c) == Some((a@, b@)),
            None => split_once_spec(s@, c) is None,
        },
{
    match find_char(s, c) {
        Some(i) => {
            proof {
                lemma_first_position(s@, c, s@.len() as int);
            }
            let n = s.len();
            assert(i < n);
            Some((copy_range(s, 0, i), copy_range(s, i + 1, n)))
        },
        None => None,
    }
}

/// `s` with every leading and trailing `c` removed.
pub open spec fn trim_char_spec(s: Seq<char>, c: char) -> Seq<char> {
    drop_trailing_char(drop_leading_char(s, c), c)
}

/// `s` with every leading `c` removed.
pub open spec fn drop_leading_char(s: Seq<char>, c: char) -> Seq<char>
    decreases s.len(),
{
    if s.len() > 0 && s[0] == c { drop_leading_char(s.drop_first(), c) } else { s }
}

/// `s` with every trailing `c` removed.
pub open spec fn drop_trailing_char(s: Seq<char>, c: char) -> Seq<char>
    decreases s.len(),
{
    if s.len() > 0 && s.last() == c { drop_trailing_char(s.drop_last(), c) } else { s }
}

/// `s` with every leading and trailing `c` removed.
pub fn trim_char(s: &[char], c: char) -> (out: Vec<char>)
    ensures
        out@ == trim_char_spec(s@, c),
{
    let n = s.len();
    let mut i: usize = 0;
    assert(s@.subrange(0, n as int) =~= s@);
    while i < n && s[i] == c
        invariant
            0 <= i <= n == s@.len(),
            drop_leading_char(s@.subrange(i as int, n as int), c) == drop_leading_char(s@, c),
        decreases n - i,
    {
        assert(s@.subrange(i as int, n as int).drop_first() =~= s@.subrange(i + 1, n as int));
        i = i + 1;
    }
    proof {
        let rest = s@.subrange(i as int, n as int);
        if i < n {
            assert(rest[0] == s@[i as int]);
        }
        assert(drop_leading_char(rest, c) == rest);
    }
    let mut j: usize = n;
    while j > i && s[j - 1] == c
        invariant
            i <= j <= n == s@.len(),
            drop_trailing_char(s@.subrange(i as int, j as int), c)
                == drop_trailing_char(s@.subrange(i as int, n as int), c),
        decreases j,
    {
        assert(s@.subrange(i as int, j as int).drop_last() =~= s@.subrange(i as int, j - 1));
        j = j - 1;
    }
    proof {
        let kept = s@.subrange(i as int, j as int);
        if j > i {
            assert(kept.last() == s@[j - 1]);
        }
        assert(drop_trailing_char(kept, c) == kept);
    }
    copy_range(s, i, j)
}

/// How many times `c` repeats at the start of `s`.
pub open spec fn leading_count(s: Seq<char>, c: char) -> nat
    decreases s.len(),
{
    if s.len() > 0 && s[0] == c { 1 + leading_count(s.drop_first(), c) } else { 0 }
}

/// How many times `c` repeats at the start of `s`.
pub fn count_leading(s: &[char], c: char) -> (n: usize)
    ensures
        n == leading_count(s@, c),
        n <= s@.len(),
{
    let mut i: usize = 0;
    assert(s@.subrange(0, s@.len() as int) =~= s@);
    while i < s.len() && s[i] == c
        invariant
            0 <= i <= s@.len(),
            leading_count(s@, c) == i + leading_count(s@.subrange(i as int, s@.len() as int), c),
        decreases s.len() - i,
    {
        assert(s@.subrange(i as int, s@.len() as int).drop_first() =~= s@.subrange(i + 1, s@.len() as int));
        i = i + 1;
    }
    proof {
        let rest = s@.subrange(i as int, s@.len() as int);
        if i < s@.len() {
            assert(rest[0] == s@[i as int]);
        }
    }
    i
}


/// `s` less one trailing carriage return, if it has one.
pub open spec fn strip_cr(s: Seq<char>) -> Seq<char> {
    if s.len() > 0 && s.last() == '\r' { s.drop_last() } else { s }
}

/// The lines of `s`, as std `str::lines` gives them: split at each `\n`, a `\r` just before a
/// `\n` dropped with it, and no empty line after a final line ending.
pub open spec fn lines_of(s: Seq<char>) -> Seq<Seq<char>> {
    let parts = split_on(s, '\n');
    let ended = Seq::new((parts.len() - 1) as nat, |i: int| strip_cr(parts[i]));
    if parts.last().len() == 0 { ended } else { ended.push(parts.last()) }
}

/// The lines of `s`, as std `str::lines` gives them.
pub fn split_lines(s: &[char]) -> (out: Vec<Vec<char>>)
    ensures
        views(out@) == lines_of(s@),
{
    let parts = split_chars(s, '\n');
    proof {
        lemma_split_nonempty(s@, '\n');
    }
    let ghost all = split_on(s@, '\n');
    assert(views(parts@).len() == parts@.len());
    let last = parts.len() - 1;
    let mut out: Vec<Vec<char>> = Vec::new();
    let mut i: usize = 0;
    while i < last
        invariant
            views(parts@) == all,
            all == split_on(s@, '\n'),
            last + 1 == parts@.len(),
            0 <= i <= last,
            views(out@) == Seq::new(i as nat, |k: int| strip_cr(all[k])),
        decreases last - i,
    {
        let part = &parts[i];
        assert(all[i as int] == part@);
        let n = part.len();
        let line = if n > 0 && part[n - 1] == '\r' { copy_range(part, 0, n - 1) } else { copy_range(part, 0, n) };
        assert(line@ == strip_cr(part@)) by {
            assert(part@.subrange(0, n as int) =~= part@);
            if n > 0 {
                assert(part@.subrange(0, n - 1) =~= part@.drop_last());
            }
        }
        let ghost before = views(out@);
        out.push(line);
        assert(views(out@) =~= before.push(line@));
        i = i + 1;
        assert forall|k: int| 0 <= k < i implies #[trigger] views(out@)[k] == strip_cr(all[k]) by {
            if k < i - 1 {
                assert(views(out@)[k] == before[k]);
            }
        }
        assert(views(out@) =~= Seq::new(i as nat, |k: int| strip_cr(all[k])));
    }
    let tail = &parts[last];
    assert(all[last as int] == tail@);
    assert(all.last() == tail@);
    if tail.len() > 0 {
        let ghost before = views(out@);
        out.push(copy_range(tail, 0, tail.len()));
        assert(tail@.subrange(0, tail@.len() as int) =~= tail@);
        assert(views(out@) =~= before.push(tail@));
    }
    out
}

/// A `String` holding exactly `chars` (std `FromIterator<char> for String`).
#[verifier::external_body]
pub fn string_from_chars(chars: &[char]) -> (out: String)
    ensures
        out@ == chars@,
{
    chars.iter().collect()
}

/// Append every character of `more` to `out`.
pub fn push_all(out: &mut Vec<char>, more: &[char])
    ensures
        final(out)@ == old(out)@ + more@,
{
    let mut i: usize = 0;
    while i < more.len()
        invariant
            0 <= i <= more.len(),
            out@ == old(out)@ + more@.subrange(0, i as int),
        decreases more.len() - i,
    {
        out.push(more[i]);
        i = i + 1;
        assert(more@.subrange(0, i as int) == more@.subrange(0, i - 1) + seq![more@[i - 1]]);
    }
    assert(more@.subrange(0, more.len() as int) == more@);
}

/// Append the characters of `s` to `out`.
pub fn push_str_chars(out: &mut Vec<char>, s: &str)
    ensures
        final(out)@ == old(out)@ + s@,
{
    let cs = str_chars(s);
    push_all(out, &cs);
}

/// `items` written one after another with `sep` between each two.
pub open spec fn joined(items: Seq<Seq<char>>, sep: Seq<char>) -> Seq<char>
    decreases items.len(),
{
    if items.len() == 0 {
        Seq::empty()
    } else if items.len() == 1 {
        items[0]
    } else {
        joined(items.drop_last(), sep) + sep + items.last()
    }
}

/// The texts of `v`, in order.
pub open spec fn string_texts(v: Seq<String>) -> Seq<Seq<char>> {
    v.map_values(|s: String| s@)
}

/// Append `items` to `out`, with `sep` between each two.
pub fn push_joined(out: &mut Vec<char>, items: &Vec<String>, sep: &str)
    ensures
        final(out)@ == old(out)@ + joined(string_texts(items@), sep@),
{
    let ghost start = out@;
    let mut i: usize = 0;
    while i < items.len()
        invariant
            0 <= i <= items@.len(),
            out@ == start + joined(string_texts(items@.subrange(0, i as int)), sep@),
        decreases items.len() - i,
    {
        let ghost before = string_texts(items@.subrange(0, i as int));
        if i > 0 {
            push_str_chars(out, sep);
        }
        push_str_chars(out, items[i].as_str());
        let ghost after = string_texts(items@.subrange(0, i + 1));
        assert(after.drop_last() =~= before);
        assert(after.last() == items@[i as int]@);
        assert(after.len() == i + 1);
        i = i + 1;
    }
    assert(items@.subrange(0, items@.len() as int) =~= items@);
}


/// Add `c` to `set` (std `BTreeSet::insert`, with `char`'s total order).
#[verifier::external_body]
pub fn insert_char(set: &mut BTreeSet<char>, c: char)
    ensures
        final(set)@ == old(set)@.insert(c),
{
    set.insert(c);
}

/// Move every character of `more` into `set` (std `BTreeSet::append`).
#[verifier::external_body]
pub fn union_chars(set: &mut BTreeSet<char>, more: BTreeSet<char>)
    ensures
        final(set)@ == old(set)@.union(more@),
{
    let mut more = more;
    set.append(&mut more);
}

/// A set holding exactly the characters of `chars`.
pub fn char_set(chars: &[char]) -> (out: BTreeSet<char>)
    ensures
        out@ == chars@.to_set(),
{
    let mut out: BTreeSet<char> = BTreeSet::new();
    let mut i: usize = 0;
    while i < chars.len()
        invariant
            0 <= i <= chars.len(),
            out@ == chars@.subrange(0, i as int).to_set(),
        decreases chars.len() - i,
    {
        let ghost pre = out@;
        insert_char(&mut out, chars[i]);
        i = i + 1;
        assert(out@ =~= chars@.subrange(0, i as int).to_set()) by {
            assert(chars@.subrange(0, i as int) =~= chars@.subrange(0, i - 1).push(chars@[i - 1]));
            assert forall|c: char| out@.contains(c) <==> chars@.subrange(0, i as int).to_set().contains(c) by {
                if chars@.subrange(0, i as int).contains(c) {
                    let k = choose|k: int| 0 <= k < i && #[trigger] chars@.subrange(0, i as int)[k] == c;
                    if k < i - 1 {
                        assert(chars@.subrange(0, i - 1)[k] == c);
                    }
                }
                if pre.contains(c) {
                    let k = choose|k: int| 0 <= k < i - 1 && #[trigger] chars@.subrange(0, i - 1)[k] == c;
                    assert(chars@.subrange(0, i as int)[k] == c);
                }
                if c == chars@[i - 1] {
                    assert(chars@.subrange(0, i as int)[i - 1] == c);
                }
            }
        }
    }
    assert(chars@.subrange(0, chars.len() as int) == chars@);
    out
}
} // verus!
