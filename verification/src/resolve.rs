//! The content-pack version rules: which installed version satisfies a requirement, how versions
//! order, and which installed packs a document's requirements resolve to.
//!
//! A requirement that does not resolve is a refusal rather than a fallback.

use std::cmp::Ordering;
use vstd::prelude::*;
use crate::load::LoadError;
use crate::text::{chars_equal, split_chars, split_on, str_chars, trim_chars, trim_spec, views};

verus! {

/// A pack a document needs, by name and version.
#[derive(Debug, Clone, PartialEq, Eq)]
pub struct PackRequirement {
    pub name: String,
    /// An exact version, or a dotted prefix of one. Empty accepts any installed version.
    pub version: String,
}

impl PackRequirement {
    pub fn new(name: &str, version: &str) -> (r: PackRequirement)
        ensures
            r.name@ == name@,
            r.version@ == version@,
    {
        PackRequirement { name: name.to_owned(), version: version.to_owned() }
    }
}

/// An installed pack, as far as resolution reads it: its name and version.
#[derive(Debug, Clone, PartialEq, Eq)]
pub struct AvailablePack {
    pub name: String,
    pub version: String,
}

/// The `.`-separated components of `s`, in order. `""` has one, empty, component.
pub open spec fn components(s: Seq<char>) -> Seq<Seq<char>> {
    split_on(s, '.')
}

/// Whether an installed `version` satisfies a `requirement`: an empty (or all white space)
/// requirement accepts anything; otherwise the requirement's dotted components must equal the
/// version's, component for component, as a prefix. `"1"` therefore matches `1.9.3` and never
/// `10.0.0`.
pub open spec fn version_matches_spec(requirement: Seq<char>, version: Seq<char>) -> bool {
    let want = trim_spec(requirement);
    want.len() == 0 || components(want).is_prefix_of(components(version))
}

/// Whether an installed `version` satisfies a `requirement`.
pub fn version_matches(requirement: &str, version: &str) -> (b: bool)
    ensures
        b == version_matches_spec(requirement@, version@),
{
    let raw = str_chars(requirement);
    let want_text = trim_chars(&raw);
    if want_text.len() == 0 {
        return true;
    }
    let version_chars = str_chars(version);
    let want = split_chars(&want_text, '.');
    let have = split_chars(&version_chars, '.');
    let ghost w = components(want_text@);
    let ghost h = components(version@);
    assert(views(want@).len() == want@.len() && views(have@).len() == have@.len());
    let mut i: usize = 0;
    while i < want.len()
        invariant
            0 <= i <= want@.len(),
            views(want@) == w,
            views(have@) == h,
            w == components(trim_spec(requirement@)),
            h == components(version@),
            trim_spec(requirement@).len() > 0,
            i <= h.len(),
            w.subrange(0, i as int) == h.subrange(0, i as int),
        decreases want.len() - i,
    {
        assert(w.len() == want@.len() && h.len() == have@.len());
        if i >= have.len() {
            assert(!w.is_prefix_of(h));
            return false;
        }
        let same = chars_equal(&want[i], &have[i]);
        assert(views(want@)[i as int] == want@[i as int]@);
        assert(views(have@)[i as int] == have@[i as int]@);
        if !same {
            assert(!w.is_prefix_of(h)) by {
                if w.len() <= h.len() {
                    assert(h.subrange(0, w.len() as int)[i as int] == h[i as int]);
                }
            }
            return false;
        }
        i = i + 1;
        assert(w.subrange(0, i as int) =~= h.subrange(0, i as int));
    }
    assert(w =~= w.subrange(0, w.len() as int));
    true
}

/// Whether every character of `s` is an ASCII digit.
pub open spec fn all_digits(s: Seq<char>) -> bool {
    forall|i: int| 0 <= i < s.len() ==> '0' <= #[trigger] s[i] <= '9'
}

/// The number a run of ASCII digits spells.
pub open spec fn digits_value(s: Seq<char>) -> nat
    decreases s.len(),
{
    if s.len() == 0 {
        0
    } else {
        digits_value(s.drop_last()) * 10 + ((s.last() as u32) - 48) as nat
    }
}

/// What std's `u64` parse gives for `s`: an optional `+`, then one or more ASCII digits whose
/// value fits in a `u64`; anything else is no number.
pub open spec fn parse_u64_spec(s: Seq<char>) -> Option<u64> {
    let digits = if s.len() > 0 && s[0] == '+' { s.drop_first() } else { s };
    if digits.len() > 0 && all_digits(digits) && digits_value(digits) <= u64::MAX {
        Some(digits_value(digits) as u64)
    } else {
        None
    }
}

proof fn lemma_digits_value_grows(s: Seq<char>, k: int)
    requires
        0 <= k <= s.len(),
        all_digits(s),
    ensures
        digits_value(s.subrange(0, k)) <= digits_value(s),
    decreases s.len() - k,
{
    if k < s.len() {
        let next = s.subrange(0, k + 1);
        assert(next.drop_last() =~= s.subrange(0, k));
        assert('0' <= s[k] <= '9');
        lemma_digits_value_grows(s, k + 1);
    } else {
        assert(s.subrange(0, k) =~= s);
    }
}

/// `s` read as a `u64`, as std's `str::parse::<u64>` reads it.
pub fn parse_u64_chars(s: &[char]) -> (r: Option<u64>)
    ensures
        r == parse_u64_spec(s@),
{
    let start: usize = if s.len() > 0 && s[0] == '+' { 1 } else { 0 };
    let ghost digits = if s@.len() > 0 && s@[0] == '+' { s@.drop_first() } else { s@ };
    assert(digits =~= s@.subrange(start as int, s@.len() as int));
    if start >= s.len() {
        return None;
    }
    let mut value: u64 = 0;
    let mut i: usize = start;
    while i < s.len()
        invariant
            start <= i <= s@.len(),
            digits == s@.subrange(start as int, s@.len() as int),
            digits == (if s@.len() > 0 && s@[0] == '+' { s@.drop_first() } else { s@ }),
            all_digits(s@.subrange(start as int, i as int)),
            value as nat == digits_value(s@.subrange(start as int, i as int)),
        decreases s.len() - i,
    {
        let c = s[i];
        let ghost prefix = s@.subrange(start as int, i + 1);
        assert(prefix.drop_last() =~= s@.subrange(start as int, i as int));
        if !('0' <= c && c <= '9') {
            assert(digits[i - start] == c);
            assert(!all_digits(digits));
            return None;
        }
        let d: u64 = (c as u32 - 48) as u64;
        assert(all_digits(prefix)) by {
            assert forall|k: int| 0 <= k < prefix.len() implies '0' <= #[trigger] prefix[k] <= '9' by {
                if k < prefix.len() - 1 {
                    assert(prefix[k] == s@.subrange(start as int, i as int)[k]);
                }
            }
        }
        assert(prefix.last() == c);
        assert(digits_value(prefix) == value * 10 + d);
        if value > 1844674407370955161 || (value == 1844674407370955161 && d > 5) {
            proof {
                assert(value * 10 + d > u64::MAX) by (nonlinear_arith)
                    requires
                        value > 1844674407370955161 || (value == 1844674407370955161 && d > 5),
                ;
                assert(digits_value(prefix) > u64::MAX);
                if all_digits(digits) {
                    assert(prefix =~= digits.subrange(0, i + 1 - start));
                    lemma_digits_value_grows(digits, i + 1 - start);
                }
            }
            return None;
        }
        assert(value * 10 + d <= u64::MAX) by (nonlinear_arith)
            requires
                !(value > 1844674407370955161 || (value == 1844674407370955161 && d > 5)),
                d <= 9,
        ;
        value = value * 10 + d;
        i = i + 1;
    }
    assert(s@.subrange(start as int, i as int) == digits);
    Some(value)
}

/// `a` against `b`, character by character by code point (which is the byte order of their UTF-8
/// encodings): `-1` before, `0` equal, `1` after.
pub open spec fn lex_order(a: Seq<char>, b: Seq<char>) -> int
    decreases a.len(),
{
    if a.len() == 0 {
        if b.len() == 0 { 0 } else { -1 }
    } else if b.len() == 0 {
        1
    } else if a[0] != b[0] {
        if a[0] < b[0] { -1 } else { 1 }
    } else {
        lex_order(a.drop_first(), b.drop_first())
    }
}

/// One version component against another: numerically when both parse as `u64`, lexically
/// otherwise.
pub open spec fn component_order(x: Seq<char>, y: Seq<char>) -> int {
    match (parse_u64_spec(x), parse_u64_spec(y)) {
        (Some(m), Some(n)) => if m < n { -1 } else if m == n { 0 } else { 1 },
        _ => lex_order(x, y),
    }
}

/// Component lists compared in order; a list that runs out first is the older.
pub open spec fn components_order(a: Seq<Seq<char>>, b: Seq<Seq<char>>) -> int
    decreases a.len(),
{
    if a.len() == 0 {
        if b.len() == 0 { 0 } else { -1 }
    } else if b.len() == 0 {
        1
    } else {
        let first = component_order(a[0], b[0]);
        if first != 0 { first } else { components_order(a.drop_first(), b.drop_first()) }
    }
}

/// Version `a` against version `b`: `-1` older, `0` the same, `1` newer.
pub open spec fn version_order(a: Seq<char>, b: Seq<char>) -> int {
    components_order(components(a), components(b))
}

fn lex_order_exec(a: &[char], b: &[char]) -> (r: i8)
    ensures
        r == lex_order(a@, b@),
{
    let mut i: usize = 0;
    assert(a@.subrange(0, a@.len() as int) =~= a@);
    assert(b@.subrange(0, b@.len() as int) =~= b@);
    while i < a.len() && i < b.len()
        invariant
            0 <= i <= a@.len(),
            i <= b@.len(),
            lex_order(a@, b@) == lex_order(a@.subrange(i as int, a@.len() as int), b@.subrange(i as int, b@.len() as int)),
        decreases a.len() - i,
    {
        let ghost ra = a@.subrange(i as int, a@.len() as int);
        let ghost rb = b@.subrange(i as int, b@.len() as int);
        assert(ra[0] == a@[i as int] && rb[0] == b@[i as int]);
        if a[i] != b[i] {
            if a[i] < b[i] {
                return -1;
            }
            return 1;
        }
        assert(ra.drop_first() =~= a@.subrange(i + 1, a@.len() as int));
        assert(rb.drop_first() =~= b@.subrange(i + 1, b@.len() as int));
        i = i + 1;
    }
    let ghost ra = a@.subrange(i as int, a@.len() as int);
    let ghost rb = b@.subrange(i as int, b@.len() as int);
    if i < a.len() {
        1
    } else if i < b.len() {
        -1
    } else {
        assert(ra.len() == 0 && rb.len() == 0);
        0
    }
}

fn component_order_exec(x: &[char], y: &[char]) -> (r: i8)
    ensures
        r == component_order(x@, y@),
{
    let px = parse_u64_chars(x);
    let py = parse_u64_chars(y);
    match (px, py) {
        (Some(m), Some(n)) => if m < n { -1 } else if m == n { 0 } else { 1 },
        _ => lex_order_exec(x, y),
    }
}

/// Version `a` against version `b`: `-1` older, `0` the same, `1` newer.
pub fn version_order_exec(a: &str, b: &str) -> (r: i8)
    ensures
        r == version_order(a@, b@),
{
    let ac = str_chars(a);
    let bc = str_chars(b);
    let ap = split_chars(&ac, '.');
    let bp = split_chars(&bc, '.');
    let ghost ca = components(a@);
    let ghost cb = components(b@);
    let mut i: usize = 0;
    assert(ca.subrange(0, ca.len() as int) =~= ca);
    assert(cb.subrange(0, cb.len() as int) =~= cb);
    assert(views(ap@).len() == ap@.len() && views(bp@).len() == bp@.len());
    while i < ap.len() && i < bp.len()
        invariant
            0 <= i <= ap@.len(),
            i <= bp@.len(),
            views(ap@) == ca,
            views(bp@) == cb,
            ca == components(a@),
            cb == components(b@),
            components_order(ca, cb) == components_order(ca.subrange(i as int, ca.len() as int), cb.subrange(i as int, cb.len() as int)),
        decreases ap.len() - i,
    {
        let ghost ra = ca.subrange(i as int, ca.len() as int);
        let ghost rb = cb.subrange(i as int, cb.len() as int);
        assert(ra[0] == ap@[i as int]@ && rb[0] == bp@[i as int]@);
        let o = component_order_exec(&ap[i], &bp[i]);
        if o != 0 {
            return o;
        }
        assert(ra.drop_first() =~= ca.subrange(i + 1, ca.len() as int));
        assert(rb.drop_first() =~= cb.subrange(i + 1, cb.len() as int));
        i = i + 1;
    }
    let ghost ra = ca.subrange(i as int, ca.len() as int);
    let ghost rb = cb.subrange(i as int, cb.len() as int);
    if i < ap.len() {
        1
    } else if i < bp.len() {
        -1
    } else {
        assert(ra.len() == 0 && rb.len() == 0);
        0
    }
}

/// Order two version strings, component by component: numerically when both components parse as
/// integers, lexically otherwise — so `1.10.0` is newer than `1.9.0`.
pub fn version_cmp(a: &str, b: &str) -> (o: Ordering)
    ensures
        o == (if version_order(a@, b@) < 0 {
            Ordering::Less
        } else if version_order(a@, b@) == 0 {
            Ordering::Equal
        } else {
            Ordering::Greater
        }),
{
    let r = version_order_exec(a, b);
    if r < 0 {
        Ordering::Less
    } else if r == 0 {
        Ordering::Equal
    } else {
        Ordering::Greater
    }
}

/// Whether the installed pack `pack` can satisfy `req`: same name, and a matching version.
pub open spec fn candidate(req: PackRequirement, pack: AvailablePack) -> bool {
    pack.name@ == req.name@ && version_matches_spec(req.version@, pack.version@)
}

/// The pack `req` resolves to among the first `k` installed ones: of those that satisfy it, the
/// newest, and of equally new ones the last listed — what ordering the candidates oldest first
/// (keeping listed order among equals) and taking the last one gives.
pub open spec fn best_candidate(req: PackRequirement, available: Seq<AvailablePack>, k: int) -> Option<int>
    decreases k,
{
    if k <= 0 {
        None
    } else {
        let best = best_candidate(req, available, k - 1);
        if candidate(req, available[k - 1]) {
            match best {
                Some(b) => if version_order(available[b].version@, available[k - 1].version@) <= 0 {
                    Some(k - 1)
                } else {
                    best
                },
                None => Some(k - 1),
            }
        } else {
            best
        }
    }
}


proof fn lemma_lex_order_antisymmetric(a: Seq<char>, b: Seq<char>)
    ensures
        lex_order(a, b) == -lex_order(b, a),
        lex_order(a, a) == 0,
    decreases a.len(),
{
    if a.len() > 0 && b.len() > 0 && a[0] == b[0] {
        lemma_lex_order_antisymmetric(a.drop_first(), b.drop_first());
    }
    if a.len() > 0 {
        lemma_lex_order_antisymmetric(a.drop_first(), a.drop_first());
    }
}

proof fn lemma_components_order_antisymmetric(a: Seq<Seq<char>>, b: Seq<Seq<char>>)
    ensures
        components_order(a, b) == -components_order(b, a),
        components_order(a, a) == 0,
    decreases a.len(),
{
    if a.len() > 0 && b.len() > 0 {
        lemma_lex_order_antisymmetric(a[0], b[0]);
        lemma_components_order_antisymmetric(a.drop_first(), b.drop_first());
    }
    if a.len() > 0 {
        lemma_lex_order_antisymmetric(a[0], a[0]);
        lemma_components_order_antisymmetric(a.drop_first(), a.drop_first());
    }
}

/// Version order is antisymmetric, and every version is the same as itself.
pub proof fn lemma_version_order_antisymmetric(a: Seq<char>, b: Seq<char>)
    ensures
        version_order(a, b) == -version_order(b, a),
        version_order(a, a) == 0,
{
    lemma_components_order_antisymmetric(components(a), components(b));
    lemma_components_order_antisymmetric(components(a), components(a));
}

/// Whether the versions of the installed packs that satisfy `req` are totally ordered by version
/// order: it is transitive among them.
pub open spec fn candidates_ordered(req: PackRequirement, available: Seq<AvailablePack>) -> bool {
    forall|i: int, j: int, k: int|
        0 <= i < available.len() && 0 <= j < available.len() && 0 <= k < available.len()
            && candidate(req, #[trigger] available[i]) && candidate(req, #[trigger] available[j])
            && candidate(req, #[trigger] available[k])
            && version_order(available[i].version@, available[j].version@) <= 0
            && version_order(available[j].version@, available[k].version@) <= 0
            ==> version_order(available[i].version@, available[k].version@) <= 0
}

/// **A requirement resolves to the newest version that satisfies it**: the pack chosen satisfies
/// the requirement and no satisfying pack is newer, and a requirement resolves to nothing only
/// when nothing satisfies it — on any set of candidates whose versions order totally (mixing
/// numeric and lexical components can make three versions order in a cycle, and then "newest" has
/// no meaning).
pub proof fn lemma_resolution_takes_the_newest(req: PackRequirement, available: Seq<AvailablePack>, n: int)
    requires
        0 <= n <= available.len(),
        candidates_ordered(req, available),
    ensures
        match best_candidate(req, available, n) {
            Some(b) => 0 <= b < n && candidate(req, available[b]) && forall|j: int| 0 <= j < n
                && candidate(req, #[trigger] available[j]) ==> version_order(available[j].version@, available[b].version@) <= 0,
            None => forall|j: int| 0 <= j < n ==> !candidate(req, #[trigger] available[j]),
        },
    decreases n,
{
    if n > 0 {
        lemma_resolution_takes_the_newest(req, available, n - 1);
        let last = available[n - 1];
        lemma_version_order_antisymmetric(last.version@, last.version@);
        match best_candidate(req, available, n - 1) {
            Some(b) => {
                lemma_version_order_antisymmetric(available[b].version@, last.version@);
                if candidate(req, last) && version_order(available[b].version@, last.version@) <= 0 {
                    assert forall|j: int| 0 <= j < n && candidate(req, #[trigger] available[j])
                        implies version_order(available[j].version@, last.version@) <= 0 by {
                        if j < n - 1 {
                            assert(version_order(available[j].version@, available[b].version@) <= 0);
                        }
                    }
                }
            },
            None => {},
        }
    }
}

/// Whether requirement `i` names the same pack as an earlier one.
pub open spec fn stated_earlier(requirements: Seq<PackRequirement>, i: int) -> bool {
    exists|k: int| 0 <= k < i && (#[trigger] requirements[k]).name@ == requirements[i].name@
}

/// Whether requirement `i` cannot resolve: it repeats an earlier one, or nothing satisfies it.
pub open spec fn refused(requirements: Seq<PackRequirement>, available: Seq<AvailablePack>, i: int) -> bool {
    stated_earlier(requirements, i) || best_candidate(requirements[i], available, available.len() as int) is None
}

/// The versions installed under `name`, in listed order, among the first `k` installed packs.
pub open spec fn versions_named(available: Seq<AvailablePack>, name: Seq<char>, k: int) -> Seq<Seq<char>>
    decreases k,
{
    if k <= 0 {
        Seq::empty()
    } else {
        let rest = versions_named(available, name, k - 1);
        if available[k - 1].name@ == name { rest.push(available[k - 1].version@) } else { rest }
    }
}

/// The views of a vector of strings.
pub open spec fn string_views(v: Seq<String>) -> Seq<Seq<char>> {
    v.map_values(|s: String| s@)
}

/// The refusal owed for requirement `i`.
pub open spec fn refusal_for(
    requirements: Seq<PackRequirement>,
    available: Seq<AvailablePack>,
    root: Seq<char>,
    i: int,
    e: LoadError,
) -> bool {
    let req = requirements[i];
    if stated_earlier(requirements, i) {
        e matches LoadError::PackConflict { what, item, first, second } && what@ == "requirement"@
            && item@ == req.name@ && first@ == req.name@ && second@ == req.name@
    } else {
        e matches LoadError::PackNotInstalled { pack, version, installed, root: r } && pack@ == req.name@
            && version@ == req.version@ && string_views(installed@) == versions_named(available, req.name@, available.len() as int)
            && r@ == root
    }
}

fn stated_before(requirements: &[PackRequirement], i: usize) -> (b: bool)
    requires
        i < requirements@.len(),
    ensures
        b == stated_earlier(requirements@, i as int),
{
    let mut k: usize = 0;
    while k < i
        invariant
            0 <= k <= i < requirements@.len(),
            forall|j: int| 0 <= j < k ==> (#[trigger] requirements@[j]).name@ != requirements@[i as int].name@,
        decreases i - k,
    {
        if requirements[k].name == requirements[i].name {
            return true;
        }
        k = k + 1;
    }
    false
}

fn best_for(req: &PackRequirement, available: &[AvailablePack]) -> (r: Option<usize>)
    ensures
        match r {
            Some(b) => best_candidate(*req, available@, available@.len() as int) == Some(b as int),
            None => best_candidate(*req, available@, available@.len() as int) is None,
        },
{
    let mut best: Option<usize> = None;
    let mut k: usize = 0;
    while k < available.len()
        invariant
            0 <= k <= available@.len(),
            match best {
                Some(b) => best_candidate(*req, available@, k as int) == Some(b as int) && b < k,
                None => best_candidate(*req, available@, k as int) is None,
            },
        decreases available.len() - k,
    {
        let pack = &available[k];
        if pack.name == req.name && version_matches(req.version.as_str(), pack.version.as_str()) {
            best = match best {
                Some(b) => if version_order_exec(available[b].version.as_str(), pack.version.as_str()) <= 0 {
                    Some(k)
                } else {
                    Some(b)
                },
                None => Some(k),
            };
        }
        k = k + 1;
    }
    best
}

fn versions_under(available: &[AvailablePack], name: &String) -> (out: Vec<String>)
    ensures
        string_views(out@) == versions_named(available@, name@, available@.len() as int),
{
    let mut out: Vec<String> = Vec::new();
    let mut k: usize = 0;
    while k < available.len()
        invariant
            0 <= k <= available@.len(),
            string_views(out@) == versions_named(available@, name@, k as int),
        decreases available.len() - k,
    {
        if available[k].name == *name {
            let ghost before = string_views(out@);
            out.push(available[k].version.clone());
            assert(string_views(out@) =~= before.push(available@[k as int].version@));
        }
        k = k + 1;
    }
    out
}

/// Resolve `requirements` against the installed packs `available` (found under `root`): for each
/// requirement in order, the index of the installed pack it resolves to.
///
/// Every requirement must resolve, or the whole resolution is refused at the first that does not:
/// a requirement naming a pack an earlier one already named, or one nothing installed satisfies —
/// the refusal then says what *is* installed under that name.
pub fn resolve_requirements(
    requirements: &[PackRequirement],
    available: &[AvailablePack],
    root: &str,
) -> (r: Result<Vec<usize>, LoadError>)
    ensures
        match r {
            Ok(chosen) => chosen@.len() == requirements@.len()
                && (forall|i: int| 0 <= i < requirements@.len() ==> !#[trigger] refused(requirements@, available@, i))
                && forall|i: int| 0 <= i < requirements@.len()
                    ==> best_candidate(requirements@[i], available@, available@.len() as int)
                    == Some(#[trigger] chosen@[i] as int),
            Err(e) => exists|i: int|
                0 <= i < requirements@.len() && #[trigger] refused(requirements@, available@, i)
                    && (forall|k: int| 0 <= k < i ==> !refused(requirements@, available@, k))
                    && refusal_for(requirements@, available@, root@, i, e),
        },
{
    let mut chosen: Vec<usize> = Vec::new();
    let mut i: usize = 0;
    while i < requirements.len()
        invariant
            0 <= i <= requirements@.len(),
            chosen@.len() == i,
            forall|k: int| 0 <= k < i ==> !#[trigger] refused(requirements@, available@, k),
            forall|k: int| 0 <= k < i ==> best_candidate(requirements@[k], available@, available@.len() as int)
                == Some(#[trigger] chosen@[k] as int),
        decreases requirements.len() - i,
    {
        let req = &requirements[i];
        if stated_before(requirements, i) {
            let name = req.name.clone();
            let e = LoadError::PackConflict {
                what: "requirement".to_owned(),
                item: name.clone(),
                first: name.clone(),
                second: name,
            };
            assert(refused(requirements@, available@, i as int));
            return Err(e);
        }
        match best_for(req, available) {
            Some(b) => {
                chosen.push(b);
            },
            None => {
                let installed = versions_under(available, &req.name);
                let e = LoadError::PackNotInstalled {
                    pack: req.name.clone(),
                    version: req.version.clone(),
                    installed,
                    root: root.to_owned(),
                };
                assert(refused(requirements@, available@, i as int));
                return Err(e);
            },
        }
        i = i + 1;
    }
    Ok(chosen)
}

} // verus!
