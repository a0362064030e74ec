//! The `.qpack` content pack: what makes a pack installable.
//!
//! A pack is the one file that routinely comes from someone else, so provenance is mandatory
//! and every path it carries must stay under its root.

use vstd::prelude::*;
use crate::container::{entry_plan_spec, plan_entry, safe_relative_path, safe_relative_path_spec, EntryPlan};
use crate::defs::{blank, validate_spec, ComponentDefError, DefOutline};
use crate::load::LoadError;
use crate::numbering::{decimal_digits, push_decimal_u64};
use crate::text::{push_str_chars, str_chars, string_from_chars, trim_chars};

verus! {

/// The manifest's fixed name inside a `.qpack` container.
pub const PACK_MANIFEST_NAME: &'static str = "pack.json";

/// The `.qpack` container.
pub struct Qpack;

/// What validation reads of a pack manifest: its identity and provenance, the paths of its
/// assets, and its component definitions by the key each is filed under, in key order.
#[derive(Debug, Clone, PartialEq)]
pub struct PackOutline {
    pub name: String,
    pub version: String,
    pub source: String,
    pub license: String,
    pub asset_paths: Vec<String>,
    pub components: Vec<(String, DefOutline)>,
}

/// The first asset path among the first `n` that is absolute or escapes the pack root.
pub open spec fn first_unsafe(paths: Seq<String>, n: int) -> Option<int>
    decreases n,
{
    if n <= 0 {
        None
    } else {
        match first_unsafe(paths, n - 1) {
            Some(i) => Some(i),
            None => if safe_relative_path_spec(paths[n - 1]@) is None { Some(n - 1) } else { None },
        }
    }
}

/// The refusal for the first faulty definition among the first `n`: one that does not validate,
/// or one that calls itself something other than the key it is filed under.
pub open spec fn first_bad_definition(components: Seq<(String, DefOutline)>, n: int) -> Option<ComponentDefError>
    decreases n,
{
    if n <= 0 {
        None
    } else {
        match first_bad_definition(components, n - 1) {
            Some(e) => Some(e),
            None => {
                let (key, def) = components[n - 1];
                match validate_spec(def) {
                    Err(e) => Some(e),
                    Ok(()) => if def.name@ != key@ {
                        Some(ComponentDefError::NameMismatch { key, def: def.name })
                    } else {
                        None
                    },
                }
            },
        }
    }
}

/// Whether `r` is what validating `p` owes: the first reason it may not be installed, checked in
/// order — an empty name, an empty version, missing provenance (source, then licence), an unsafe
/// asset path, a faulty component definition — or success.
pub open spec fn pack_validation(p: PackOutline, r: Result<(), LoadError>) -> bool {
    if blank(p.name@) {
        r matches Err(LoadError::PackParse(m)) && m@ == "pack `name` is empty"@
    } else if blank(p.version@) {
        r matches Err(LoadError::PackParse(m)) && m@ == "pack `"@ + p.name@ + "` has an empty `version`"@
    } else if blank(p.source@) {
        r matches Err(LoadError::PackMissingProvenance { pack, field }) && pack == p.name && field@ == "source"@
    } else if blank(p.license@) {
        r matches Err(LoadError::PackMissingProvenance { pack, field }) && pack == p.name && field@ == "license"@
    } else {
        match first_unsafe(p.asset_paths@, p.asset_paths@.len() as int) {
            Some(i) => r == Err::<(), LoadError>(LoadError::PackUnsafePath { pack: p.name, path: p.asset_paths@[i] }),
            None => match first_bad_definition(p.components@, p.components@.len() as int) {
                Some(e) => r == Err::<(), LoadError>(LoadError::ComponentDef(e)),
                None => r == Ok::<(), LoadError>(()),
            },
        }
    }
}

fn is_blank(s: &String) -> (b: bool)
    ensures
        b == blank(s@),
{
    let chars = str_chars(s.as_str());
    let t = trim_chars(&chars);
    t.len() == 0
}

proof fn lemma_first_unsafe_found(paths: Seq<String>, m: int, n: int)
    requires
        0 <= m <= n,
        first_unsafe(paths, m) is Some,
    ensures
        first_unsafe(paths, n) == first_unsafe(paths, m),
    decreases n - m,
{
    if n > m {
        lemma_first_unsafe_found(paths, m, n - 1);
    }
}

proof fn lemma_first_bad_definition_found(components: Seq<(String, DefOutline)>, m: int, n: int)
    requires
        0 <= m <= n,
        first_bad_definition(components, m) is Some,
    ensures
        first_bad_definition(components, n) == first_bad_definition(components, m),
    decreases n - m,
{
    if n > m {
        lemma_first_bad_definition_found(components, m, n - 1);
    }
}

impl PackOutline {
    /// Refuse a pack this build should not install, naming the first reason.
    pub fn validate(&self) -> (r: Result<(), LoadError>)
        ensures
            pack_validation(*self, r),
    {
        if is_blank(&self.name) {
            return Err(LoadError::PackParse("pack `name` is empty".to_owned()));
        }
        if is_blank(&self.version) {
            let mut msg = str_chars("pack `");
            let name = str_chars(self.name.as_str());
            crate::text::push_all(&mut msg, &name);
            let tail = str_chars("` has an empty `version`");
            crate::text::push_all(&mut msg, &tail);
            return Err(LoadError::PackParse(crate::text::string_from_chars(&msg)));
        }
        if is_blank(&self.source) {
            return Err(LoadError::PackMissingProvenance { pack: self.name.clone(), field: "source".to_owned() });
        }
        if is_blank(&self.license) {
            return Err(LoadError::PackMissingProvenance { pack: self.name.clone(), field: "license".to_owned() });
        }
        let mut i: usize = 0;
        while i < self.asset_paths.len()
            invariant
                0 <= i <= self.asset_paths@.len(),
                !blank(self.name@) && !blank(self.version@) && !blank(self.source@) && !blank(self.license@),
                first_unsafe(self.asset_paths@, i as int) is None,
            decreases self.asset_paths.len() - i,
        {
            if safe_relative_path(self.asset_paths[i].as_str()).is_none() {
                proof {
                    lemma_first_unsafe_found(self.asset_paths@, i + 1, self.asset_paths@.len() as int);
                }
                return Err(LoadError::PackUnsafePath { pack: self.name.clone(), path: self.asset_paths[i].clone() });
            }
            i = i + 1;
        }
        let mut k: usize = 0;
        while k < self.components.len()
            invariant
                0 <= k <= self.components@.len(),
                !blank(self.name@) && !blank(self.version@) && !blank(self.source@) && !blank(self.license@),
                first_unsafe(self.asset_paths@, self.asset_paths@.len() as int) is None,
                first_bad_definition(self.components@, k as int) is None,
            decreases self.components.len() - k,
        {
            let (key, def) = &self.components[k];
            match def.validate() {
                Err(e) => {
                    proof {
                        lemma_first_bad_definition_found(self.components@, k + 1, self.components@.len() as int);
                    }
                    return Err(LoadError::ComponentDef(e));
                },
                Ok(()) => {},
            }
            if def.name != *key {
                proof {
                    lemma_first_bad_definition_found(self.components@, k + 1, self.components@.len() as int);
                }
                return Err(LoadError::ComponentDef(ComponentDefError::NameMismatch { key: key.clone(), def: def.name.clone() }));
            }
            k = k + 1;
        }
        Ok(())
    }
}


/// Refuse a document carrying a component definition this build cannot lay out: the first, in key
/// order, that does not validate or that calls itself something other than its key.
pub fn validate_components(components: &Vec<(String, DefOutline)>) -> (r: Result<(), LoadError>)
    ensures
        match first_bad_definition(components@, components@.len() as int) {
            Some(e) => r == Err::<(), LoadError>(LoadError::ComponentDef(e)),
            None => r == Ok::<(), LoadError>(()),
        },
{
    let mut k: usize = 0;
    while k < components.len()
        invariant
            0 <= k <= components@.len(),
            first_bad_definition(components@, k as int) is None,
        decreases components.len() - k,
    {
        let (key, def) = &components[k];
        match def.validate() {
            Err(e) => {
                proof {
                    lemma_first_bad_definition_found(components@, k + 1, components@.len() as int);
                }
                return Err(LoadError::ComponentDef(e));
            },
            Ok(()) => {},
        }
        if def.name != *key {
            proof {
                lemma_first_bad_definition_found(components@, k + 1, components@.len() as int);
            }
            return Err(LoadError::ComponentDef(ComponentDefError::NameMismatch { key: key.clone(), def: def.name.clone() }));
        }
        k = k + 1;
    }
    Ok(())
}

/// Every (pack, item) claim in order, flattened: pack by pack, each pack's items in order.
pub open spec fn claims(packs: Seq<(String, Vec<String>)>, n: int) -> Seq<(int, Seq<char>)>
    decreases n,
{
    if n <= 0 {
        Seq::empty()
    } else {
        claims(packs, n - 1) + packs[n - 1].1@.map_values(|item: String| (n - 1, item@))
    }
}

/// The position (in `claims`) of the first claim that names an item an earlier claim named.
pub open spec fn first_repeat(c: Seq<(int, Seq<char>)>, n: int) -> Option<int>
    decreases n,
{
    if n <= 0 {
        None
    } else {
        match first_repeat(c, n - 1) {
            Some(t) => Some(t),
            None => if exists|s: int| 0 <= s < n - 1 && (#[trigger] c[s]).1 == c[n - 1].1 { Some(n - 1) } else { None },
        }
    }
}

/// Collect the items several packs define, refusing a name two claims share: the claims, pack by
/// pack and item by item, as (pack, item) positions — or, at the first claim whose name an earlier
/// claim took, a conflict naming the `what`, the item, the pack that claimed it first and the pack
/// that claimed it again. Last-one-wins would make the winner depend on the packs' names.
pub fn claim_pack_items(packs: &Vec<(String, Vec<String>)>, what: &str) -> (r: Result<Vec<(usize, usize)>, LoadError>)
    ensures
        ({
            let c = claims(packs@, packs@.len() as int);
            match first_repeat(c, c.len() as int) {
                None => r matches Ok(v) && v@.len() == c.len() && forall|t: int| 0 <= t < c.len() ==> {
                    let (p, k) = #[trigger] v@[t];
                    &&& p < packs@.len() && k < packs@[p as int].1@.len()
                    &&& c[t] == (p as int, packs@[p as int].1@[k as int]@)
                },
                Some(t) => r matches Err(LoadError::PackConflict { what: w, item, first, second }) && w@ == what@
                    && item@ == c[t].1 && second@ == packs@[c[t].0].0@
                    && exists|s: int| 0 <= s < t && c[s].1 == c[t].1 && first@ == packs@[c[s].0].0@,
            }
        }),
{
    let mut taken: Vec<(usize, usize)> = Vec::new();
    let ghost all = claims(packs@, packs@.len() as int);
    let mut p: usize = 0;
    while p < packs.len()
        invariant
            0 <= p <= packs@.len(),
            all == claims(packs@, packs@.len() as int),
            claims(packs@, p as int).len() <= all.len(),
            all.subrange(0, claims(packs@, p as int).len() as int) == claims(packs@, p as int),
            taken@.len() == claims(packs@, p as int).len(),
            first_repeat(claims(packs@, p as int), taken@.len() as int) is None,
            forall|t: int| 0 <= t < taken@.len() ==> {
                let (q, k) = #[trigger] taken@[t];
                &&& q < packs@.len() && k < packs@[q as int].1@.len()
                &&& claims(packs@, p as int)[t] == (q as int, packs@[q as int].1@[k as int]@)
            },
        decreases packs.len() - p,
    {
        let items = &packs[p].1;
        let ghost before = claims(packs@, p as int);
        let ghost after = claims(packs@, p + 1);
        assert(after == before + items@.map_values(|item: String| (p as int, item@)));
        proof {
            lemma_claims_extend(packs@, p + 1, packs@.len() as int);
            assert(after.subrange(0, before.len() as int) =~= before);
            assert(before.subrange(0, before.len() as int) =~= before);
            lemma_first_repeat_prefix(after, before, before.len() as int);
        }
        let mut k: usize = 0;
        while k < items.len()
            invariant
                0 <= p < packs@.len(),
                items == &packs@[p as int].1,
                all == claims(packs@, packs@.len() as int),
                before == claims(packs@, p as int),
                after == before + items@.map_values(|item: String| (p as int, item@)),
                after == claims(packs@, p + 1),
                after.len() <= all.len(),
                all.subrange(0, after.len() as int) == after,
                taken@.len() == before.len() + k,
                0 <= k <= items@.len(),
                first_repeat(after, taken@.len() as int) is None,
                forall|t: int| 0 <= t < taken@.len() ==> {
                    let (q, j) = #[trigger] taken@[t];
                    &&& q < packs@.len() && j < packs@[q as int].1@.len()
                    &&& after[t] == (q as int, packs@[q as int].1@[j as int]@)
                },
            decreases items.len() - k,
        {
            let name = &items[k];
            let ghost t_now = taken@.len() as int;
            assert(after[t_now] == (p as int, name@));
            let mut s: usize = 0;
            while s < taken.len()
                invariant
                    0 <= p < packs@.len(),
                    all == claims(packs@, packs@.len() as int),
                    0 <= s <= taken@.len(),
                    t_now == taken@.len(),
                    t_now < after.len(),
                    after.len() <= all.len(),
                    all.subrange(0, after.len() as int) == after,
                    first_repeat(after, t_now) is None,
                    after[t_now] == (p as int, name@),
                    forall|t: int| 0 <= t < taken@.len() ==> {
                        let (q, j) = #[trigger] taken@[t];
                        &&& q < packs@.len() && j < packs@[q as int].1@.len()
                        &&& after[t] == (q as int, packs@[q as int].1@[j as int]@)
                    },
                    forall|u: int| 0 <= u < s ==> (#[trigger] after[u]).1 != name@,
                decreases taken.len() - s,
            {
                let (q, j) = taken[s];
                if packs[q].1[j] == *name {
                    proof {
                        assert(taken@[s as int] == (q, j));
                        assert(after[s as int] == (q as int, packs@[q as int].1@[j as int]@));
                        assert(after[s as int].1 == after[t_now].1);
                        assert(first_repeat(after, t_now + 1) == Some(t_now));
                        assert(all.subrange(0, t_now + 1) =~= after.subrange(0, t_now + 1)) by {
                            assert forall|u: int| 0 <= u < t_now + 1 implies all[u] == after[u] by {
                                assert(all.subrange(0, after.len() as int)[u] == all[u]);
                            }
                        }
                        lemma_first_repeat_prefix(all, after, t_now + 1);
                        lemma_first_repeat_stays(all, t_now + 1, all.len() as int);
                        assert(all[t_now] == after[t_now]) by {
                            assert(all.subrange(0, after.len() as int)[t_now] == all[t_now]);
                        }
                        assert(all[s as int] == after[s as int]) by {
                            assert(all.subrange(0, after.len() as int)[s as int] == all[s as int]);
                        }
                        assert(all[s as int].0 == q as int);
                        assert(all[t_now].0 == p as int);
                        assert(0 <= s < t_now && all[s as int].1 == all[t_now].1);
                    }
                    return Err(LoadError::PackConflict {
                        what: what.to_owned(),
                        item: name.clone(),
                        first: packs[q].0.clone(),
                        second: packs[p].0.clone(),
                    });
                }
                s = s + 1;
            }
            assert(!exists|u: int| 0 <= u < t_now && (#[trigger] after[u]).1 == after[t_now].1);
            taken.push((p, k));
            k = k + 1;
        }
        p = p + 1;
    }
    Ok(taken)
}

proof fn lemma_first_repeat_stays(c: Seq<(int, Seq<char>)>, m: int, n: int)
    requires
        0 <= m <= n,
        first_repeat(c, m) is Some,
    ensures
        first_repeat(c, n) == first_repeat(c, m),
    decreases n - m,
{
    if n > m {
        lemma_first_repeat_stays(c, m, n - 1);
    }
}

proof fn lemma_claims_extend(packs: Seq<(String, Vec<String>)>, m: int, n: int)
    requires
        0 <= m <= n,
    ensures
        claims(packs, m).len() <= claims(packs, n).len(),
        claims(packs, n).subrange(0, claims(packs, m).len() as int) == claims(packs, m),
    decreases n - m,
{
    if n > m {
        lemma_claims_extend(packs, m, n - 1);
        let lm = claims(packs, m).len() as int;
        assert(claims(packs, n).subrange(0, lm) =~= claims(packs, n - 1).subrange(0, lm)) by {
            assert forall|u: int| 0 <= u < lm implies claims(packs, n)[u] == claims(packs, n - 1)[u] by {}
        }
    } else {
        assert(claims(packs, n).subrange(0, claims(packs, n).len() as int) =~= claims(packs, n));
    }
}

proof fn lemma_first_repeat_prefix(c1: Seq<(int, Seq<char>)>, c2: Seq<(int, Seq<char>)>, n: int)
    requires
        0 <= n <= c1.len(),
        n <= c2.len(),
        c1.subrange(0, n) == c2.subrange(0, n),
    ensures
        first_repeat(c1, n) == first_repeat(c2, n),
    decreases n,
{
    if n > 0 {
        assert forall|u: int| 0 <= u < n implies c1[u] == c2[u] by {
            assert(c1.subrange(0, n)[u] == c1[u]);
            assert(c2.subrange(0, n)[u] == c2[u]);
        }
        assert(c1.subrange(0, n - 1) =~= c2.subrange(0, n - 1));
        lemma_first_repeat_prefix(c1, c2, n - 1);
        if exists|s: int| 0 <= s < n - 1 && (#[trigger] c1[s]).1 == c1[n - 1].1 {
            let s = choose|s: int| 0 <= s < n - 1 && (#[trigger] c1[s]).1 == c1[n - 1].1;
            assert(c2[s].1 == c2[n - 1].1);
        }
        if exists|s: int| 0 <= s < n - 1 && (#[trigger] c2[s]).1 == c2[n - 1].1 {
            let s = choose|s: int| 0 <= s < n - 1 && (#[trigger] c2[s]).1 == c2[n - 1].1;
            assert(c1[s].1 == c1[n - 1].1);
        }
    }
}


/// What opening a `.qpack` does with one of its entries: `pack.json` is skipped (it was read,
/// gated and validated first), any other entry is extracted under its safe path, and an entry
/// that would escape the extraction root is refused rather than sanitized — a pack that tried to
/// escape is not a pack to be repaired.
pub fn qpack_entry(pack: &str, name: &str, is_dir: bool) -> (r: Result<EntryPlan, LoadError>)
    ensures
        name@ == PACK_MANIFEST_NAME@ ==> r == Ok::<EntryPlan, LoadError>(EntryPlan::Skip),
        name@ != PACK_MANIFEST_NAME@ ==> match safe_relative_path_spec(name@) {
            None => r matches Err(LoadError::PackUnsafePath { pack: p, path }) && p@ == pack@ && path@ == name@,
            Some(rel) => r matches Ok(plan) && entry_plan_spec(rel, is_dir, plan),
        },
{
    match plan_entry(name, PACK_MANIFEST_NAME, is_dir) {
        Some(plan) => Ok(plan),
        None => Err(LoadError::PackUnsafePath { pack: pack.to_string(), path: name.to_string() }),
    }
}

/// Whether a payload entry may be written into a `.qpack`: an unsafe name is refused, naming the
/// pack.
pub fn qpack_payload_name(pack: &str, name: &str) -> (r: Result<(), LoadError>)
    ensures
        safe_relative_path_spec(name@) is Some ==> r == Ok::<(), LoadError>(()),
        safe_relative_path_spec(name@) is None ==> (r matches Err(LoadError::PackUnsafePath { pack: p, path })
            && p@ == pack@ && path@ == name@),
{
    match safe_relative_path(name) {
        Some(_) => Ok(()),
        None => Err(LoadError::PackUnsafePath { pack: pack.to_string(), path: name.to_string() }),
    }
}


/// Whether an install may go ahead: the pack must validate, and a *different* pack already
/// installed at its name and version (`existing` is `Some(false)`; `Some(true)` when the one there
/// is this very pack, `None` when nothing is) is refused unless `force` — two packs claiming one
/// name and version is a mistake somebody needs to see.
pub fn install_check(manifest: &PackOutline, dest: &str, existing: Option<bool>, force: bool) -> (r: Result<(), LoadError>)
    ensures
        pack_validation(*manifest, Ok(())) ==> if existing == Some(false) && !force {
            r matches Err(LoadError::PackAlreadyInstalled { pack, version, path })
                && pack == manifest.name && version == manifest.version && path@ == dest@
        } else {
            r == Ok::<(), LoadError>(())
        },
        !pack_validation(*manifest, Ok(())) ==> r is Err && pack_validation(*manifest, r),
{
    match manifest.validate() {
        Err(e) => Err(e),
        Ok(()) => {
            if existing == Some(false) && !force {
                Err(LoadError::PackAlreadyInstalled {
                    pack: manifest.name.clone(),
                    version: manifest.version.clone(),
                    path: dest.to_string(),
                })
            } else {
                Ok(())
            }
        },
    }
}

/// Which of a document's assets travel with a pack extracted from it: exactly those the master
/// furniture references (by id), in the document's order. Furniture art is design and belongs to
/// the look; art placed in the flow is content and stays behind.
pub open spec fn furniture_assets_spec(furniture: Seq<String>, asset_ids: Seq<String>, n: int) -> Seq<usize>
    decreases n,
{
    if n <= 0 {
        Seq::empty()
    } else {
        let rest = furniture_assets_spec(furniture, asset_ids, n - 1);
        if exists|k: int| 0 <= k < furniture.len() && (#[trigger] furniture[k])@ == asset_ids[n - 1]@ {
            rest.push((n - 1) as usize)
        } else {
            rest
        }
    }
}

fn names_contain(names: &Vec<String>, name: &String) -> (b: bool)
    ensures
        b == exists|k: int| 0 <= k < names@.len() && (#[trigger] names@[k])@ == name@,
{
    let mut k: usize = 0;
    while k < names.len()
        invariant
            0 <= k <= names@.len(),
            forall|j: int| 0 <= j < k ==> (#[trigger] names@[j])@ != name@,
        decreases names.len() - k,
    {
        if names[k] == *name {
            return true;
        }
        k = k + 1;
    }
    false
}

/// The positions of the assets whose ids the master furniture references, in order.
pub fn furniture_assets(furniture: &Vec<String>, asset_ids: &Vec<String>) -> (out: Vec<usize>)
    ensures
        out@ == furniture_assets_spec(furniture@, asset_ids@, asset_ids@.len() as int),
{
    let mut out: Vec<usize> = Vec::new();
    let mut i: usize = 0;
    while i < asset_ids.len()
        invariant
            0 <= i <= asset_ids@.len(),
            out@ == furniture_assets_spec(furniture@, asset_ids@, i as int),
        decreases asset_ids.len() - i,
    {
        if names_contain(furniture, &asset_ids[i]) {
            out.push(i);
        }
        i = i + 1;
    }
    out
}

/// The description a pack extracted from a document carries.
pub open spec fn extraction_description_spec(blocks: usize) -> Seq<char> {
    "Extracted from a document with "@ + decimal_digits(blocks as nat) + " block(s)."@
}

/// The description a pack extracted from a document of `blocks` blocks carries.
pub fn extraction_description(blocks: usize) -> (s: String)
    ensures
        s@ == extraction_description_spec(blocks),
{
    let mut out = str_chars("Extracted from a document with ");
    push_decimal_u64(blocks as u64, &mut out);
    push_str_chars(&mut out, " block(s).");
    string_from_chars(&out)
}

} // verus!
