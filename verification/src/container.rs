//! The rule every container entry name and every book chapter path is held to: a relative path
//! that stays under the directory it is resolved against.

use vstd::prelude::*;
use crate::load::LoadError;
use crate::text::{chars_equal, push_str_chars, split_chars, split_on, str_chars, string_from_chars, views};

verus! {

/// The manifest's fixed name inside a `.tpub` container.
pub const MANIFEST_NAME: &'static str = "document.json";

/// The `.tpub` container: a zip holding `document.json` plus the linked assets it references.
pub struct Tpub;

/// The parts of a `/`-separated path that name something: not empty (a doubled or trailing
/// separator) and not `.`.
pub open spec fn named_parts(parts: Seq<Seq<char>>) -> Seq<Seq<char>>
    decreases parts.len(),
{
    if parts.len() == 0 {
        Seq::empty()
    } else {
        let rest = named_parts(parts.drop_last());
        let p = parts.last();
        if p.len() == 0 || p == seq!['.'] { rest } else { rest.push(p) }
    }
}

/// `parts` joined with `/` between each two.
pub open spec fn join_parts(parts: Seq<Seq<char>>) -> Seq<char>
    decreases parts.len(),
{
    if parts.len() == 0 {
        Seq::empty()
    } else if parts.len() == 1 {
        parts[0]
    } else {
        join_parts(parts.drop_last()) + seq!['/'] + parts.last()
    }
}

/// Whether some part of `parts` is `..`.
pub open spec fn climbs(parts: Seq<Seq<char>>) -> bool {
    exists|i: int| 0 <= i < parts.len() && #[trigger] parts[i] == seq!['.', '.']
}

/// A container entry name as a path guaranteed to stay under the root it is resolved against, or
/// `None`: an empty name, an absolute one, or one with a `..` part is refused — refused, not
/// repaired — and so is one that names nothing once `.` and empty parts are dropped.
pub open spec fn safe_relative_path_spec(name: Seq<char>) -> Option<Seq<char>> {
    let parts = split_on(name, '/');
    if name.len() == 0 || name[0] == '/' || climbs(parts) || named_parts(parts).len() == 0 {
        None
    } else {
        Some(join_parts(named_parts(parts)))
    }
}

proof fn lemma_named_parts_clean(parts: Seq<Seq<char>>)
    requires
        !climbs(parts),
    ensures
        forall|i: int| 0 <= i < named_parts(parts).len() ==> {
            let p = #[trigger] named_parts(parts)[i];
            p.len() > 0 && p != seq!['.'] && p != seq!['.', '.'] && parts.contains(p)
        },
    decreases parts.len(),
{
    if parts.len() > 0 {
        let init = parts.drop_last();
        assert(!climbs(init)) by {
            if climbs(init) {
                let i = choose|i: int| 0 <= i < init.len() && #[trigger] init[i] == seq!['.', '.'];
                assert(parts[i] == init[i]);
            }
        }
        lemma_named_parts_clean(init);
        let rest = named_parts(init);
        assert forall|i: int| 0 <= i < rest.len() implies parts.contains(#[trigger] rest[i]) by {
            assert(init.contains(rest[i]));
            let k = choose|k: int| 0 <= k < init.len() && init[k] == rest[i];
            assert(parts[k] == init[k]);
        }
        assert(parts[parts.len() - 1] == parts.last());
    }
}

/// The named parts of a path never contain `/`, `.` or `..`, and never are empty: the joined
/// result of [`safe_relative_path`] therefore names a file under the root and cannot climb out.
pub proof fn lemma_safe_path_stays_under_root(name: Seq<char>)
    requires
        safe_relative_path_spec(name) is Some,
    ensures
        forall|i: int| 0 <= i < named_parts(split_on(name, '/')).len() ==> {
            let p = #[trigger] named_parts(split_on(name, '/'))[i];
            p.len() > 0 && p != seq!['.', '.'] && !p.contains('/')
        },
{
    let parts = split_on(name, '/');
    lemma_named_parts_clean(parts);
    lemma_split_parts_have_no_separator(name, '/');
    assert forall|i: int| 0 <= i < named_parts(parts).len() implies !(#[trigger] named_parts(parts)[i]).contains('/') by {
        let p = named_parts(parts)[i];
        assert(parts.contains(p));
        let k = choose|k: int| 0 <= k < parts.len() && parts[k] == p;
        assert(!parts[k].contains('/'));
    }
}

/// No part of `s` split on `sep` contains `sep`.
proof fn lemma_split_parts_have_no_separator(s: Seq<char>, sep: char)
    ensures
        forall|k: int| 0 <= k < split_on(s, sep).len() ==> !(#[trigger] split_on(s, sep)[k]).contains(sep),
    decreases s.len(),
{
    if s.len() > 0 {
        lemma_split_parts_have_no_separator(s.drop_last(), sep);
        crate::text::lemma_split_nonempty(s.drop_last(), sep);
        let rest = split_on(s.drop_last(), sep);
        if s.last() != sep {
            let last = rest.last().push(s.last());
            assert(!rest[rest.len() - 1].contains(sep));
            assert forall|j: int| 0 <= j < last.len() implies last[j] != sep by {
                if j < last.len() - 1 {
                    assert(last[j] == rest.last()[j]);
                }
            }
        }
    }
}

/// Convert a container entry name to a path guaranteed to stay under the extraction root, or
/// `None` if it does not: `/`-separated, with `.` and empty parts dropped.
pub fn safe_relative_path(name: &str) -> (r: Option<String>)
    ensures
        match r {
            Some(p) => safe_relative_path_spec(name@) == Some(p@),
            None => safe_relative_path_spec(name@) is None,
        },
{
    let chars = str_chars(name);
    if chars.len() == 0 || chars[0] == '/' {
        return None;
    }
    let parts = split_chars(&chars, '/');
    let ghost all = split_on(name@, '/');
    let dot: Vec<char> = vec!['.'];
    let dotdot: Vec<char> = vec!['.', '.'];
    assert(dot@ =~= seq!['.']);
    assert(dotdot@ =~= seq!['.', '.']);
    let mut out: Vec<char> = Vec::new();
    let mut kept: usize = 0;
    let mut i: usize = 0;
    assert(views(parts@).len() == parts@.len());
    while i < parts.len()
        invariant
            0 <= i <= parts@.len(),
            kept <= i,
            views(parts@) == all,
            all == split_on(name@, '/'),
            dot@ == seq!['.'],
            dotdot@ == seq!['.', '.'],
            !climbs(all.subrange(0, i as int)),
            kept == named_parts(all.subrange(0, i as int)).len(),
            out@ == join_parts(named_parts(all.subrange(0, i as int))),
        decreases parts.len() - i,
    {
        let part = &parts[i];
        assert(all[i as int] == part@);
        let ghost sub = all.subrange(0, i + 1);
        assert(sub.drop_last() =~= all.subrange(0, i as int));
        assert(sub.last() == part@);
        if chars_equal(part, &dotdot) {
            assert(all[i as int] == seq!['.', '.']);
            assert(climbs(all));
            return None;
        }
        assert(!climbs(sub)) by {
            if climbs(sub) {
                let k = choose|k: int| 0 <= k < sub.len() && #[trigger] sub[k] == seq!['.', '.'];
                if k < i {
                    assert(all.subrange(0, i as int)[k] == sub[k]);
                }
            }
        }
        let ghost np = named_parts(all.subrange(0, i as int));
        if part.len() > 0 && !chars_equal(part, &dot) {
            let ghost before = out@;
            if kept > 0 {
                out.push('/');
            }
            crate::text::push_all(&mut out, part);
            kept = kept + 1;
            proof {
                assert(named_parts(sub) == np.push(part@));
                assert(np.push(part@).drop_last() =~= np);
                if np.len() > 0 {
                    assert(out@ =~= before + seq!['/'] + part@);
                } else {
                    assert(out@ =~= part@);
                }
            }
        } else {
            assert(named_parts(sub) == np);
        }
        i = i + 1;
    }
    assert(all.subrange(0, all.len() as int) =~= all);
    if kept == 0 {
        return None;
    }
    Some(string_from_chars(&out))
}


/// What opening a container does with one of its entries.
#[derive(Debug, Clone, PartialEq)]
pub enum EntryPlan {
    /// The manifest, already read: not extracted again.
    Skip,
    /// A directory, created at this path under the extraction root.
    Directory(String),
    /// A file, written at this path under the extraction root.
    File(String),
}

/// What opening does with an entry named `name` whose path is safe and is not the manifest's.
pub open spec fn entry_plan_spec(rel: Seq<char>, is_dir: bool, plan: EntryPlan) -> bool {
    if is_dir { plan matches EntryPlan::Directory(p) && p@ == rel } else { plan matches EntryPlan::File(p) && p@ == rel }
}

/// Where an entry goes: skipped if it is the manifest, else to its safe path, as a directory or
/// a file; `None` for a name that would escape the extraction root.
pub fn plan_entry(name: &str, manifest: &str, is_dir: bool) -> (r: Option<EntryPlan>)
    ensures
        name@ == manifest@ ==> r == Some(EntryPlan::Skip),
        name@ != manifest@ ==> match safe_relative_path_spec(name@) {
            None => r is None,
            Some(rel) => r matches Some(plan) && entry_plan_spec(rel, is_dir, plan),
        },
{
    let n = str_chars(name);
    let m = str_chars(manifest);
    if chars_equal(&n, &m) {
        return Some(EntryPlan::Skip);
    }
    match safe_relative_path(name) {
        None => None,
        Some(rel) => if is_dir { Some(EntryPlan::Directory(rel)) } else { Some(EntryPlan::File(rel)) },
    }
}

/// What opening a `.tpub` does with one of its entries: `document.json` is skipped (it was read
/// and version-gated first), any other entry is extracted under its safe path, and an entry whose
/// name would escape the extraction directory is refused loudly — the classic zip-slip.
pub fn tpub_entry(name: &str, is_dir: bool) -> (r: Result<EntryPlan, LoadError>)
    ensures
        name@ == MANIFEST_NAME@ ==> r == Ok::<EntryPlan, LoadError>(EntryPlan::Skip),
        name@ != MANIFEST_NAME@ ==> match safe_relative_path_spec(name@) {
            None => r matches Err(LoadError::Container(m))
                && m@ == "entry '"@ + name@ + "' escapes the extraction directory"@,
            Some(rel) => r matches Ok(plan) && entry_plan_spec(rel, is_dir, plan),
        },
{
    match plan_entry(name, MANIFEST_NAME, is_dir) {
        Some(plan) => Ok(plan),
        None => {
            let mut m = str_chars("entry '");
            push_str_chars(&mut m, name);
            push_str_chars(&mut m, "' escapes the extraction directory");
            Err(LoadError::Container(string_from_chars(&m)))
        },
    }
}

/// Whether a payload entry may be written into a `.tpub`: its name must be a safe
/// container-relative path, or the write is refused.
pub fn tpub_payload_name(name: &str) -> (r: Result<(), LoadError>)
    ensures
        safe_relative_path_spec(name@) is Some ==> r == Ok::<(), LoadError>(()),
        safe_relative_path_spec(name@) is None ==> (r matches Err(LoadError::Container(m))
            && m@ == "entry '"@ + name@ + "' is not a safe container-relative path"@),
{
    match safe_relative_path(name) {
        Some(_) => Ok(()),
        None => {
            let mut m = str_chars("entry '");
            push_str_chars(&mut m, name);
            push_str_chars(&mut m, "' is not a safe container-relative path");
            Err(LoadError::Container(string_from_chars(&m)))
        },
    }
}

} // verus!
