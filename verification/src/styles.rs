//! Which named style a block or a run is set in.
//!
//! The treatments themselves are measurements; what is decided here is the precedence of names,
//! and it is decided once, so that layout and preflight cannot disagree about it: a heading is
//! set in the style it names or in `h{level}`, a body paragraph in the style it names or in
//! `body`; a name the sheet does not define falls back to `body`, and a sheet without `body`
//! falls back to the default treatment.

use vstd::prelude::*;
use crate::numbering::decimal_digits;
use crate::tokens::{clamp_level, heading_style_name};

verus! {

/// The paragraph style an unstyled body paragraph is set in.
pub const BODY_STYLE: &'static str = "body";

/// What a block asks of the paragraph styles.
#[derive(Debug, Clone, PartialEq)]
pub enum StyleRequest {
    /// A heading of `level`, naming a style or not.
    Heading { style: Option<String>, level: u8 },
    /// A body paragraph, naming a style or not.
    Body { style: Option<String> },
    /// A block with no single paragraph to style: an image, a panel, a table, a component, a
    /// contents list or an index.
    Composite,
}

/// The style name a block asks for; none for a composite.
pub open spec fn requested_name(r: StyleRequest) -> Option<Seq<char>> {
    match r {
        StyleRequest::Heading { style, level } => Some(match style {
            Some(s) => s@,
            None => seq!['h'] + decimal_digits(clamp_level(level) as nat),
        }),
        StyleRequest::Body { style } => Some(match style {
            Some(s) => s@,
            None => BODY_STYLE@,
        }),
        StyleRequest::Composite => None,
    }
}

/// The first position among the first `n` of `names` holding `name`.
pub open spec fn position_of(names: Seq<String>, name: Seq<char>, n: int) -> Option<int>
    decreases n,
{
    if n <= 0 {
        None
    } else {
        match position_of(names, name, n - 1) {
            Some(i) => Some(i),
            None => if names[n - 1]@ == name { Some(n - 1) } else { None },
        }
    }
}

/// Where `name` stands in `names`, if it does.
pub open spec fn position_in(names: Seq<String>, name: Seq<char>) -> Option<int> {
    position_of(names, name, names.len() as int)
}

/// The paragraph style a block resolves to among the defined ones (by position): the one it
/// names, else `body`; none for a composite, or when neither is defined (the default treatment).
pub open spec fn paragraph_slot_spec(names: Seq<String>, r: StyleRequest) -> Option<int> {
    match requested_name(r) {
        None => None,
        Some(n) => match position_in(names, n) {
            Some(i) => Some(i),
            None => position_in(names, BODY_STYLE@),
        },
    }
}

proof fn lemma_position_found(names: Seq<String>, name: Seq<char>, m: int, n: int)
    requires
        0 <= m <= n,
        position_of(names, name, m) is Some,
    ensures
        position_of(names, name, n) == position_of(names, name, m),
    decreases n - m,
{
    if n > m {
        lemma_position_found(names, name, m, n - 1);
    }
}

/// Where `name` stands in `names`.
pub fn find_name(names: &Vec<String>, name: &str) -> (r: Option<usize>)
    ensures
        match position_in(names@, name@) {
            Some(i) => r == Some(i as usize),
            None => r is None,
        },
{
    let target = name.to_string();
    let mut i: usize = 0;
    while i < names.len()
        invariant
            0 <= i <= names@.len(),
            target@ == name@,
            position_of(names@, name@, i as int) is None,
        decreases names.len() - i,
    {
        if names[i] == target {
            proof {
                lemma_position_found(names@, name@, i + 1, names@.len() as int);
            }
            return Some(i);
        }
        i = i + 1;
    }
    None
}

/// The style name a block asks for.
pub fn requested_style_name(r: &StyleRequest) -> (n: Option<String>)
    ensures
        match requested_name(*r) {
            Some(s) => n matches Some(t) && t@ == s,
            None => n is None,
        },
{
    match r {
        StyleRequest::Heading { style, level } => match style {
            Some(s) => Some(s.clone()),
            None => Some(heading_style_name(*level)),
        },
        StyleRequest::Body { style } => match style {
            Some(s) => Some(s.clone()),
            None => Some(BODY_STYLE.to_string()),
        },
        StyleRequest::Composite => None,
    }
}

/// Which defined paragraph style (by position in `names`) a block is set in: the one it names,
/// else `body`; `None` means the default treatment — always so for a composite, whose parts
/// resolve their own styles.
pub fn paragraph_style_slot(names: &Vec<String>, r: &StyleRequest) -> (slot: Option<usize>)
    ensures
        match paragraph_slot_spec(names@, *r) {
            Some(i) => slot == Some(i as usize),
            None => slot is None,
        },
{
    match requested_style_name(r) {
        None => None,
        Some(n) => match find_name(names, n.as_str()) {
            Some(i) => Some(i),
            None => find_name(names, BODY_STYLE),
        },
    }
}

/// Which tab-stop list (by position in `names`) a block is set with: the one filed under the
/// style name it asks for, with no fallback; `None` means no tab stops.
pub fn tab_stop_slot(names: &Vec<String>, r: &StyleRequest) -> (slot: Option<usize>)
    ensures
        match requested_name(*r) {
            None => slot is None,
            Some(n) => match position_in(names@, n) {
                Some(i) => slot == Some(i as usize),
                None => slot is None,
            },
        },
{
    match requested_style_name(r) {
        None => None,
        Some(n) => find_name(names, n.as_str()),
    }
}

/// Where a named character style comes from.
#[derive(Debug, Clone, Copy, PartialEq, Eq, Structural)]
pub enum CharacterSource {
    /// The document's own definition, at this position.
    Defined(usize),
    /// The built-in definition, at this position.
    Builtin(usize),
}

/// The character style `name` resolves to: the document's own definition, else the built-in
/// one; `None` when neither defines it (the run is set in its paragraph's treatment, with its own
/// overrides still applied).
pub fn character_source(defined: &Vec<String>, builtin: &Vec<String>, name: &str) -> (r: Option<CharacterSource>)
    ensures
        match position_in(defined@, name@) {
            Some(i) => r == Some(CharacterSource::Defined(i as usize)),
            None => match position_in(builtin@, name@) {
                Some(j) => r == Some(CharacterSource::Builtin(j as usize)),
                None => r is None,
            },
        },
{
    match find_name(defined, name) {
        Some(i) => Some(CharacterSource::Defined(i)),
        None => match find_name(builtin, name) {
            Some(j) => Some(CharacterSource::Builtin(j)),
            None => None,
        },
    }
}

} // verus!
