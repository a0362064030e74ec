//! Validating a component definition — a component declared as data, the unit a content pack
//! ships — before anything lays it out.
//!
//! What validation reads of a definition is its identity, its sections' sources, styles and
//! `repeat` flags, and, for each declared measurement, whether it is a finite, non-negative
//! number of points: [`DefOutline`] holds exactly that.

use vstd::prelude::*;
use crate::numbering::{decimal_digits, push_decimal, push_decimal_u64};
use crate::text::{push_str_chars, str_chars, string_from_chars, trim_chars, trim_spec};

verus! {

/// The declaration format this build understands.
pub const COMPONENT_DEF_VERSION: u32 = 1;

/// Everything a component definition can be wrong about. Every variant but `EmptyName` names the
/// definition.
#[derive(Debug, Clone, PartialEq)]
pub enum ComponentDefError {
    UnsupportedVersion { def: String, found: u32, supported: u32 },
    EmptyName,
    NoSections { def: String },
    SectionMissingSource { def: String, index: usize },
    SectionMissingStyle { def: String, index: usize },
    DuplicateSectionSource { def: String, source: String },
    /// A `repeat` section that is not part of the definition's leading run of them.
    RepeatNotAPrefix { def: String, index: usize },
    /// A measurement that is negative or not finite; `field` names it (`panel.padding_pt`,
    /// `rule_above.gap_below_pt`, …) and `value` is the measurement as it reads.
    BadMeasure { def: String, field: String, value: String },
    /// A definition filed under one name that calls itself another.
    NameMismatch { key: String, def: String },
}

/// One declared measurement: its field name, its value as it reads, and whether that value is a
/// finite, non-negative number of points.
#[derive(Debug, Clone, PartialEq)]
pub struct MeasureCheck {
    pub field: String,
    pub value: String,
    pub acceptable: bool,
}

/// What validation reads of one section: the instance field it renders, its style, whether it is
/// re-stated on every continuation, and its measurements in declaration order (its rule above,
/// its rule below, its cell padding).
#[derive(Debug, Clone, PartialEq)]
pub struct SectionOutline {
    pub source: String,
    pub style: String,
    pub repeat: bool,
    pub measures: Vec<MeasureCheck>,
}

/// What validation reads of a component definition.
#[derive(Debug, Clone, PartialEq)]
pub struct DefOutline {
    pub version: u32,
    pub name: String,
    /// The panel's padding, then its stroke width if it has a stroke.
    pub panel_measures: Vec<MeasureCheck>,
    pub sections: Vec<SectionOutline>,
}

/// Whether `s` is empty or all white space.
pub open spec fn blank(s: Seq<char>) -> bool {
    trim_spec(s).len() == 0
}

/// The first unacceptable measurement among the first `n`.
pub open spec fn first_bad_measure(ms: Seq<MeasureCheck>, n: int) -> Option<int>
    decreases n,
{
    if n <= 0 {
        None
    } else {
        match first_bad_measure(ms, n - 1) {
            Some(i) => Some(i),
            None => if !ms[n - 1].acceptable { Some(n - 1) } else { None },
        }
    }
}

/// Whether a section before `i` is not repeated.
pub open spec fn ordinary_before(sections: Seq<SectionOutline>, i: int) -> bool {
    exists|k: int| 0 <= k < i && !(#[trigger] sections[k]).repeat
}

/// Whether a section before `i` renders the same field as section `i`.
pub open spec fn source_before(sections: Seq<SectionOutline>, i: int) -> bool {
    exists|k: int| 0 <= k < i && (#[trigger] sections[k]).source@ == sections[i].source@
}

/// What is wrong with section `i`, checked in order: a repeat after ordinary content, a bad
/// measurement, a missing source, a missing style, a source already rendered.
pub open spec fn section_refusal(name: String, sections: Seq<SectionOutline>, i: int) -> Option<ComponentDefError> {
    let s = sections[i];
    if s.repeat && ordinary_before(sections, i) {
        Some(ComponentDefError::RepeatNotAPrefix { def: name, index: i as usize })
    } else {
        match first_bad_measure(s.measures@, s.measures@.len() as int) {
            Some(m) => Some(ComponentDefError::BadMeasure { def: name, field: s.measures@[m].field, value: s.measures@[m].value }),
            None => if blank(s.source@) {
                Some(ComponentDefError::SectionMissingSource { def: name, index: i as usize })
            } else if blank(s.style@) {
                Some(ComponentDefError::SectionMissingStyle { def: name, index: i as usize })
            } else if source_before(sections, i) {
                Some(ComponentDefError::DuplicateSectionSource { def: name, source: s.source })
            } else {
                None
            },
        }
    }
}

/// The refusal for the first failing section among the first `n`.
pub open spec fn first_section_refusal(name: String, sections: Seq<SectionOutline>, n: int) -> Option<ComponentDefError>
    decreases n,
{
    if n <= 0 {
        None
    } else {
        match first_section_refusal(name, sections, n - 1) {
            Some(e) => Some(e),
            None => section_refusal(name, sections, n - 1),
        }
    }
}

/// Whether a definition can be laid out, and if not the first thing wrong with it, checked in
/// order: its name, its version, that it has sections, its panel's measurements, each section.
pub open spec fn validate_spec(d: DefOutline) -> Result<(), ComponentDefError> {
    if blank(d.name@) {
        Err(ComponentDefError::EmptyName)
    } else if d.version > COMPONENT_DEF_VERSION {
        Err(ComponentDefError::UnsupportedVersion { def: d.name, found: d.version, supported: COMPONENT_DEF_VERSION })
    } else if d.sections@.len() == 0 {
        Err(ComponentDefError::NoSections { def: d.name })
    } else {
        match first_bad_measure(d.panel_measures@, d.panel_measures@.len() as int) {
            Some(m) => Err(ComponentDefError::BadMeasure { def: d.name, field: d.panel_measures@[m].field, value: d.panel_measures@[m].value }),
            None => match first_section_refusal(d.name, d.sections@, d.sections@.len() as int) {
                Some(e) => Err(e),
                None => Ok(()),
            },
        }
    }
}

fn is_blank(s: &String) -> (b: bool)
    ensures
        b == blank(s@),
{
    let chars = str_chars(s.as_str());
    let t = trim_chars(&chars);
    t.len() == 0
}

fn find_bad_measure(ms: &Vec<MeasureCheck>) -> (r: Option<usize>)
    ensures
        match r {
            Some(i) => first_bad_measure(ms@, ms@.len() as int) == Some(i as int),
            None => first_bad_measure(ms@, ms@.len() as int) is None,
        },
{
    let mut i: usize = 0;
    while i < ms.len()
        invariant
            0 <= i <= ms@.len(),
            first_bad_measure(ms@, i as int) is None,
        decreases ms.len() - i,
    {
        if !ms[i].acceptable {
            proof {
                lemma_first_bad_found(ms@, i + 1, ms@.len() as int);
            }
            return Some(i);
        }
        i = i + 1;
    }
    None
}

proof fn lemma_first_bad_found(ms: Seq<MeasureCheck>, m: int, n: int)
    requires
        0 <= m <= n,
        first_bad_measure(ms, m) is Some,
    ensures
        first_bad_measure(ms, n) == first_bad_measure(ms, m),
    decreases n - m,
{
    if n > m {
        lemma_first_bad_found(ms, m, n - 1);
    }
}

proof fn lemma_first_bad_in_range(ms: Seq<MeasureCheck>, n: int)
    requires
        0 <= n,
    ensures
        first_bad_measure(ms, n) matches Some(i) ==> 0 <= i < n,
    decreases n,
{
    if n > 0 {
        lemma_first_bad_in_range(ms, n - 1);
    }
}

proof fn lemma_first_refusal_found(name: String, sections: Seq<SectionOutline>, m: int, n: int)
    requires
        0 <= m <= n,
        first_section_refusal(name, sections, m) is Some,
    ensures
        first_section_refusal(name, sections, n) == first_section_refusal(name, sections, m),
    decreases n - m,
{
    if n > m {
        lemma_first_refusal_found(name, sections, m, n - 1);
    }
}

impl DefOutline {
    /// Refuse a definition this build cannot lay out correctly, naming the first thing wrong.
    pub fn validate(&self) -> (r: Result<(), ComponentDefError>)
        ensures
            r == validate_spec(*self),
    {
        if is_blank(&self.name) {
            return Err(ComponentDefError::EmptyName);
        }
        if self.version > COMPONENT_DEF_VERSION {
            return Err(ComponentDefError::UnsupportedVersion {
                def: self.name.clone(),
                found: self.version,
                supported: COMPONENT_DEF_VERSION,
            });
        }
        if self.sections.len() == 0 {
            return Err(ComponentDefError::NoSections { def: self.name.clone() });
        }
        match find_bad_measure(&self.panel_measures) {
            Some(m) => {
                proof {
                    lemma_first_bad_in_range(self.panel_measures@, self.panel_measures@.len() as int);
                }
                return Err(ComponentDefError::BadMeasure {
                    def: self.name.clone(),
                    field: self.panel_measures[m].field.clone(),
                    value: self.panel_measures[m].value.clone(),
                });
            },
            None => {},
        }
        let sections = &self.sections;
        let mut seen_ordinary = false;
        let mut i: usize = 0;
        while i < sections.len()
            invariant
                0 <= i <= sections@.len(),
                sections@ == self.sections@,
                !blank(self.name@),
                self.version <= COMPONENT_DEF_VERSION,
                sections@.len() > 0,
                first_bad_measure(self.panel_measures@, self.panel_measures@.len() as int) is None,
                first_section_refusal(self.name, sections@, i as int) is None,
                seen_ordinary == ordinary_before(sections@, i as int),
            decreases sections.len() - i,
        {
            let s = &sections[i];
            let refusal: Option<ComponentDefError> = if s.repeat && seen_ordinary {
                Some(ComponentDefError::RepeatNotAPrefix { def: self.name.clone(), index: i })
            } else {
                match find_bad_measure(&s.measures) {
                    Some(m) => {
                        proof {
                            lemma_first_bad_in_range(s.measures@, s.measures@.len() as int);
                        }
                        Some(ComponentDefError::BadMeasure { def: self.name.clone(), field: s.measures[m].field.clone(), value: s.measures[m].value.clone() })
                    },
                    None => if is_blank(&s.source) {
                        Some(ComponentDefError::SectionMissingSource { def: self.name.clone(), index: i })
                    } else if is_blank(&s.style) {
                        Some(ComponentDefError::SectionMissingStyle { def: self.name.clone(), index: i })
                    } else {
                        let mut dup = false;
                        let mut k: usize = 0;
                        while k < i
                            invariant
                                0 <= k <= i < sections@.len(),
                                s == sections@[i as int],
                                dup == exists|q: int| 0 <= q < k && (#[trigger] sections@[q]).source@ == s.source@,
                            decreases i - k,
                        {
                            if sections[k].source == s.source {
                                dup = true;
                            }
                            k = k + 1;
                        }
                        if dup {
                            Some(ComponentDefError::DuplicateSectionSource { def: self.name.clone(), source: s.source.clone() })
                        } else {
                            None
                        }
                    },
                }
            };
            assert(refusal == section_refusal(self.name, sections@, i as int));
            if let Some(e) = refusal {
                proof {
                    lemma_first_refusal_found(self.name, sections@, i + 1, sections@.len() as int);
                }
                return Err(e);
            }
            if !s.repeat {
                seen_ordinary = true;
            }
            i = i + 1;
        }
        Ok(())
    }
}


/// How a component-definition error reads to the author.
pub open spec fn def_error_text(e: ComponentDefError) -> Seq<char> {
    match e {
        ComponentDefError::UnsupportedVersion { def, found, supported } =>
            "component definition `"@ + def@ + "` declares version "@ + decimal_digits(found as nat)
                + ", newer than this build supports (up to "@ + decimal_digits(supported as nat)
                + "); upgrade Quill to use it"@,
        ComponentDefError::EmptyName => "a component definition has an empty `name`"@,
        ComponentDefError::NoSections { def } => "component definition `"@ + def@ + "` declares no sections"@,
        ComponentDefError::SectionMissingSource { def, index } =>
            "component definition `"@ + def@ + "`, section "@ + decimal_digits(index as nat) + ": `source` is empty"@,
        ComponentDefError::SectionMissingStyle { def, index } =>
            "component definition `"@ + def@ + "`, section "@ + decimal_digits(index as nat) + ": `style` is empty"@,
        ComponentDefError::DuplicateSectionSource { def, source } =>
            "component definition `"@ + def@ + "` renders field `"@ + source@
                + "` in two sections, which would set it twice"@,
        ComponentDefError::RepeatNotAPrefix { def, index } =>
            "component definition `"@ + def@ + "`, section "@ + decimal_digits(index as nat)
                + ": a `repeat` section must come before every non-repeated one \u{2014} it is the prefix each continuation re-states, so content above it would be re-stated too"@,
        ComponentDefError::BadMeasure { def, field, value } =>
            "component definition `"@ + def@ + "`: `"@ + field@ + "` is "@ + value@
                + ", which must be a finite, non-negative measurement in points"@,
        ComponentDefError::NameMismatch { key, def } =>
            "component definition filed under `"@ + key@ + "` calls itself `"@ + def@ + "`"@,
    }
}

impl ComponentDefError {
    /// The error as it reads to the author.
    pub fn message(&self) -> (s: String)
        ensures
            s@ == def_error_text(*self),
    {
        let mut out: Vec<char> = Vec::new();
        match self {
            ComponentDefError::UnsupportedVersion { def, found, supported } => {
                push_str_chars(&mut out, "component definition `");
                push_str_chars(&mut out, def.as_str());
                push_str_chars(&mut out, "` declares version ");
                push_decimal(*found, &mut out);
                push_str_chars(&mut out, ", newer than this build supports (up to ");
                push_decimal(*supported, &mut out);
                push_str_chars(&mut out, "); upgrade Quill to use it");
            },
            ComponentDefError::EmptyName => {
                push_str_chars(&mut out, "a component definition has an empty `name`");
            },
            ComponentDefError::NoSections { def } => {
                push_str_chars(&mut out, "component definition `");
                push_str_chars(&mut out, def.as_str());
                push_str_chars(&mut out, "` declares no sections");
            },
            ComponentDefError::SectionMissingSource { def, index } => {
                push_str_chars(&mut out, "component definition `");
                push_str_chars(&mut out, def.as_str());
                push_str_chars(&mut out, "`, section ");
                push_decimal_u64(*index as u64, &mut out);
                push_str_chars(&mut out, ": `source` is empty");
            },
            ComponentDefError::SectionMissingStyle { def, index } => {
                push_str_chars(&mut out, "component definition `");
                push_str_chars(&mut out, def.as_str());
                push_str_chars(&mut out, "`, section ");
                push_decimal_u64(*index as u64, &mut out);
                push_str_chars(&mut out, ": `style` is empty");
            },
            ComponentDefError::DuplicateSectionSource { def, source } => {
                push_str_chars(&mut out, "component definition `");
                push_str_chars(&mut out, def.as_str());
                push_str_chars(&mut out, "` renders field `");
                push_str_chars(&mut out, source.as_str());
                push_str_chars(&mut out, "` in two sections, which would set it twice");
            },
            ComponentDefError::RepeatNotAPrefix { def, index } => {
                push_str_chars(&mut out, "component definition `");
                push_str_chars(&mut out, def.as_str());
                push_str_chars(&mut out, "`, section ");
                push_decimal_u64(*index as u64, &mut out);
                push_str_chars(&mut out, ": a `repeat` section must come before every non-repeated one \u{2014} it is the prefix each continuation re-states, so content above it would be re-stated too");
            },
            ComponentDefError::BadMeasure { def, field, value } => {
                push_str_chars(&mut out, "component definition `");
                push_str_chars(&mut out, def.as_str());
                push_str_chars(&mut out, "`: `");
                push_str_chars(&mut out, field.as_str());
                push_str_chars(&mut out, "` is ");
                push_str_chars(&mut out, value.as_str());
                push_str_chars(&mut out, ", which must be a finite, non-negative measurement in points");
            },
            ComponentDefError::NameMismatch { key, def } => {
                push_str_chars(&mut out, "component definition filed under `");
                push_str_chars(&mut out, key.as_str());
                push_str_chars(&mut out, "` calls itself `");
                push_str_chars(&mut out, def.as_str());
                push_str_chars(&mut out, "`");
            },
        }
        string_from_chars(&out)
    }
}

} // verus!
