//! The version gates: every versioned file — a document, a template file, a pack, a book —
//! is read by the same three steps: read the declared version, refuse a newer one, and take an
//! absent one as current.

use vstd::prelude::*;
use crate::load::LoadError;

verus! {

/// The current document format version.
pub const FORMAT_VERSION: u32 = 10;

/// The current template-file version.
pub const TEMPLATE_VERSION: u32 = 1;

/// The current `.qpack` container format version.
pub const PACK_VERSION: u32 = 1;

/// The current book-file format version.
pub const BOOK_VERSION: u32 = 2;

/// What a manifest declares as its version.
#[derive(Debug, Clone, Copy, PartialEq, Eq, Structural)]
pub enum DeclaredVersion {
    /// The field is absent: taken as current.
    Absent,
    /// The field is there but is not a non-negative integer.
    NotAnInteger,
    /// The declared number.
    Number(u64),
}

/// Why a gate refused a manifest.
#[derive(Debug, Clone, Copy, PartialEq, Eq, Structural)]
pub enum GateRefusal {
    /// The declared version is not a non-negative integer.
    NotAnInteger,
    /// The declared version is newer than this build understands (reported saturated to `u32`).
    Newer { found: u32 },
}

/// What a declared number is taken as against the current one, or why it is refused.
pub open spec fn gate_spec(declared: DeclaredVersion, current: u32) -> Result<u32, GateRefusal> {
    match declared {
        DeclaredVersion::Absent => Ok(current),
        DeclaredVersion::NotAnInteger => Err(GateRefusal::NotAnInteger),
        DeclaredVersion::Number(n) => if n > current as u64 {
            Err(GateRefusal::Newer { found: if n > u32::MAX as u64 { u32::MAX } else { n as u32 } })
        } else {
            Ok(n as u32)
        },
    }
}

/// Read a declared version against the current one: an absent version is current, an older one
/// is read as itself (to be migrated forward), and a newer one — or one that is not a
/// non-negative integer — is refused rather than half-loaded.
pub fn version_gate(declared: DeclaredVersion, current: u32) -> (r: Result<u32, GateRefusal>)
    ensures
        r == gate_spec(declared, current),
{
    match declared {
        DeclaredVersion::Absent => Ok(current),
        DeclaredVersion::NotAnInteger => Err(GateRefusal::NotAnInteger),
        DeclaredVersion::Number(n) => {
            if n > current as u64 {
                let found: u32 = if n > u32::MAX as u64 { u32::MAX } else { n as u32 };
                Err(GateRefusal::Newer { found })
            } else {
                Ok(n as u32)
            }
        },
    }
}

/// The document gate (`format_version`).
pub fn gate_document(declared: DeclaredVersion) -> (r: Result<u32, LoadError>)
    ensures
        match gate_spec(declared, FORMAT_VERSION) {
            Ok(v) => r == Ok::<u32, LoadError>(v),
            Err(GateRefusal::NotAnInteger) => r matches Err(LoadError::Parse(m))
                && m@ == "`format_version` is not a non-negative integer"@,
            Err(GateRefusal::Newer { found }) => r == Err::<u32, LoadError>(
                LoadError::UnsupportedVersion { found, supported: FORMAT_VERSION },
            ),
        },
{
    match version_gate(declared, FORMAT_VERSION) {
        Ok(v) => Ok(v),
        Err(GateRefusal::NotAnInteger) => Err(LoadError::Parse("`format_version` is not a non-negative integer".to_owned())),
        Err(GateRefusal::Newer { found }) => Err(LoadError::UnsupportedVersion { found, supported: FORMAT_VERSION }),
    }
}

/// The template-file gate (`template_version`).
pub fn gate_template(declared: DeclaredVersion) -> (r: Result<u32, LoadError>)
    ensures
        match gate_spec(declared, TEMPLATE_VERSION) {
            Ok(v) => r == Ok::<u32, LoadError>(v),
            Err(GateRefusal::NotAnInteger) => r matches Err(LoadError::TemplateParse(m))
                && m@ == "`template_version` is not a non-negative integer"@,
            Err(GateRefusal::Newer { found }) => r == Err::<u32, LoadError>(
                LoadError::UnsupportedTemplateVersion { found, supported: TEMPLATE_VERSION },
            ),
        },
{
    match version_gate(declared, TEMPLATE_VERSION) {
        Ok(v) => Ok(v),
        Err(GateRefusal::NotAnInteger) => Err(LoadError::TemplateParse("`template_version` is not a non-negative integer".to_owned())),
        Err(GateRefusal::Newer { found }) => Err(LoadError::UnsupportedTemplateVersion { found, supported: TEMPLATE_VERSION }),
    }
}

/// The pack gate (`pack_version`).
pub fn gate_pack(declared: DeclaredVersion) -> (r: Result<u32, LoadError>)
    ensures
        match gate_spec(declared, PACK_VERSION) {
            Ok(v) => r == Ok::<u32, LoadError>(v),
            Err(GateRefusal::NotAnInteger) => r matches Err(LoadError::PackParse(m))
                && m@ == "`pack_version` is not a non-negative integer"@,
            Err(GateRefusal::Newer { found }) => r == Err::<u32, LoadError>(
                LoadError::UnsupportedPackVersion { found, supported: PACK_VERSION },
            ),
        },
{
    match version_gate(declared, PACK_VERSION) {
        Ok(v) => Ok(v),
        Err(GateRefusal::NotAnInteger) => Err(LoadError::PackParse("`pack_version` is not a non-negative integer".to_owned())),
        Err(GateRefusal::Newer { found }) => Err(LoadError::UnsupportedPackVersion { found, supported: PACK_VERSION }),
    }
}

/// The book gate (`book_version`).
pub fn gate_book(declared: DeclaredVersion) -> (r: Result<u32, LoadError>)
    ensures
        match gate_spec(declared, BOOK_VERSION) {
            Ok(v) => r == Ok::<u32, LoadError>(v),
            Err(GateRefusal::NotAnInteger) => r matches Err(LoadError::BookParse(m))
                && m@ == "`book_version` is not a non-negative integer"@,
            Err(GateRefusal::Newer { found }) => r == Err::<u32, LoadError>(
                LoadError::UnsupportedBookVersion { found, supported: BOOK_VERSION },
            ),
        },
{
    match version_gate(declared, BOOK_VERSION) {
        Ok(v) => Ok(v),
        Err(GateRefusal::NotAnInteger) => Err(LoadError::BookParse("`book_version` is not a non-negative integer".to_owned())),
        Err(GateRefusal::Newer { found }) => Err(LoadError::UnsupportedBookVersion { found, supported: BOOK_VERSION }),
    }
}

/// One structural step of the document migration chain, each bringing a manifest one version
/// forward by writing out what the newer version added as its defaults.
#[derive(Debug, Clone, Copy, PartialEq, Eq, Structural)]
pub enum MigrationStep {
    /// Version 1 to 2: master pages and per-page margins.
    MastersAndMargins,
    /// Version 2 to 3: a text master static's alignment and mirroring.
    StaticAlignment,
}

/// The steps a document manifest read as version `found` goes through, oldest first.
pub open spec fn migration_chain_spec(found: u32) -> Seq<MigrationStep> {
    (if found < 2 { seq![MigrationStep::MastersAndMargins] } else { Seq::empty() })
        + (if found < 3 { seq![MigrationStep::StaticAlignment] } else { Seq::empty() })
}

/// The migration steps for a manifest the document gate read as version `found`: every step from
/// `found` up, one version at a time and in order; none for a manifest already past them.
pub fn migration_chain(found: u32) -> (steps: Vec<MigrationStep>)
    ensures
        steps@ == migration_chain_spec(found),
{
    let mut steps: Vec<MigrationStep> = Vec::new();
    if found < 2 {
        steps.push(MigrationStep::MastersAndMargins);
    }
    if found < 3 {
        steps.push(MigrationStep::StaticAlignment);
    }
    proof {
        assert(steps@ =~= migration_chain_spec(found));
    }
    steps
}

/// **No gate ever admits a version newer than it understands**, and an admitted version is
/// exactly the declared one (or the current one, when none is declared).
pub proof fn lemma_gate_never_admits_newer(declared: DeclaredVersion, current: u32)
    ensures
        gate_spec(declared, current) matches Ok(v) ==> v <= current && match declared {
            DeclaredVersion::Number(n) => v == n,
            DeclaredVersion::Absent => v == current,
            DeclaredVersion::NotAnInteger => false,
        },
{
}

} // verus!
