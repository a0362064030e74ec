//! The verified core of the Quill document model: numbering, pagination rules, collation,
//! identities, the authoring import grammar and the content-pack version rules.

mod text;
pub mod numbering;
pub mod model;
pub mod pages;
pub mod collate;
pub mod ranges;
pub mod components;
pub mod ttrpg;
pub mod load;
pub mod resolve;
pub mod container;
pub mod color;
pub mod tokens;
pub mod identity;
pub mod import;
pub mod defs;
pub mod version;
pub mod pack;
pub mod book;
pub mod compose;
pub mod styles;

pub use numbering::push_decimal;
