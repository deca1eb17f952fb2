//! Verified core of a .docx template constructor and filler.
//!
//! Placeholders of the form `{{name:type:format}}` are put into Word documents
//! by a constructor and filled in later from a form.
pub mod custom_types;
pub mod document;
pub mod error;
pub mod events;
pub mod fill;
pub mod html;
pub mod laws;
pub mod names;
pub mod namespaces;
pub mod pattern;
pub mod placeholders;
pub mod plan;
pub mod requests;
pub mod sort;
pub mod text;
pub mod tree;
pub mod values;
pub mod writer;
