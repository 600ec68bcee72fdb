//! The two parsers: one for annotations, one for whole documents.
pub mod annotation;
pub mod document;
pub mod layout;
pub mod spans;
