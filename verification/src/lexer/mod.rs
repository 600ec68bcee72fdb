//! The two lexers: one for SQL documents, one for the annotations in comments.
pub mod annotation;
pub mod document;
