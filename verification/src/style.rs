//! How things are labelled.

pub mod text;
