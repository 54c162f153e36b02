//! Ensures that every Java type declaration carries a required set of marker
//! annotations, inserting the missing ones together with their imports.

pub mod annotator;
pub mod declaration;
pub mod imports;
pub mod io;
pub mod parser;
pub mod syntax;
pub mod text;
pub mod walk;
