//! Build-action observer core: classifies toolchain invocations (compiler,
//! linker, archiver) into typed file and stage records, accumulates them in a
//! report, and encodes the report as a JSON document.

pub mod classify;
pub mod ident;
pub mod json;
pub mod model;
pub mod strutil;
