//! Formats one citation of a bibliography: finds the entry to cite, fills in
//! a document template, and drives the document toolchain step by step.

pub mod reference;
pub mod template;
pub mod text;
pub mod toolchain;
