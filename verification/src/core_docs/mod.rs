//! Generation of markdown documentation from Maxima's Texinfo sources.

pub mod convert;
pub mod defs;
pub mod emit;
pub mod files;
pub mod markdown;
pub mod tree;
pub mod xml;
