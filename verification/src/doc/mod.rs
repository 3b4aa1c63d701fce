//! Building a package's documentation: Texinfo rewriting, book pages,
//! includes.

pub mod html;
pub mod includes;
pub mod mdbook;
pub mod texi;

use vstd::prelude::*;
use crate::text::{chars_of, ends_with, has_suffix};

verus! {

/// Whether a documentation source is Markdown (`.md`, `.markdown`):
/// `Some(true)`; Texinfo (`.texi`, `.texinfo`): `Some(false)`; else `None`.
pub open spec fn kind_of_source(file: Seq<char>) -> Option<bool> {
    if has_suffix(file, ".md"@) || has_suffix(file, ".markdown"@) {
        Some(true)
    } else if has_suffix(file, ".texi"@) || has_suffix(file, ".texinfo"@) {
        Some(false)
    } else {
        None
    }
}

/// The kind of a documentation source, by its file name.
pub fn source_kind(file: &str) -> (r: Option<bool>)
    ensures
        r == kind_of_source(file@),
{
    let f = chars_of(file);
    if ends_with(f.as_slice(), chars_of(".md").as_slice()) || ends_with(
        f.as_slice(),
        chars_of(".markdown").as_slice(),
    ) {
        Some(true)
    } else if ends_with(f.as_slice(), chars_of(".texi").as_slice()) || ends_with(
        f.as_slice(),
        chars_of(".texinfo").as_slice(),
    ) {
        Some(false)
    } else {
        None
    }
}

} // verus!
