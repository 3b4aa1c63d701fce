//! Structured per-symbol documentation index parsed from package markdown.
//!
//! An index of this kind is generated alongside the help files for
//! applications (editors, notebooks) that show hover documentation and
//! search symbols.

pub mod blocks;
pub mod extract;
pub mod grammar;
pub mod index;
pub mod lint;
pub mod symbols;


pub use symbols::SymbolMap;

use vstd::prelude::*;
pub use crate::text::{lemma_strs_push, strs};

verus! {

/// A structured example extracted from documentation.
#[derive(Debug)]
pub struct ExampleEntry {
    pub input: String,
    pub output: String,
    pub description: String,
}

pub struct ExampleV {
    pub input: Seq<char>,
    pub output: Seq<char>,
    pub description: Seq<char>,
}

impl View for ExampleEntry {
    type V = ExampleV;

    open spec fn view(&self) -> ExampleV {
        ExampleV { input: self.input@, output: self.output@, description: self.description@ }
    }
}

pub open spec fn example_views(v: Seq<ExampleEntry>) -> Seq<ExampleV> {
    Seq::new(v.len(), |i: int| v[i]@)
}

pub open spec fn ostr(o: Option<String>) -> Option<Seq<char>> {
    match o {
        Some(s) => Some(s@),
        None => None,
    }
}

/// Documentation for a single function or variable.
#[derive(Debug)]
pub struct SymbolEntry {
    pub symbol_type: String,
    pub signature: String,
    pub summary: String,
    pub body_md: String,
    pub examples: Vec<ExampleEntry>,
    pub see_also: Vec<String>,
    pub category: Option<String>,
    pub section: Option<String>,
    pub keywords: Vec<String>,
    pub signatures: Vec<String>,
}

pub struct SymbolV {
    pub symbol_type: Seq<char>,
    pub signature: Seq<char>,
    pub summary: Seq<char>,
    pub body_md: Seq<char>,
    pub examples: Seq<ExampleV>,
    pub see_also: Seq<Seq<char>>,
    pub category: Option<Seq<char>>,
    pub section: Option<Seq<char>>,
    pub keywords: Seq<Seq<char>>,
    pub signatures: Seq<Seq<char>>,
}

impl View for SymbolEntry {
    type V = SymbolV;

    open spec fn view(&self) -> SymbolV {
        SymbolV {
            symbol_type: self.symbol_type@,
            signature: self.signature@,
            summary: self.summary@,
            body_md: self.body_md@,
            examples: example_views(self.examples@),
            see_also: strs(self.see_also@),
            category: ostr(self.category),
            section: ostr(self.section),
            keywords: strs(self.keywords@),
            signatures: strs(self.signatures@),
        }
    }
}

/// A non-symbol documentation section (introduction, tutorials, etc.).
#[derive(Debug)]
pub struct SectionEntry {
    pub title: String,
    pub body_md: String,
    pub subsections: Vec<SectionEntry>,
}

/// A nested section: title, body and how many sections it nests in turn.
pub struct SubV {
    pub title: Seq<char>,
    pub body_md: Seq<char>,
    pub n_subsections: nat,
}

/// A section with its nested sections (two levels, as the index builds them).
pub struct SectionV {
    pub title: Seq<char>,
    pub body_md: Seq<char>,
    pub subsections: Seq<SubV>,
}

impl SectionEntry {
    pub open spec fn sub_model(&self) -> SubV {
        SubV {
            title: self.title@,
            body_md: self.body_md@,
            n_subsections: self.subsections@.len(),
        }
    }

    pub open spec fn model(&self) -> SectionV {
        SectionV {
            title: self.title@,
            body_md: self.body_md@,
            subsections: Seq::new(self.subsections@.len(), |i: int| self.subsections@[i].sub_model()),
        }
    }
}

pub open spec fn section_models(v: Seq<SectionEntry>) -> Seq<SectionV> {
    Seq::new(v.len(), |i: int| v[i].model())
}

/// Top-level structured documentation index.
#[derive(Debug)]
pub struct DocIndex {
    pub version: u32,
    pub package: String,
    pub source: String,
    pub symbols: SymbolMap,
    pub sections: Vec<SectionEntry>,
}

} // verus!
