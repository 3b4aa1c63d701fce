//! Assembling a documentation index from parsed blocks.
use vstd::prelude::*;
use crate::text::{chars_of, lines, string_of, trim, trimmed, views};
use super::blocks::{
    block_of, block_views, doc_blocks, flush_v, split_into_blocks, split_run, split_step, BlockV,
    HeadV, KindV, ParsedBlock, SplitV,
};
use super::grammar::{func_heading, section_heading, var_heading};
use super::extract::{
    body_examples, ex_views, extract_examples_chars, see_also_chars, see_also_names,
    summary_chars, summary_text, ExPair, ExV,
};
use super::symbols::{sorted_insert, SymbolMap};
use super::{
    example_views, lemma_strs_push, ostr, section_models, strs, DocIndex, ExampleEntry,
    ExampleV, SectionEntry, SectionV, SubV, SymbolEntry, SymbolV,
};

verus! {

pub open spec fn ex_entries(s: Seq<ExV>) -> Seq<ExampleV> {
    Seq::new(s.len(), |i: int| ExampleV { input: s[i].input, output: s[i].output, description: Seq::empty() })
}

/// The index entry of a definition block read under section `sec`.
pub open spec fn entry_of(kind: KindV, body: Seq<char>, sec: Option<Seq<char>>) -> SymbolV {
    let b = trim(body);
    SymbolV {
        symbol_type: kind.symbol_type,
        signature: kind.signature,
        summary: summary_text(b),
        body_md: b,
        examples: ex_entries(body_examples(b)),
        see_also: see_also_names(b),
        category: kind.meta.category,
        section: sec,
        keywords: kind.meta.keywords,
        signatures: kind.meta.signatures,
    }
}

pub struct SymRun {
    pub symbols: Seq<(Seq<char>, SymbolV)>,
    pub section: Option<Seq<char>>,
}

/// Symbols after the first `n` blocks, with the title of the last section seen.
pub open spec fn sym_run(bs: Seq<BlockV>, n: int) -> SymRun
    decreases n,
{
    if n <= 0 {
        SymRun { symbols: Seq::empty(), section: None }
    } else {
        let st = sym_run(bs, n - 1);
        match bs[n - 1] {
            BlockV::Section { title, .. } => SymRun { symbols: st.symbols, section: Some(title) },
            BlockV::Symbol { kind, body } => SymRun {
                symbols: sorted_insert(st.symbols, kind.name, entry_of(kind, body, st.section)),
                section: st.section,
            },
        }
    }
}

/// The symbol table of a document.
pub open spec fn doc_symbols(content: Seq<char>) -> Seq<(Seq<char>, SymbolV)> {
    let bs = doc_blocks(content);
    sym_run(bs, bs.len() as int).symbols
}

pub struct HierV {
    pub result: Seq<SectionV>,
    pub parent: Option<SectionV>,
}

pub open spec fn leaf(title: Seq<char>, body: Seq<char>) -> SectionV {
    SectionV { title, body_md: body, subsections: Seq::empty() }
}

/// A section with an empty body directly followed by another section is a
/// parent; the sections after it, up to the next parent, nest under it.
pub open spec fn hier_step(st: HierV, bs: Seq<BlockV>, i: int) -> HierV {
    match bs[i] {
        BlockV::Section { title, body } => {
            let b = trim(body);
            let next_is_section = i + 1 < bs.len() && bs[i + 1] is Section;
            if b.len() == 0 && next_is_section {
                HierV {
                    result: match st.parent {
                        Some(p) => st.result.push(p),
                        None => st.result,
                    },
                    parent: Some(leaf(title, b)),
                }
            } else {
                match st.parent {
                    Some(p) => HierV {
                        result: st.result,
                        parent: Some(
                            SectionV {
                                subsections: p.subsections.push(
                                    SubV { title, body_md: b, n_subsections: 0 },
                                ),
                                ..p
                            },
                        ),
                    },
                    None => HierV { result: st.result.push(leaf(title, b)), parent: None },
                }
            }
        },
        BlockV::Symbol { .. } => st,
    }
}

pub open spec fn hier_run(bs: Seq<BlockV>, n: int) -> HierV
    decreases n,
{
    if n <= 0 {
        HierV { result: Seq::empty(), parent: None }
    } else {
        hier_step(hier_run(bs, n - 1), bs, n - 1)
    }
}

pub open spec fn hierarchy(bs: Seq<BlockV>) -> Seq<SectionV> {
    let st = hier_run(bs, bs.len() as int);
    match st.parent {
        Some(p) => st.result.push(p),
        None => st.result,
    }
}

/// The section tree of a document.
pub open spec fn doc_sections(content: Seq<char>) -> Seq<SectionV> {
    hierarchy(doc_blocks(content))
}

fn to_strings(v: &Vec<Vec<char>>) -> (r: Vec<String>)
    ensures
        strs(r@) == views(v@),
{
    let mut out: Vec<String> = Vec::new();
    let mut i: usize = 0;
    while i < v.len()
        invariant
            i <= v@.len(),
            strs(out@) == views(v@).subrange(0, i as int),
        decreases v@.len() - i,
    {
        let s = string_of(v[i].as_slice());
        let ghost o = out@;
        let ghost sv = s;
        out.push(s);
        i += 1;
        proof {
            lemma_strs_push(o, sv);
            assert(strs(out@) =~= views(v@).subrange(0, i as int));
        }
    }
    assert(views(v@).subrange(0, v@.len() as int) =~= views(v@));
    out
}

fn to_opt_string(o: &Option<Vec<char>>) -> (r: Option<String>)
    ensures
        ostr(r) == match o {
            Some(v) => Some(v@),
            None => None::<Seq<char>>,
        },
{
    match o {
        Some(v) => Some(string_of(v.as_slice())),
        None => None,
    }
}

fn to_examples(v: &Vec<ExPair>) -> (r: Vec<ExampleEntry>)
    ensures
        example_views(r@) == ex_entries(ex_views(v@)),
{
    let mut out: Vec<ExampleEntry> = Vec::new();
    let mut i: usize = 0;
    while i < v.len()
        invariant
            i <= v@.len(),
            example_views(out@) == ex_entries(ex_views(v@)).subrange(0, i as int),
        decreases v@.len() - i,
    {
        let e = ExampleEntry {
            input: string_of(v[i].input.as_slice()),
            output: string_of(v[i].output.as_slice()),
            description: string_of(Vec::<char>::new().as_slice()),
        };
        let ghost o = out@;
        let ghost ev = e@;
        assert(ev.description =~= Seq::<char>::empty());
        out.push(e);
        assert(example_views(out@) =~= example_views(o).push(ev));
        i += 1;
        assert(example_views(out@) =~= ex_entries(ex_views(v@)).subrange(0, i as int));
    }
    assert(ex_entries(ex_views(v@)).subrange(0, v@.len() as int) =~= ex_entries(ex_views(v@)));
    out
}

/// The index entry of one definition block.
fn make_entry(kind: &super::blocks::SymbolKind, body: &Vec<char>, sec: &Option<Vec<char>>) -> (r:
    SymbolEntry)
    ensures
        r@ == entry_of(
            kind@,
            body@,
            match sec {
                Some(v) => Some(v@),
                None => None::<Seq<char>>,
            },
        ),
{
    let b = trimmed(body.as_slice());
    let summary = summary_chars(b.as_slice());
    let examples = extract_examples_chars(b.as_slice());
    let see_also = see_also_chars(b.as_slice());
    SymbolEntry {
        symbol_type: string_of(kind.symbol_type.as_slice()),
        signature: string_of(kind.signature.as_slice()),
        summary: string_of(summary.as_slice()),
        body_md: string_of(b.as_slice()),
        examples: to_examples(&examples),
        see_also: to_strings(&see_also),
        category: to_opt_string(&kind.meta.category),
        section: to_opt_string(sec),
        keywords: to_strings(&kind.meta.keywords),
        signatures: to_strings(&kind.meta.signatures),
    }
}

fn clone_chars(v: &Vec<char>) -> (r: Vec<char>)
    ensures
        r@ == v@,
{
    crate::text::slice_copy(v.as_slice(), 0, v.len())
}

/// The symbol table of the blocks.
fn collect_symbols(blocks: &Vec<ParsedBlock>) -> (r: SymbolMap)
    ensures
        r.wf(),
        r@ == sym_run(block_views(blocks@), blocks@.len() as int).symbols,
{
    let mut map = SymbolMap::new();
    let mut section: Option<Vec<char>> = None;
    let mut i: usize = 0;
    while i < blocks.len()
        invariant
            i <= blocks@.len(),
            map.wf(),
            map@ == sym_run(block_views(blocks@), i as int).symbols,
            (match section {
                Some(v) => Some(v@),
                None => None::<Seq<char>>,
            }) == sym_run(block_views(blocks@), i as int).section,
        decreases blocks@.len() - i,
    {
        assert(block_views(blocks@)[i as int] == blocks@[i as int]@);
        match &blocks[i] {
            ParsedBlock::Section { title, .. } => {
                section = Some(clone_chars(title));
            },
            ParsedBlock::Symbol { kind, body } => {
                let e = make_entry(kind, body, &section);
                let name = string_of(kind.name.as_slice());
                map.insert(name, e);
            },
        }
        i += 1;
    }
    map
}

fn new_section(title: &Vec<char>, body: Vec<char>) -> (r: SectionEntry)
    ensures
        r.model() == leaf(title@, body@),
        r.sub_model() == (SubV { title: title@, body_md: body@, n_subsections: 0 }),
{
    let r = SectionEntry {
        title: string_of(title.as_slice()),
        body_md: string_of(body.as_slice()),
        subsections: Vec::new(),
    };
    assert(r.model().subsections =~= Seq::<SubV>::empty());
    r
}

pub open spec fn opt_model(o: Option<SectionEntry>) -> Option<SectionV> {
    match o {
        Some(p) => Some(p.model()),
        None => None,
    }
}

/// Detects parent/child section relationships and builds the section tree.
pub fn build_section_hierarchy(blocks: &Vec<ParsedBlock>) -> (r: Vec<SectionEntry>)
    ensures
        section_models(r@) == hierarchy(block_views(blocks@)),
{
    let ghost bs = block_views(blocks@);
    let mut result: Vec<SectionEntry> = Vec::new();
    let mut parent: Option<SectionEntry> = None;
    let n = blocks.len();
    assert(section_models(result@) =~= Seq::<SectionV>::empty());
    let mut i: usize = 0;
    while i < n
        invariant
            i <= n == blocks@.len(),
            bs == block_views(blocks@),
            section_models(result@) == hier_run(bs, i as int).result,
            opt_model(parent) == hier_run(bs, i as int).parent,
        decreases n - i,
    {
        assert(bs[i as int] == blocks@[i as int]@);
        if let ParsedBlock::Section { title, body } = &blocks[i] {
            let b = trimmed(body.as_slice());
            let next_is_section = i + 1 < n && match &blocks[i + 1] {
                ParsedBlock::Section { .. } => true,
                ParsedBlock::Symbol { .. } => false,
            };
            proof {
                if i + 1 < n {
                    assert(bs[i + 1] == blocks@[i + 1]@);
                }
            }
            if b.len() == 0 && next_is_section {
                if let Some(p) = parent.take() {
                    let ghost o = result@;
                    let ghost pm = p.model();
                    result.push(p);
                    assert(section_models(result@) =~= section_models(o).push(pm));
                }
                parent = Some(new_section(title, b));
            } else if parent.is_some() {
                let mut p = parent.take().unwrap();
                let ghost pm = p.model();
                let child = new_section(title, b);
                let ghost cm = child.sub_model();
                p.subsections.push(child);
                assert(p.model().subsections =~= pm.subsections.push(cm));
                parent = Some(p);
            } else {
                let s = new_section(title, b);
                let ghost o = result@;
                let ghost sm = s.model();
                result.push(s);
                assert(section_models(result@) =~= section_models(o).push(sm));
            }
        }
        i += 1;
    }
    if let Some(p) = parent.take() {
        let ghost o = result@;
        let ghost pm = p.model();
        result.push(p);
        assert(section_models(result@) =~= section_models(o).push(pm));
    }
    result
}

/// The summary of a definition body: its first paragraph, inline markup removed.
pub fn extract_summary(body_md: &str) -> (r: String)
    ensures
        r@ == summary_text(body_md@),
{
    let b = chars_of(body_md);
    string_of(summary_chars(b.as_slice()).as_slice())
}

/// The examples of a definition body, with empty descriptions.
pub fn extract_examples(body_md: &str) -> (r: Vec<ExampleEntry>)
    ensures
        example_views(r@) == ex_entries(body_examples(body_md@)),
{
    let b = chars_of(body_md);
    to_examples(&extract_examples_chars(b.as_slice()))
}

/// The names listed in the last `See also:` line of a definition body.
pub fn extract_see_also(body_md: &str) -> (r: Vec<String>)
    ensures
        strs(r@) == see_also_names(body_md@),
{
    let b = chars_of(body_md);
    to_strings(&see_also_chars(b.as_slice()))
}

/// Parses expanded documentation markdown into a [`DocIndex`].
///
/// `content` should have its `<!-- include: ... -->` directives already expanded.
pub fn parse_markdown(content: &str, package_name: &str, source_path: &str) -> (r: DocIndex)
    ensures
        r.version == 1,
        r.package@ == package_name@,
        r.source@ == source_path@,
        r.symbols.wf(),
        r.symbols@ == doc_symbols(content@),
        section_models(r.sections@) == doc_sections(content@),
{
    let c = chars_of(content);
    let blocks = split_into_blocks(c.as_slice());
    let symbols = collect_symbols(&blocks);
    let sections = build_section_hierarchy(&blocks);
    DocIndex {
        version: 1,
        package: string_of(chars_of(package_name).as_slice()),
        source: string_of(chars_of(source_path).as_slice()),
        symbols,
        sections,
    }
}

} // verus!

verus! {

/// An entry reduced to type, signature, summary and metadata.
pub open spec fn slim_entry(e: SymbolV) -> SymbolV {
    SymbolV { body_md: Seq::empty(), examples: Seq::empty(), see_also: Seq::empty(), ..e }
}

pub open spec fn slim_symbols(s: Seq<(Seq<char>, SymbolV)>) -> Seq<(Seq<char>, SymbolV)> {
    Seq::new(s.len(), |i: int| (s[i].0, slim_entry(s[i].1)))
}

/// Slimming is idempotent, and keeps every name in its place.
pub proof fn lemma_slim_idempotent(s: Seq<(Seq<char>, SymbolV)>)
    ensures
        slim_symbols(slim_symbols(s)) == slim_symbols(s),
        slim_symbols(s).len() == s.len(),
        forall|i: int| 0 <= i < s.len() ==> #[trigger] slim_symbols(s)[i].0 == s[i].0,
{
    assert(slim_symbols(slim_symbols(s)) =~= slim_symbols(s));
}

fn clone_strings(v: &Vec<String>) -> (r: Vec<String>)
    ensures
        strs(r@) == strs(v@),
{
    let mut out: Vec<String> = Vec::new();
    let mut i: usize = 0;
    while i < v.len()
        invariant
            i <= v@.len(),
            strs(out@) == strs(v@).subrange(0, i as int),
        decreases v@.len() - i,
    {
        let s = v[i].clone();
        let ghost o = out@;
        let ghost sv = s;
        out.push(s);
        i += 1;
        proof {
            lemma_strs_push(o, sv);
            assert(strs(out@) =~= strs(v@).subrange(0, i as int));
        }
    }
    assert(strs(v@).subrange(0, v@.len() as int) =~= strs(v@));
    out
}

fn clone_opt(o: &Option<String>) -> (r: Option<String>)
    ensures
        ostr(r) == ostr(*o),
{
    match o {
        Some(s) => Some(s.clone()),
        None => None,
    }
}

fn slim_symbol(e: &SymbolEntry) -> (r: SymbolEntry)
    ensures
        r@ == slim_entry(e@),
{
    let r = SymbolEntry {
        symbol_type: e.symbol_type.clone(),
        signature: e.signature.clone(),
        summary: e.summary.clone(),
        body_md: String::new(),
        examples: Vec::new(),
        see_also: Vec::new(),
        category: clone_opt(&e.category),
        section: clone_opt(&e.section),
        keywords: clone_strings(&e.keywords),
        signatures: clone_strings(&e.signatures),
    };
    assert(r@.examples =~= Seq::<ExampleV>::empty());
    assert(r@.see_also =~= Seq::<Seq<char>>::empty());
    r
}

impl DocIndex {
    /// Keeps type, signature, summary and metadata of each symbol and drops
    /// bodies, examples, cross-references and sections: a lightweight index
    /// to embed in applications.
    pub fn slim(&self) -> (r: DocIndex)
        ensures
            r.version == self.version,
            r.package@ == self.package@,
            r.source@ == self.source@,
            r.symbols@ == slim_symbols(self.symbols@),
            self.symbols.wf() ==> r.symbols.wf(),
            r.sections@.len() == 0,
    {
        let n = self.symbols.entries.len();
        let mut entries: Vec<(String, SymbolEntry)> = Vec::new();
        let mut i: usize = 0;
        while i < n
            invariant
                i <= n == self.symbols.entries@.len(),
                super::symbols::entry_views(entries@) == slim_symbols(self.symbols@).subrange(
                    0,
                    i as int,
                ),
            decreases n - i,
        {
            let k = self.symbols.entries[i].0.clone();
            let e = slim_symbol(&self.symbols.entries[i].1);
            let ghost o = entries@;
            let ghost pv = (k@, e@);
            assert(pv == slim_symbols(self.symbols@)[i as int]);
            entries.push((k, e));
            assert(super::symbols::entry_views(entries@) =~= super::symbols::entry_views(o).push(pv));
            i += 1;
            assert(super::symbols::entry_views(entries@) =~= slim_symbols(self.symbols@).subrange(
                0,
                i as int,
            ));
        }
        let symbols = SymbolMap { entries };
        assert(symbols@ =~= slim_symbols(self.symbols@));
        DocIndex {
            version: self.version,
            package: self.package.clone(),
            source: self.source.clone(),
            symbols,
            sections: Vec::new(),
        }
    }
}

/// The section blocks among the first `n` blocks.
pub open spec fn section_count(bs: Seq<BlockV>, n: int) -> nat
    decreases n,
{
    if n <= 0 {
        0
    } else {
        section_count(bs, n - 1) + if bs[n - 1] is Section {
            1nat
        } else {
            0nat
        }
    }
}

/// The sections of a tree: each entry and its subsections.
pub open spec fn tree_size(v: Seq<SectionV>) -> nat
    decreases v.len(),
{
    if v.len() == 0 {
        0
    } else {
        tree_size(v.drop_last()) + 1 + v.last().subsections.len()
    }
}

/// No subsection has subsections of its own.
pub open spec fn two_levels(v: Seq<SectionV>) -> bool {
    forall|i: int, k: int|
        0 <= i < v.len() && 0 <= k < v[i].subsections.len() ==> (#[trigger] v[i].subsections[k]).n_subsections
            == 0
}

pub open spec fn parent_size(p: Option<SectionV>) -> nat {
    match p {
        Some(s) => 1 + s.subsections.len(),
        None => 0,
    }
}

pub open spec fn parent_flat(p: Option<SectionV>) -> bool {
    match p {
        Some(s) => forall|k: int| 0 <= k < s.subsections.len() ==> (#[trigger] s.subsections[k]).n_subsections == 0,
        None => true,
    }
}

proof fn lemma_hier_run(bs: Seq<BlockV>, n: int)
    requires
        0 <= n <= bs.len(),
    ensures
        tree_size(hier_run(bs, n).result) + parent_size(hier_run(bs, n).parent) == section_count(bs, n),
        two_levels(hier_run(bs, n).result),
        parent_flat(hier_run(bs, n).parent),
    decreases n,
{
    if n > 0 {
        lemma_hier_run(bs, n - 1);
        let st = hier_run(bs, n - 1);
        let nx = hier_run(bs, n);
        match st.parent {
            Some(p) => {
                let r2 = st.result.push(p);
                assert(r2.drop_last() =~= st.result);
                assert forall|i: int, k: int|
                    0 <= i < r2.len() && 0 <= k < r2[i].subsections.len() implies (#[trigger] r2[i].subsections[k]).n_subsections
                        == 0 by {
                    if i < st.result.len() {
                        assert(r2[i] == st.result[i]);
                    }
                }
            },
            None => {},
        }
        match bs[n - 1] {
            BlockV::Section { title, body } => {
                let b = trim(body);
                let r3 = st.result.push(leaf(title, b));
                assert(r3.drop_last() =~= st.result);
                assert forall|i: int, k: int|
                    0 <= i < r3.len() && 0 <= k < r3[i].subsections.len() implies (#[trigger] r3[i].subsections[k]).n_subsections
                        == 0 by {
                    if i < st.result.len() {
                        assert(r3[i] == st.result[i]);
                    }
                }
                match st.parent {
                    Some(p) => {
                        let ps = p.subsections.push(SubV { title, body_md: b, n_subsections: 0 });
                        assert forall|k: int| 0 <= k < ps.len() implies (#[trigger] ps[k]).n_subsections == 0 by {
                            if k < p.subsections.len() {
                                assert(ps[k] == p.subsections[k]);
                            }
                        }
                    },
                    None => {},
                }
            },
            BlockV::Symbol { .. } => {},
        }
    }
}

/// Sections nest at most one level deep, and each section block of a
/// document appears exactly once in its tree, at the top or as a
/// subsection.
pub proof fn lemma_hierarchy_shape(bs: Seq<BlockV>)
    ensures
        tree_size(hierarchy(bs)) == section_count(bs, bs.len() as int),
        two_levels(hierarchy(bs)),
{
    lemma_hier_run(bs, bs.len() as int);
    let st = hier_run(bs, bs.len() as int);
    match st.parent {
        Some(p) => {
            let r2 = st.result.push(p);
            assert(r2.drop_last() =~= st.result);
            assert forall|i: int, k: int|
                0 <= i < r2.len() && 0 <= k < r2[i].subsections.len() implies (#[trigger] r2[i].subsections[k]).n_subsections
                    == 0 by {
                if i < st.result.len() {
                    assert(r2[i] == st.result[i]);
                }
            }
        },
        None => {},
    }
}

/// Block `i` is a parent section: its body is blank and the next block is a
/// section.
pub open spec fn is_parent(bs: Seq<BlockV>, i: int) -> bool {
    bs[i] matches BlockV::Section { body, .. } && trim(body).len() == 0 && i + 1 < bs.len()
        && bs[i + 1] is Section
}

/// Some block among the first `n` is a parent section.
pub open spec fn parent_before(bs: Seq<BlockV>, n: int) -> bool
    decreases n,
{
    n > 0 && (is_parent(bs, n - 1) || parent_before(bs, n - 1))
}

/// The section blocks among the first `n`, in order: title, trimmed body,
/// and whether the section stands at the top of the tree (it is a parent,
/// or no parent comes before it).
pub open spec fn section_items(bs: Seq<BlockV>, n: int) -> Seq<(Seq<char>, Seq<char>, bool)>
    decreases n,
{
    if n <= 0 {
        Seq::empty()
    } else {
        section_items(bs, n - 1) + match bs[n - 1] {
            BlockV::Section { title, body } => seq![
                (title, trim(body), is_parent(bs, n - 1) || !parent_before(bs, n - 1)),
            ],
            BlockV::Symbol { .. } => Seq::empty(),
        }
    }
}

/// An entry of the tree and then its subsections, each marked whether it
/// stands at the top.
pub open spec fn entry_items(s: SectionV) -> Seq<(Seq<char>, Seq<char>, bool)> {
    seq![(s.title, s.body_md, true)] + Seq::new(
        s.subsections.len(),
        |k: int| (s.subsections[k].title, s.subsections[k].body_md, false),
    )
}

/// The tree listed in order: each entry, then its subsections.
pub open spec fn tree_items(v: Seq<SectionV>) -> Seq<(Seq<char>, Seq<char>, bool)>
    decreases v.len(),
{
    if v.len() == 0 {
        Seq::empty()
    } else {
        tree_items(v.drop_last()) + entry_items(v.last())
    }
}

spec fn pending_items(p: Option<SectionV>) -> Seq<(Seq<char>, Seq<char>, bool)> {
    match p {
        Some(s) => entry_items(s),
        None => Seq::empty(),
    }
}

proof fn lemma_tree_items_push(v: Seq<SectionV>, x: SectionV)
    ensures
        tree_items(v.push(x)) == tree_items(v) + entry_items(x),
{
    assert(v.push(x).drop_last() =~= v);
}

proof fn lemma_hier_items(bs: Seq<BlockV>, n: int)
    requires
        0 <= n <= bs.len(),
    ensures
        tree_items(hier_run(bs, n).result) + pending_items(hier_run(bs, n).parent) == section_items(bs, n),
        hier_run(bs, n).parent is Some <==> parent_before(bs, n),
    decreases n,
{
    if n > 0 {
        lemma_hier_items(bs, n - 1);
        let st = hier_run(bs, n - 1);
        let prev = section_items(bs, n - 1);
        match bs[n - 1] {
            BlockV::Section { title, body } => {
                let b = trim(body);
                let item = (title, b, is_parent(bs, n - 1) || !parent_before(bs, n - 1));
                assert(section_items(bs, n) == prev + seq![item]);
                if is_parent(bs, n - 1) {
                    match st.parent {
                        Some(p) => {
                            lemma_tree_items_push(st.result, p);
                        },
                        None => {},
                    }
                    assert(entry_items(leaf(title, b)) =~= seq![(title, b, true)]);
                } else {
                    match st.parent {
                        Some(p) => {
                            let sub = SubV { title, body_md: b, n_subsections: 0 };
                            let p2 = SectionV { subsections: p.subsections.push(sub), ..p };
                            assert(entry_items(p2) =~= entry_items(p).push((title, b, false)));
                        },
                        None => {
                            lemma_tree_items_push(st.result, leaf(title, b));
                            assert(entry_items(leaf(title, b)) =~= seq![(title, b, true)]);
                        },
                    }
                }
            },
            BlockV::Symbol { .. } => {
                assert(section_items(bs, n) =~= prev);
                assert(!is_parent(bs, n - 1));
            },
        }
    }
}

/// How sections nest: listing the tree in order, each entry followed by
/// its subsections, gives the document's section blocks in order, with
/// their titles and trimmed bodies; a section is an entry of the tree
/// exactly when it is a parent (blank body, a section right after it) or
/// no parent comes before it, and otherwise it is a subsection of the entry
/// listed last before it.
pub proof fn lemma_hierarchy_order(bs: Seq<BlockV>)
    ensures
        tree_items(hierarchy(bs)) == section_items(bs, bs.len() as int),
{
    lemma_hier_items(bs, bs.len() as int);
    let st = hier_run(bs, bs.len() as int);
    match st.parent {
        Some(p) => {
            lemma_tree_items_push(st.result, p);
        },
        None => {},
    }
}

/// Sections nested by their marks: an item marked top opens a new entry
/// (so does any item while there is none); any other item is appended to
/// the subsections of the last entry.
pub open spec fn nest(items: Seq<(Seq<char>, Seq<char>, bool)>) -> Seq<SectionV>
    decreases items.len(),
{
    if items.len() == 0 {
        Seq::empty()
    } else {
        let v = nest(items.drop_last());
        let (t, b, top) = items.last();
        if top || v.len() == 0 {
            v.push(leaf(t, b))
        } else {
            let p = v.last();
            v.update(
                v.len() - 1,
                SectionV {
                    subsections: p.subsections.push(SubV { title: t, body_md: b, n_subsections: 0 }),
                    ..p
                },
            )
        }
    }
}

spec fn hier_view(st: HierV) -> Seq<SectionV> {
    match st.parent {
        Some(p) => st.result.push(p),
        None => st.result,
    }
}

proof fn lemma_hier_nest(bs: Seq<BlockV>, n: int)
    requires
        0 <= n <= bs.len(),
    ensures
        hier_view(hier_run(bs, n)) == nest(section_items(bs, n)),
    decreases n,
{
    if n > 0 {
        lemma_hier_nest(bs, n - 1);
        lemma_hier_items(bs, n - 1);
        let st = hier_run(bs, n - 1);
        let prev = section_items(bs, n - 1);
        match bs[n - 1] {
            BlockV::Section { title, body } => {
                let b = trim(body);
                let item = (title, b, is_parent(bs, n - 1) || !parent_before(bs, n - 1));
                let items = prev + seq![item];
                assert(section_items(bs, n) == items);
                assert(items.drop_last() =~= prev);
                assert(items.last() == item);
                if is_parent(bs, n - 1) {
                    match st.parent {
                        Some(p) => {
                            assert(hier_view(hier_run(bs, n)) =~= hier_view(st).push(leaf(title, b)));
                        },
                        None => {},
                    }
                } else {
                    match st.parent {
                        Some(p) => {
                            let v = hier_view(st);
                            assert(v.len() > 0 && v.last() == p);
                            assert(hier_view(hier_run(bs, n)) =~= v.update(
                                v.len() - 1,
                                SectionV {
                                    subsections: p.subsections.push(
                                        SubV { title, body_md: b, n_subsections: 0 },
                                    ),
                                    ..p
                                },
                            ));
                        },
                        None => {},
                    }
                }
            },
            BlockV::Symbol { .. } => {
                assert(section_items(bs, n) =~= prev);
            },
        }
    }
}

proof fn lemma_nearest_parent(bs: Seq<BlockV>, n: int)
    requires
        0 <= n <= bs.len(),
        parent_before(bs, n),
    ensures
        exists|p: int|
            0 <= p < n && #[trigger] is_parent(bs, p) && forall|q: int| p < q < n ==> !#[trigger] is_parent(bs, q),
    decreases n,
{
    if !is_parent(bs, n - 1) {
        lemma_nearest_parent(bs, n - 1);
        let p = choose|p: int|
            0 <= p < n - 1 && #[trigger] is_parent(bs, p) && forall|q: int| p < q < n - 1 ==> !#[trigger] is_parent(bs, q);
        assert(forall|q: int| p < q < n ==> !#[trigger] is_parent(bs, q));
    } else {
        assert(forall|q: int| n - 1 < q < n ==> !#[trigger] is_parent(bs, q));
    }
}

proof fn lemma_parent_before_mono(bs: Seq<BlockV>, p: int, n: int)
    requires
        0 <= p < n,
        is_parent(bs, p),
    ensures
        parent_before(bs, n),
    decreases n,
{
    if n - 1 > p {
        lemma_parent_before_mono(bs, p, n - 1);
    }
}

/// Section `n` lies under its nearest preceding parent: there is a parent
/// before it, and every section between that parent and it is appended
/// too (it is no parent, and a parent comes before it).
pub open spec fn under_nearest_parent(bs: Seq<BlockV>, n: int) -> bool {
    exists|p: int|
        0 <= p < n && #[trigger] is_parent(bs, p) && forall|q: int|
            p < q < n && bs[q] is Section ==> !is_parent(bs, q) && #[trigger] parent_before(bs, q)
}

/// The section tree of the blocks, said directly: the section blocks are
/// taken in order, and a section opens a new entry exactly when it is a
/// parent (blank body, a section right after it) or no parent comes before
/// it; any other section is appended to the subsections of the entry last
/// opened, and that entry is the one its nearest preceding parent opened.
pub proof fn lemma_hierarchy_nesting(bs: Seq<BlockV>)
    ensures
        hierarchy(bs) == nest(section_items(bs, bs.len() as int)),
        forall|n: int|
            0 <= n < bs.len() && bs[n] is Section && !is_parent(bs, n) && parent_before(bs, n)
                ==> #[trigger] under_nearest_parent(bs, n),
{
    lemma_hier_nest(bs, bs.len() as int);
    assert forall|n: int|
        0 <= n < bs.len() && bs[n] is Section && !is_parent(bs, n) && parent_before(bs, n)
            implies #[trigger] under_nearest_parent(bs, n) by {
        lemma_nearest_parent(bs, n);
        let p = choose|p: int|
            0 <= p < n && #[trigger] is_parent(bs, p) && forall|q: int| p < q < n ==> !#[trigger] is_parent(bs, q);
        assert forall|q: int| p < q < n && bs[q] is Section implies !is_parent(bs, q) && #[trigger] parent_before(bs, q) by {
            lemma_parent_before_mono(bs, p, q);
        }
    }
}

/// The title of the last section among the first `n` blocks.
pub open spec fn last_section(bs: Seq<BlockV>, n: int) -> Option<Seq<char>>
    decreases n,
{
    if n <= 0 {
        None
    } else {
        match bs[n - 1] {
            BlockV::Section { title, .. } => Some(title),
            BlockV::Symbol { .. } => last_section(bs, n - 1),
        }
    }
}

/// The entry of the last definition of `name` among the first `n` blocks,
/// read under the title of the last section above it.
pub open spec fn definition_of(bs: Seq<BlockV>, n: int, name: Seq<char>) -> Option<SymbolV>
    decreases n,
{
    if n <= 0 {
        None
    } else {
        match bs[n - 1] {
            BlockV::Symbol { kind, body } => if kind.name == name {
                Some(entry_of(kind, body, last_section(bs, n - 1)))
            } else {
                definition_of(bs, n - 1, name)
            },
            BlockV::Section { .. } => definition_of(bs, n - 1, name),
        }
    }
}

proof fn lemma_sym_run(bs: Seq<BlockV>, n: int)
    requires
        0 <= n <= bs.len(),
    ensures
        sym_run(bs, n).section == last_section(bs, n),
        forall|name: Seq<char>|
            #[trigger] super::symbols::lookup(sym_run(bs, n).symbols, name) == definition_of(bs, n, name),
    decreases n,
{
    if n > 0 {
        lemma_sym_run(bs, n - 1);
        let st = sym_run(bs, n - 1);
        match bs[n - 1] {
            BlockV::Symbol { kind, body } => {
                assert forall|name: Seq<char>|
                    #[trigger] super::symbols::lookup(sym_run(bs, n).symbols, name) == definition_of(
                        bs,
                        n,
                        name,
                    ) by {
                    super::symbols::lemma_lookup_after_insert(
                        st.symbols,
                        kind.name,
                        entry_of(kind, body, st.section),
                        name,
                    );
                    assert(super::symbols::lookup(st.symbols, name) == definition_of(bs, n - 1, name));
                }
            },
            BlockV::Section { .. } => {
                assert forall|name: Seq<char>|
                    #[trigger] super::symbols::lookup(sym_run(bs, n).symbols, name) == definition_of(
                        bs,
                        n,
                        name,
                    ) by {
                    assert(super::symbols::lookup(st.symbols, name) == definition_of(bs, n - 1, name));
                }
            },
        }
    }
}

/// Each symbol of a document's index is given by its last definition
/// block, read under the title of the last section above that block; a
/// name without a definition block has no entry.
pub proof fn lemma_doc_symbols(content: Seq<char>)
    ensures
        forall|name: Seq<char>|
            #[trigger] super::symbols::lookup(doc_symbols(content), name) == definition_of(
                doc_blocks(content),
                doc_blocks(content).len() as int,
                name,
            ),
{
    let bs = doc_blocks(content);
    lemma_sym_run(bs, bs.len() as int);
}

// ---------------------------------------------------------------------------
// The symbols of a document, read off its heading lines
// ---------------------------------------------------------------------------

/// The name that a line defines: that of a `### Function:` or
/// `### Variable:` heading (a `##` heading defines none).
pub open spec fn defined_name(l: Seq<char>) -> Option<Seq<char>> {
    if section_heading(l) is Some {
        None
    } else {
        match func_heading(l) {
            Some((name, _)) => Some(name),
            None => var_heading(l),
        }
    }
}

/// The title of the last `##` heading among the first `n` lines.
pub open spec fn title_above(ls: Seq<Seq<char>>, n: int) -> Option<Seq<char>>
    decreases n,
{
    if n <= 0 {
        None
    } else if section_heading(ls[n - 1]) is Some {
        section_heading(ls[n - 1])
    } else {
        title_above(ls, n - 1)
    }
}

/// The index of the last of the first `n` lines that defines `name`, or -1.
pub open spec fn last_definition_line(ls: Seq<Seq<char>>, n: int, name: Seq<char>) -> int
    decreases n,
{
    if n <= 0 {
        -1
    } else if defined_name(ls[n - 1]) == Some(name) {
        n - 1
    } else {
        last_definition_line(ls, n - 1, name)
    }
}

/// The blocks read so far, the one still open included.
spec fn open_blocks(st: SplitV) -> Seq<BlockV> {
    match st.current {
        Some(h) => st.blocks.push(block_of(h, st.body)),
        None => st.blocks,
    }
}

/// The blocks agree with the first `n` lines on the last section title and
/// on which names are defined, under which title.
spec fn blocks_match_lines(bs: Seq<BlockV>, ls: Seq<Seq<char>>, n: int) -> bool {
    &&& last_section(bs, bs.len() as int) == title_above(ls, n)
    &&& forall|name: Seq<char>|
        #[trigger] definition_of(bs, bs.len() as int, name) is Some <==> last_definition_line(ls, n, name) >= 0
    &&& forall|name: Seq<char>|
        #[trigger] definition_of(bs, bs.len() as int, name) matches Some(e) ==> e.section == title_above(
            ls,
            last_definition_line(ls, n, name),
        )
}

proof fn lemma_blocks_prefix(bs: Seq<BlockV>, cs: Seq<BlockV>, m: int)
    requires
        0 <= m <= bs.len(),
        m <= cs.len(),
        forall|k: int| 0 <= k < m ==> bs[k] == cs[k],
    ensures
        last_section(bs, m) == last_section(cs, m),
        forall|name: Seq<char>| #[trigger] definition_of(bs, m, name) == definition_of(cs, m, name),
    decreases m,
{
    if m > 0 {
        lemma_blocks_prefix(bs, cs, m - 1);
        assert(bs[m - 1] == cs[m - 1]);
        assert forall|name: Seq<char>| #[trigger] definition_of(bs, m, name) == definition_of(cs, m, name) by {
            assert(definition_of(bs, m - 1, name) == definition_of(cs, m - 1, name));
        }
    }
}

/// Appending a block to `bs`: what the last section and the definitions become.
proof fn lemma_blocks_push(bs: Seq<BlockV>, b: BlockV)
    ensures
        last_section(bs.push(b), bs.len() + 1int) == (match b {
            BlockV::Section { title, .. } => Some(title),
            BlockV::Symbol { .. } => last_section(bs, bs.len() as int),
        }),
        forall|name: Seq<char>|
            #[trigger] definition_of(bs.push(b), bs.len() + 1int, name) == (match b {
                BlockV::Symbol { kind, body } => if kind.name == name {
                    Some(entry_of(kind, body, last_section(bs, bs.len() as int)))
                } else {
                    definition_of(bs, bs.len() as int, name)
                },
                BlockV::Section { .. } => definition_of(bs, bs.len() as int, name),
            }),
{
    let cs = bs.push(b);
    lemma_blocks_prefix(bs, cs, bs.len() as int);
    assert(cs[bs.len() as int] == b);
}

proof fn lemma_split_matches_lines(ls: Seq<Seq<char>>, n: int)
    requires
        0 <= n <= ls.len(),
    ensures
        blocks_match_lines(open_blocks(split_run(ls, n)), ls, n),
    decreases n,
{
    if n > 0 {
        lemma_split_matches_lines(ls, n - 1);
        let st = split_run(ls, n - 1);
        let l = ls[n - 1];
        let bs = open_blocks(st);
        let st2 = split_step(st, l);
        assert(st2 == split_run(ls, n));
        let f = flush_v(st);
        assert(f.current is None && f.blocks == bs);
        if section_heading(l) is Some || func_heading(l) is Some || var_heading(l) is Some {
            let b = match st2.current {
                Some(h) => block_of(h, st2.body),
                None => arbitrary(),
            };
            assert(st2.current is Some && st2.blocks == bs && st2.body == Seq::<char>::empty());
            assert(open_blocks(st2) == bs.push(b));
            lemma_blocks_push(bs, b);
            assert forall|name: Seq<char>|
                last_definition_line(ls, n, name) >= 0 implies #[trigger] definition_of(
                    bs.push(b),
                    bs.len() + 1int,
                    name,
                ) is Some by {
                if defined_name(l) != Some(name) {
                    assert(last_definition_line(ls, n, name) == last_definition_line(ls, n - 1, name));
                }
            }
        } else {
            assert(defined_name(l) is None);
            assert(title_above(ls, n) == title_above(ls, n - 1));
            assert forall|name: Seq<char>|
                #[trigger] last_definition_line(ls, n, name) == last_definition_line(ls, n - 1, name) by {}
            match st.current {
                Some(h) => {
                    let bs2 = open_blocks(st2);
                    let pre = st.blocks;
                    if st2 != st {
                        assert(st2.blocks == pre && st2.current == st.current);
                        let b1 = block_of(h, st.body);
                        let b2 = block_of(h, st2.body);
                        assert(bs == pre.push(b1) && bs2 == pre.push(b2));
                        lemma_blocks_push(pre, b1);
                        lemma_blocks_push(pre, b2);
                    }
                },
                None => {
                    assert(open_blocks(st2) == bs);
                },
            }
        }
    }
}

/// A document's index lists exactly the names that its `### Function:` and
/// `### Variable:` heading lines define, each filed under the title of the
/// last `##` heading line above the last line that defines it (under none
/// when no `##` line stands above it).
pub proof fn lemma_doc_symbols_from_lines(content: Seq<char>)
    ensures
        forall|name: Seq<char>|
            #[trigger] super::symbols::lookup(doc_symbols(content), name) is Some
                <==> last_definition_line(lines(content), lines(content).len() as int, name) >= 0,
        forall|name: Seq<char>|
            #[trigger] super::symbols::lookup(doc_symbols(content), name) matches Some(e)
                ==> e.section == title_above(
                lines(content),
                last_definition_line(lines(content), lines(content).len() as int, name),
            ),
{
    let ls = lines(content);
    let st = split_run(ls, ls.len() as int);
    lemma_split_matches_lines(ls, ls.len() as int);
    assert(flush_v(st).blocks == open_blocks(st));
    lemma_doc_symbols(content);
}

proof fn lemma_last_definition_line(ls: Seq<Seq<char>>, n: int, name: Seq<char>)
    requires
        0 <= n <= ls.len(),
    ensures
        last_definition_line(ls, n, name) >= 0 <==> exists|j: int|
            0 <= j < n && #[trigger] defined_name(ls[j]) == Some(name),
        last_definition_line(ls, n, name) >= 0 ==> {
            let d = last_definition_line(ls, n, name);
            &&& 0 <= d < n
            &&& defined_name(ls[d]) == Some(name)
            &&& forall|k: int| d < k < n ==> #[trigger] defined_name(ls[k]) != Some(name)
        },
    decreases n,
{
    if n > 0 {
        lemma_last_definition_line(ls, n - 1, name);
    }
}

/// What `parse_markdown` lists (its `symbols` are `doc_symbols`), in terms
/// of the lines: a name has an entry exactly when some line is a
/// `### Function:` or `### Variable:` heading for it, and the entry is
/// filed under the title of the last `##` heading line above the last such
/// line (under none when no `##` line stands above it).
pub proof fn lemma_parse_markdown_symbols(content: Seq<char>)
    ensures
        forall|name: Seq<char>|
            #[trigger] super::symbols::lookup(doc_symbols(content), name) is Some <==> exists|j: int|
                0 <= j < lines(content).len() && #[trigger] defined_name(lines(content)[j]) == Some(name),
        forall|name: Seq<char>, j: int|
            0 <= j < lines(content).len() && #[trigger] defined_name(lines(content)[j]) == Some(name)
                && (forall|k: int|
                j < k < lines(content).len() ==> #[trigger] defined_name(lines(content)[k]) != Some(name))
                ==> (#[trigger] super::symbols::lookup(doc_symbols(content), name) matches Some(e)
                && e.section == title_above(lines(content), j)),
{
    let ls = lines(content);
    lemma_doc_symbols_from_lines(content);
    assert forall|name: Seq<char>|
        #[trigger] super::symbols::lookup(doc_symbols(content), name) is Some <==> exists|j: int|
            0 <= j < ls.len() && #[trigger] defined_name(ls[j]) == Some(name) by {
        lemma_last_definition_line(ls, ls.len() as int, name);
    }
    assert forall|name: Seq<char>, j: int|
        0 <= j < ls.len() && #[trigger] defined_name(ls[j]) == Some(name) && (forall|k: int|
            j < k < ls.len() ==> #[trigger] defined_name(ls[k]) != Some(name)) implies (
        #[trigger] super::symbols::lookup(doc_symbols(content), name) matches Some(e) && e.section
            == title_above(ls, j)) by {
        lemma_last_definition_line(ls, ls.len() as int, name);
        let d = last_definition_line(ls, ls.len() as int, name);
        assert(d >= 0);
        if d != j {
            if d < j {
                assert(defined_name(ls[j]) != Some(name));
            } else {
                assert(defined_name(ls[d]) != Some(name));
            }
        }
    }
}

} // verus!
