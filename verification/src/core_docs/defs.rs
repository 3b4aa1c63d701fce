//! The symbol definitions (`deffn`, `defvr`) of a Texinfo XML document.
use vstd::prelude::*;
use super::convert::{
    attr, attribute, collect_raw_text, collect_text, definition_body_to_markdown, first_named,
    is_elem, lemma_trees_index, md_children, node_text, raw_text,
};
use super::emit::{strip_title_prefix, ExtractedSymbol, ExtractedV};
use super::markdown::replace_texinfo_entities;
use super::tree::{
    document_tree, item_views, parse_items, tree_of_items, trees_of, xml_error_text, xml_items_of,
    XmlItem, XmlKind, XmlNode, XmlTree,
};
use super::xml::{
    clean_chapter_name, decode_texinfo_label, extract_category, label_decoded, mapped,
    pair_views, parse_repl_examples, repl_examples,
};
use crate::text::{
    chars_of, chars_of_string, eq_chars, join, lowercase, lt_chars, push_all, seq_lt, string_of,
    strs, to_lowercase, trim, trimmed, views,
};

verus! {

// ---------------------------------------------------------------------------
// Names
// ---------------------------------------------------------------------------

/// The first non-empty `deffunction` or `defvariable` among the children of
/// a `definitionterm`, trimmed.
pub open spec fn term_name(tcs: Seq<XmlTree>) -> Option<Seq<char>>
    decreases tcs.len(),
{
    if tcs.len() == 0 {
        None
    } else {
        let t = tcs[0];
        let nm = trim(node_text(t));
        if (is_elem(t, "deffunction"@) || is_elem(t, "defvariable"@)) && nm.len() > 0 {
            Some(nm)
        } else {
            term_name(tcs.drop_first())
        }
    }
}

/// The name given by the first `definitionterm` child that gives one.
pub open spec fn terms_name(cs: Seq<XmlTree>) -> Option<Seq<char>>
    decreases cs.len(),
{
    if cs.len() == 0 {
        None
    } else if is_elem(cs[0], "definitionterm"@) && term_name(cs[0].children) is Some {
        term_name(cs[0].children)
    } else {
        terms_name(cs.drop_first())
    }
}

/// The first non-empty `indexterm` among `t` and its descendants, in
/// document order, trimmed.
pub open spec fn index_name(t: XmlTree) -> Option<Seq<char>>
    decreases t,
{
    let nm = trim(node_text(t));
    if is_elem(t, "indexterm"@) && nm.len() > 0 {
        Some(nm)
    } else {
        index_names(t.children)
    }
}

pub open spec fn index_names(cs: Seq<XmlTree>) -> Option<Seq<char>>
    decreases cs,
{
    if cs.len() == 0 {
        None
    } else {
        match index_name(cs[0]) {
            Some(x) => Some(x),
            None => index_names(cs.drop_first()),
        }
    }
}

/// The name of a definition, from its terms, else from an index entry.
pub open spec fn definition_name(t: XmlTree) -> Option<Seq<char>> {
    match terms_name(t.children) {
        Some(n) => Some(n),
        None => index_name(t),
    }
}

// ---------------------------------------------------------------------------
// Signatures
// ---------------------------------------------------------------------------

/// The pieces of a term's signature in document order: the name (the
/// `func_tag` element), delimiters (a comma followed by a space), and
/// parameters; an empty parameter is a break between two signatures.
pub open spec fn term_parts(cs: Seq<XmlTree>, func_tag: Seq<char>) -> Seq<Option<Seq<char>>>
    decreases cs.len(),
{
    if cs.len() == 0 {
        Seq::empty()
    } else {
        let ps = term_parts(cs.drop_last(), func_tag);
        let c = cs.last();
        let t = trim(node_text(c));
        if c.kind != XmlKind::Element {
            ps
        } else if c.tag == func_tag {
            ps.push(Some(t))
        } else if c.tag == "defdelimiter"@ {
            ps.push(Some(if t == ","@ { ", "@ } else { t }))
        } else if c.tag == "defparam"@ || c.tag == "var"@ {
            ps.push(if t.len() == 0 { None } else { Some(t) })
        } else {
            ps
        }
    }
}

/// The signatures finished so far, and the pieces of the current one.
pub open spec fn split_parts(ps: Seq<Option<Seq<char>>>) -> (Seq<Seq<char>>, Seq<Seq<char>>)
    decreases ps.len(),
{
    if ps.len() == 0 {
        (Seq::empty(), Seq::empty())
    } else {
        let (sigs, cur) = split_parts(ps.drop_last());
        match ps.last() {
            Some(s) => (sigs, cur.push(s)),
            None => if cur.len() > 0 {
                (sigs.push(join(cur, Seq::empty())), Seq::empty())
            } else {
                (sigs, cur)
            },
        }
    }
}

/// The strings that are not blank, in order.
pub open spec fn nonblank(ss: Seq<Seq<char>>) -> Seq<Seq<char>>
    decreases ss.len(),
{
    if ss.len() == 0 {
        Seq::empty()
    } else {
        let r = nonblank(ss.drop_last());
        if trim(ss.last()).len() > 0 {
            r.push(ss.last())
        } else {
            r
        }
    }
}

/// The signatures of a term: its pieces joined, split at the breaks,
/// blank ones left out.
pub open spec fn term_signatures(cs: Seq<XmlTree>, func_tag: Seq<char>) -> Seq<Seq<char>> {
    let (sigs, cur) = split_parts(term_parts(cs, func_tag));
    nonblank(if cur.len() > 0 { sigs.push(join(cur, Seq::empty())) } else { sigs })
}

/// The element that names a function (under `deffn`, `deffnx`) or a
/// variable (anywhere else).
pub open spec fn func_tag_of(parent_tag: Seq<char>) -> Seq<char> {
    if parent_tag == "deffn"@ || parent_tag == "deffnx"@ {
        "deffunction"@
    } else {
        "defvariable"@
    }
}

/// The signatures of the `definitionterm`s among `cs`, whose parent is
/// tagged `parent_tag`.
pub open spec fn terms_signatures(cs: Seq<XmlTree>, parent_tag: Seq<char>) -> Seq<Seq<char>>
    decreases cs.len(),
{
    if cs.len() == 0 {
        Seq::empty()
    } else {
        let r = terms_signatures(cs.drop_last(), parent_tag);
        let c = cs.last();
        if is_elem(c, "definitionterm"@) {
            r + term_signatures(c.children, func_tag_of(parent_tag))
        } else {
            r
        }
    }
}

/// The signatures of the `deffnx` and `defvrx` elements among `cs`.
pub open spec fn extra_signatures(cs: Seq<XmlTree>) -> Seq<Seq<char>>
    decreases cs.len(),
{
    if cs.len() == 0 {
        Seq::empty()
    } else {
        let r = extra_signatures(cs.drop_last());
        let c = cs.last();
        if is_elem(c, "deffnx"@) || is_elem(c, "defvrx"@) {
            r + terms_signatures(c.children, c.tag)
        } else {
            r
        }
    }
}

/// `ss` without the strings equal to `x`.
pub open spec fn without(ss: Seq<Seq<char>>, x: Seq<char>) -> Seq<Seq<char>>
    decreases ss.len(),
{
    if ss.len() == 0 {
        Seq::empty()
    } else {
        let r = without(ss.drop_last(), x);
        if ss.last() != x {
            r.push(ss.last())
        } else {
            r
        }
    }
}

/// The signatures of a definition: those of its terms, then those of its
/// extra terms; the bare name is dropped when there are others, and is the
/// only one when there are none.
pub open spec fn definition_signatures(t: XmlTree, name: Seq<char>) -> Seq<Seq<char>> {
    let all = terms_signatures(t.children, t.tag) + extra_signatures(t.children);
    let kept = if all.len() > 1 { without(all, name) } else { all };
    if kept.len() == 0 { seq![name] } else { kept }
}

// ---------------------------------------------------------------------------
// Keywords, examples, references
// ---------------------------------------------------------------------------

/// The index entries (`indexterm`, `cindex`) of `t` and its descendants,
/// trimmed, non-empty and each once, added to `acc`.
pub open spec fn keywords_in(t: XmlTree, acc: Seq<Seq<char>>) -> Seq<Seq<char>>
    decreases t,
{
    let x = trim(node_text(t));
    let acc2 = if (is_elem(t, "indexterm"@) || is_elem(t, "cindex"@)) && x.len() > 0
        && !acc.contains(x) {
        acc.push(x)
    } else {
        acc
    };
    keywords_all(t.children, acc2)
}

pub open spec fn keywords_all(cs: Seq<XmlTree>, acc: Seq<Seq<char>>) -> Seq<Seq<char>>
    decreases cs,
{
    if cs.len() == 0 {
        acc
    } else {
        keywords_all(cs.drop_first(), keywords_in(cs[0], acc))
    }
}

/// At most the first five.
pub open spec fn first_five<A>(s: Seq<A>) -> Seq<A> {
    if s.len() > 5 {
        s.take(5)
    } else {
        s
    }
}

/// The REPL examples of the `example` elements of `t` and its descendants,
/// added to `acc`, at most five in all.
pub open spec fn examples_in(t: XmlTree, acc: Seq<(Seq<char>, Seq<char>)>) -> Seq<
    (Seq<char>, Seq<char>),
>
    decreases t,
{
    let acc2 = if is_elem(t, "example"@) {
        first_five(acc + repl_examples(raw_text(t)))
    } else {
        acc
    };
    examples_all(t.children, acc2)
}

pub open spec fn examples_all(cs: Seq<XmlTree>, acc: Seq<(Seq<char>, Seq<char>)>) -> Seq<
    (Seq<char>, Seq<char>),
>
    decreases cs,
{
    if cs.len() == 0 {
        acc
    } else {
        examples_all(cs.drop_first(), examples_in(cs[0], acc))
    }
}

/// The decoded `label`s of the cross references (`ref`, `xref`, `pxref`) of
/// `t` and its descendants, non-empty and each once, added to `acc`.
pub open spec fn see_also_in(t: XmlTree, acc: Seq<Seq<char>>) -> Seq<Seq<char>>
    decreases t,
{
    let acc2 = if is_elem(t, "ref"@) || is_elem(t, "xref"@) || is_elem(t, "pxref"@) {
        match attr(t.attrs, "label"@) {
            Some(l) => {
                let nm = label_decoded(trim(l), 0);
                if nm.len() > 0 && !acc.contains(nm) {
                    acc.push(nm)
                } else {
                    acc
                }
            },
            None => acc,
        }
    } else {
        acc
    };
    see_also_all(t.children, acc2)
}

pub open spec fn see_also_all(cs: Seq<XmlTree>, acc: Seq<Seq<char>>) -> Seq<Seq<char>>
    decreases cs,
{
    if cs.len() == 0 {
        acc
    } else {
        see_also_all(cs.drop_first(), see_also_in(cs[0], acc))
    }
}

// ---------------------------------------------------------------------------
// Definitions
// ---------------------------------------------------------------------------

/// The topical category of a definition: its section title's category
/// unless that is empty or `Other`, else its chapter title's.
pub open spec fn title_category(chapter: Seq<char>, section: Seq<char>) -> Seq<char> {
    if section.len() > 0 && mapped(section) != "Other"@ {
        mapped(section)
    } else {
        mapped(chapter)
    }
}

/// The symbol that a `deffn` or `defvr` element defines, under the given
/// chapter and section titles; none when it has no name.
pub open spec fn definition(t: XmlTree, chapter: Seq<char>, section: Seq<char>) -> Option<
    ExtractedV,
> {
    match definition_name(t) {
        None => None,
        Some(name) => {
            let item = first_named(t.children, "definitionitem"@);
            Some(
                ExtractedV {
                    name,
                    symbol_type: if t.tag == "defvr"@ { "Variable"@ } else { "Function"@ },
                    signatures: definition_signatures(t, name),
                    body_md: match item {
                        Some(it) => trim(md_children(it.children, Seq::empty(), 0)),
                        None => Seq::empty(),
                    },
                    examples: match item {
                        Some(it) => examples_in(it, Seq::empty()),
                        None => Seq::empty(),
                    },
                    see_also: match item {
                        Some(it) => see_also_in(it, Seq::empty()),
                        None => Seq::empty(),
                    },
                    category: title_category(chapter, section),
                    chapter: strip_title_prefix(chapter),
                    keywords: keywords_in(t, Seq::empty()),
                },
            )
        },
    }
}

/// Some symbol of `syms` is named `name`.
pub open spec fn has_symbol(syms: Seq<ExtractedV>, name: Seq<char>) -> bool {
    exists|i: int| 0 <= i < syms.len() && #[trigger] syms[i].name == name
}

/// The title of the first `sectiontitle` child.
pub open spec fn title_of(cs: Seq<XmlTree>) -> Option<Seq<char>> {
    match first_named(cs, "sectiontitle"@) {
        Some(t) => Some(node_text(t)),
        None => None,
    }
}

/// The symbols defined among `cs` and their descendants, added to `acc`
/// (a symbol whose name is taken is left out), with the chapter and
/// section titles in force after `cs`. A chapter (`chapter`, `unnumbered`,
/// `appendix`) with a title sets the chapter title and clears the section
/// title; a `section` with a title sets the section title.
pub open spec fn collect_in(
    cs: Seq<XmlTree>,
    chapter: Seq<char>,
    section: Seq<char>,
    acc: Seq<ExtractedV>,
) -> (Seq<ExtractedV>, Seq<char>, Seq<char>)
    decreases cs,
{
    if cs.len() == 0 {
        (acc, chapter, section)
    } else {
        let (syms, ch, sec) = collect_in(cs.drop_last(), chapter, section, acc);
        let c = cs.last();
        if c.kind != XmlKind::Element {
            (syms, ch, sec)
        } else if c.tag == "chapter"@ || c.tag == "unnumbered"@ || c.tag == "appendix"@ {
            let (ch2, sec2) = match title_of(c.children) {
                Some(t) => (t, Seq::empty()),
                None => (ch, sec),
            };
            (collect_in(c.children, ch2, Seq::empty(), syms).0, ch2, sec2)
        } else if c.tag == "section"@ {
            let sec2 = match title_of(c.children) {
                Some(t) => t,
                None => sec,
            };
            (collect_in(c.children, ch, sec2, syms).0, ch, sec2)
        } else if c.tag == "deffn"@ || c.tag == "defvr"@ {
            match definition(c, ch, sec) {
                Some(sym) => if has_symbol(syms, sym.name) {
                    (syms, ch, sec)
                } else {
                    (syms.push(sym), ch, sec)
                },
                None => (syms, ch, sec),
            }
        } else {
            (collect_in(c.children, ch, sec, syms).0, ch, sec)
        }
    }
}

/// The first element among `cs`.
pub open spec fn first_element(cs: Seq<XmlTree>) -> Option<XmlTree>
    decreases cs.len(),
{
    if cs.len() == 0 {
        None
    } else if cs[0].kind == XmlKind::Element {
        Some(cs[0])
    } else {
        first_element(cs.drop_first())
    }
}

/// `e` inserted before the first symbol whose lowercased name sorts after
/// its own.
pub open spec fn insert_symbol(acc: Seq<ExtractedV>, e: ExtractedV) -> Seq<ExtractedV>
    decreases acc.len(),
{
    if acc.len() == 0 {
        seq![e]
    } else if seq_lt(lowercase(e.name), lowercase(acc[0].name)) {
        seq![e] + acc
    } else {
        seq![acc[0]] + insert_symbol(acc.skip(1), e)
    }
}

/// The symbols sorted by lowercased name; symbols of equal keys keep their
/// order.
pub open spec fn sorted_symbols(v: Seq<ExtractedV>) -> Seq<ExtractedV>
    decreases v.len(),
{
    if v.len() == 0 {
        Seq::empty()
    } else {
        insert_symbol(sorted_symbols(v.drop_last()), v.last())
    }
}

/// The symbols a document defines: those under its root element, sorted
/// by lowercased name.
pub open spec fn document_symbols(doc: XmlTree) -> Seq<ExtractedV> {
    match first_element(doc.children) {
        Some(root) => sorted_symbols(collect_in(root.children, Seq::empty(), Seq::empty(), Seq::empty()).0),
        None => Seq::empty(),
    }
}

// ---------------------------------------------------------------------------
// Executable extraction
// ---------------------------------------------------------------------------

fn tag_chars_is(t: &[char], name: &str) -> (r: bool)
    ensures
        r == (t@ == name@),
{
    let n = chars_of(name);
    eq_chars(t, n.as_slice())
}

fn is_elem_exec(n: &XmlNode, name: &str) -> (r: bool)
    ensures
        r == is_elem(n@, name@),
{
    n.kind == XmlKind::Element && tag_chars_is(chars_of(n.tag.as_str()).as_slice(), name)
}

fn term_name_exec(tcs: &Vec<XmlNode>) -> (r: Option<Vec<char>>)
    ensures
        match r {
            Some(v) => term_name(trees_of(tcs@)) == Some(v@),
            None => term_name(trees_of(tcs@)) is None,
        },
{
    proof {
        lemma_trees_index(tcs@);
    }
    let ghost ts = trees_of(tcs@);
    let mut i: usize = 0;
    assert(ts.skip(0) =~= ts);
    while i < tcs.len()
        invariant
            i <= tcs.len(),
            ts == trees_of(tcs@),
            ts.len() == tcs@.len(),
            forall|k: int| 0 <= k < tcs@.len() ==> #[trigger] ts[k] == tcs@[k]@,
            term_name(ts) == term_name(ts.skip(i as int)),
        decreases tcs.len() - i,
    {
        let t = &tcs[i];
        assert(ts.skip(i as int)[0] == t@);
        if is_elem_exec(t, "deffunction") || is_elem_exec(t, "defvariable") {
            let nm = trimmed(collect_text(t).as_slice());
            if nm.len() > 0 {
                return Some(nm);
            }
        }
        assert(ts.skip(i as int).drop_first() =~= ts.skip(i + 1));
        i += 1;
    }
    None
}

fn terms_name_exec(cs: &Vec<XmlNode>) -> (r: Option<Vec<char>>)
    ensures
        match r {
            Some(v) => terms_name(trees_of(cs@)) == Some(v@),
            None => terms_name(trees_of(cs@)) is None,
        },
{
    proof {
        lemma_trees_index(cs@);
    }
    let ghost ts = trees_of(cs@);
    let mut i: usize = 0;
    assert(ts.skip(0) =~= ts);
    while i < cs.len()
        invariant
            i <= cs.len(),
            ts == trees_of(cs@),
            ts.len() == cs@.len(),
            forall|k: int| 0 <= k < cs@.len() ==> #[trigger] ts[k] == cs@[k]@,
            terms_name(ts) == terms_name(ts.skip(i as int)),
        decreases cs.len() - i,
    {
        let c = &cs[i];
        assert(ts.skip(i as int)[0] == c@);
        assert(c@.children == trees_of(c.children@));
        if is_elem_exec(c, "definitionterm") {
            match term_name_exec(&c.children) {
                Some(nm) => {
                    return Some(nm);
                },
                None => {},
            }
        }
        assert(ts.skip(i as int).drop_first() =~= ts.skip(i + 1));
        i += 1;
    }
    None
}

fn index_name_exec(n: &XmlNode) -> (r: Option<Vec<char>>)
    ensures
        match r {
            Some(v) => index_name(n@) == Some(v@),
            None => index_name(n@) is None,
        },
    decreases n,
{
    if is_elem_exec(n, "indexterm") {
        let nm = trimmed(collect_text(n).as_slice());
        if nm.len() > 0 {
            return Some(nm);
        }
    }
    let cs = &n.children;
    assert(n@.children == trees_of(cs@));
    proof {
        lemma_trees_index(cs@);
    }
    let ghost ts = trees_of(cs@);
    let mut i: usize = 0;
    assert(ts.skip(0) =~= ts);
    while i < cs.len()
        invariant
            i <= cs.len(),
            cs == &n.children,
            ts == trees_of(cs@),
            ts.len() == cs@.len(),
            forall|k: int| 0 <= k < cs@.len() ==> #[trigger] ts[k] == cs@[k]@,
            index_name(n@) == index_names(ts),
            index_names(ts) == index_names(ts.skip(i as int)),
        decreases cs.len() - i,
    {
        assert(ts.skip(i as int)[0] == cs@[i as int]@);
        assert(decreases_to!(*n => n.children));
        assert(decreases_to!(n.children => n.children@));
        assert(decreases_to!(n.children@ => n.children@[i as int]));
        match index_name_exec(&cs[i]) {
            Some(nm) => {
                return Some(nm);
            },
            None => {},
        }
        assert(ts.skip(i as int).drop_first() =~= ts.skip(i + 1));
        i += 1;
    }
    None
}

/// The name of a definition: the first non-empty `deffunction` or
/// `defvariable` of its terms, else its first non-empty index entry.
pub fn extract_name(n: &XmlNode) -> (r: Option<String>)
    ensures
        match r {
            Some(s) => definition_name(n@) == Some(s@),
            None => definition_name(n@) is None,
        },
{
    assert(n@.children == trees_of(n.children@));
    match terms_name_exec(&n.children) {
        Some(v) => Some(string_of(v.as_slice())),
        None => match index_name_exec(n) {
            Some(v) => Some(string_of(v.as_slice())),
            None => None,
        },
    }
}

pub open spec fn opt_views(v: Seq<Option<Vec<char>>>) -> Seq<Option<Seq<char>>> {
    Seq::new(
        v.len(),
        |i: int|
            match v[i] {
                Some(x) => Some(x@),
                None => None,
            },
    )
}

fn term_parts_exec(cs: &Vec<XmlNode>, func_tag: &[char]) -> (r: Vec<Option<Vec<char>>>)
    ensures
        opt_views(r@) == term_parts(trees_of(cs@), func_tag@),
{
    proof {
        lemma_trees_index(cs@);
    }
    let ghost ts = trees_of(cs@);
    let mut ps: Vec<Option<Vec<char>>> = Vec::new();
    let delim = chars_of("defdelimiter");
    let comma = chars_of(",");
    let mut i: usize = 0;
    assert(ts.take(0) =~= Seq::<XmlTree>::empty());
    assert(opt_views(ps@) =~= Seq::<Option<Seq<char>>>::empty());
    while i < cs.len()
        invariant
            i <= cs.len(),
            ts == trees_of(cs@),
            ts.len() == cs@.len(),
            forall|k: int| 0 <= k < cs@.len() ==> #[trigger] ts[k] == cs@[k]@,
            delim@ == "defdelimiter"@,
            comma@ == ","@,
            opt_views(ps@) == term_parts(ts.take(i as int), func_tag@),
        decreases cs.len() - i,
    {
        let c = &cs[i];
        assert(ts.take(i + 1).drop_last() =~= ts.take(i as int));
        assert(ts.take(i + 1).last() == c@);
        let ghost before = ps@;
        if c.kind == XmlKind::Element {
            let tag = chars_of(c.tag.as_str());
            let t = trimmed(collect_text(c).as_slice());
            if eq_chars(tag.as_slice(), func_tag) {
                ps.push(Some(t));
                assert(opt_views(ps@) =~= opt_views(before).push(Some(t@)));
            } else if eq_chars(tag.as_slice(), delim.as_slice()) {
                let piece = if eq_chars(t.as_slice(), comma.as_slice()) {
                    chars_of(", ")
                } else {
                    t
                };
                ps.push(Some(piece));
                assert(opt_views(ps@) =~= opt_views(before).push(Some(piece@)));
            } else if tag_chars_is(tag.as_slice(), "defparam") || tag_chars_is(tag.as_slice(), "var") {
                if t.len() == 0 {
                    ps.push(None);
                    assert(opt_views(ps@) =~= opt_views(before).push(None));
                } else {
                    ps.push(Some(t));
                    assert(opt_views(ps@) =~= opt_views(before).push(Some(t@)));
                }
            }
        }
        i += 1;
    }
    assert(ts.take(cs.len() as int) =~= ts);
    ps
}

/// The signatures of a `definitionterm`: the text of its name, delimiter
/// and parameter children joined in document order, split where an empty
/// parameter stands, blank ones left out. `func_tag` names the element
/// that holds the defined name.
pub fn build_signatures_from_term(term: &XmlNode, func_tag: &str) -> (r: Vec<Vec<char>>)
    ensures
        views(r@) == term_signatures(term@.children, func_tag@),
{
    assert(term@.children == trees_of(term.children@));
    let ft = chars_of(func_tag);
    let ps = term_parts_exec(&term.children, ft.as_slice());
    let ghost pv = opt_views(ps@);
    let mut sigs: Vec<Vec<char>> = Vec::new();
    let mut cur: Vec<Vec<char>> = Vec::new();
    let empty: Vec<char> = Vec::new();
    let mut i: usize = 0;
    assert(pv.take(0) =~= Seq::<Option<Seq<char>>>::empty());
    assert(views(sigs@) =~= Seq::<Seq<char>>::empty());
    assert(views(cur@) =~= Seq::<Seq<char>>::empty());
    while i < ps.len()
        invariant
            i <= ps.len(),
            pv == opt_views(ps@),
            empty@ == Seq::<char>::empty(),
            split_parts(pv.take(i as int)) == (views(sigs@), views(cur@)),
        decreases ps.len() - i,
    {
        assert(pv.take(i + 1).drop_last() =~= pv.take(i as int));
        assert(pv.take(i + 1).last() == pv[i as int]);
        match &ps[i] {
            Some(x) => {
                let ghost before = cur@;
                cur.push(slice_all(x));
                assert(views(cur@) =~= views(before).push(x@));
            },
            None => {
                if cur.len() > 0 {
                    let j = crate::text::join_chars(&cur, empty.as_slice());
                    let ghost before = sigs@;
                    sigs.push(j);
                    assert(views(sigs@) =~= views(before).push(j@));
                    cur = Vec::new();
                    assert(views(cur@) =~= Seq::<Seq<char>>::empty());
                }
            },
        }
        i += 1;
    }
    assert(pv.take(ps.len() as int) =~= pv);
    if cur.len() > 0 {
        let j = crate::text::join_chars(&cur, empty.as_slice());
        let ghost before = sigs@;
        sigs.push(j);
        assert(views(sigs@) =~= views(before).push(j@));
    }
    nonblank_exec(&sigs)
}

fn slice_all(x: &Vec<char>) -> (r: Vec<char>)
    ensures
        r@ == x@,
{
    let r = crate::text::slice_copy(x.as_slice(), 0, x.len());
    assert(x@.subrange(0, x@.len() as int) =~= x@);
    r
}

fn nonblank_exec(ss: &Vec<Vec<char>>) -> (r: Vec<Vec<char>>)
    ensures
        views(r@) == nonblank(views(ss@)),
{
    let ghost sv = views(ss@);
    let mut r: Vec<Vec<char>> = Vec::new();
    let mut i: usize = 0;
    assert(sv.take(0) =~= Seq::<Seq<char>>::empty());
    assert(views(r@) =~= Seq::<Seq<char>>::empty());
    while i < ss.len()
        invariant
            i <= ss.len(),
            sv == views(ss@),
            views(r@) == nonblank(sv.take(i as int)),
        decreases ss.len() - i,
    {
        assert(sv.take(i + 1).drop_last() =~= sv.take(i as int));
        assert(sv.take(i + 1).last() == ss@[i as int]@);
        if trimmed(ss[i].as_slice()).len() > 0 {
            let ghost before = r@;
            r.push(slice_all(&ss[i]));
            assert(views(r@) =~= views(before).push(ss@[i as int]@));
        }
        i += 1;
    }
    assert(sv.take(ss.len() as int) =~= sv);
    r
}

fn terms_signatures_exec(cs: &Vec<XmlNode>, parent_tag: &[char]) -> (r: Vec<Vec<char>>)
    ensures
        views(r@) == terms_signatures(trees_of(cs@), parent_tag@),
{
    proof {
        lemma_trees_index(cs@);
    }
    let ghost ts = trees_of(cs@);
    let ft = if tag_chars_is(parent_tag, "deffn") || tag_chars_is(parent_tag, "deffnx") {
        "deffunction"
    } else {
        "defvariable"
    };
    assert(ft@ == func_tag_of(parent_tag@));
    let mut r: Vec<Vec<char>> = Vec::new();
    let mut i: usize = 0;
    assert(ts.take(0) =~= Seq::<XmlTree>::empty());
    assert(views(r@) =~= Seq::<Seq<char>>::empty());
    while i < cs.len()
        invariant
            i <= cs.len(),
            ts == trees_of(cs@),
            ts.len() == cs@.len(),
            forall|k: int| 0 <= k < cs@.len() ==> #[trigger] ts[k] == cs@[k]@,
            ft@ == func_tag_of(parent_tag@),
            views(r@) == terms_signatures(ts.take(i as int), parent_tag@),
        decreases cs.len() - i,
    {
        let c = &cs[i];
        assert(ts.take(i + 1).drop_last() =~= ts.take(i as int));
        assert(ts.take(i + 1).last() == c@);
        if is_elem_exec(c, "definitionterm") {
            let mut more = build_signatures_from_term(c, ft);
            let ghost before = r@;
            let ghost m0 = more@;
            r.append(&mut more);
            assert(views(r@) =~= views(before) + views(m0));
        }
        i += 1;
    }
    assert(ts.take(cs.len() as int) =~= ts);
    r
}

fn extra_signatures_exec(cs: &Vec<XmlNode>) -> (r: Vec<Vec<char>>)
    ensures
        views(r@) == extra_signatures(trees_of(cs@)),
{
    proof {
        lemma_trees_index(cs@);
    }
    let ghost ts = trees_of(cs@);
    let mut r: Vec<Vec<char>> = Vec::new();
    let mut i: usize = 0;
    assert(ts.take(0) =~= Seq::<XmlTree>::empty());
    assert(views(r@) =~= Seq::<Seq<char>>::empty());
    while i < cs.len()
        invariant
            i <= cs.len(),
            ts == trees_of(cs@),
            ts.len() == cs@.len(),
            forall|k: int| 0 <= k < cs@.len() ==> #[trigger] ts[k] == cs@[k]@,
            views(r@) == extra_signatures(ts.take(i as int)),
        decreases cs.len() - i,
    {
        let c = &cs[i];
        assert(ts.take(i + 1).drop_last() =~= ts.take(i as int));
        assert(ts.take(i + 1).last() == c@);
        assert(c@.children == trees_of(c.children@));
        assert(c@.tag == c.tag@);
        if is_elem_exec(c, "deffnx") || is_elem_exec(c, "defvrx") {
            let tag = chars_of(c.tag.as_str());
            let mut more = terms_signatures_exec(&c.children, tag.as_slice());
            let ghost before = r@;
            let ghost m0 = more@;
            r.append(&mut more);
            assert(views(r@) =~= views(before) + views(m0));
        }
        i += 1;
    }
    assert(ts.take(cs.len() as int) =~= ts);
    r
}

fn without_exec(ss: &Vec<Vec<char>>, x: &[char]) -> (r: Vec<Vec<char>>)
    ensures
        views(r@) == without(views(ss@), x@),
{
    let ghost sv = views(ss@);
    let mut r: Vec<Vec<char>> = Vec::new();
    let mut i: usize = 0;
    assert(sv.take(0) =~= Seq::<Seq<char>>::empty());
    assert(views(r@) =~= Seq::<Seq<char>>::empty());
    while i < ss.len()
        invariant
            i <= ss.len(),
            sv == views(ss@),
            views(r@) == without(sv.take(i as int), x@),
        decreases ss.len() - i,
    {
        assert(sv.take(i + 1).drop_last() =~= sv.take(i as int));
        assert(sv.take(i + 1).last() == ss@[i as int]@);
        if !eq_chars(ss[i].as_slice(), x) {
            let ghost before = r@;
            r.push(slice_all(&ss[i]));
            assert(views(r@) =~= views(before).push(ss@[i as int]@));
        }
        i += 1;
    }
    assert(sv.take(ss.len() as int) =~= sv);
    r
}

fn strings_of(v: &Vec<Vec<char>>) -> (r: Vec<String>)
    ensures
        strs(r@) == views(v@),
{
    let mut r: Vec<String> = Vec::new();
    let mut i: usize = 0;
    while i < v.len()
        invariant
            i <= v.len(),
            strs(r@) == views(v@).take(i as int),
        decreases v.len() - i,
    {
        let s = string_of(v[i].as_slice());
        let ghost before = r@;
        r.push(s);
        assert(strs(r@) =~= strs(before).push(s@));
        assert(strs(r@) =~= views(v@).take(i + 1));
        i += 1;
    }
    assert(views(v@).take(v.len() as int) =~= views(v@));
    r
}

/// The signatures of a definition: those of its terms and then of its
/// extra terms, without the bare name when there are others, and the bare
/// name alone when there are none.
pub fn extract_signatures(n: &XmlNode, name: &[char]) -> (r: Vec<String>)
    ensures
        strs(r@) == definition_signatures(n@, name@),
{
    assert(n@.children == trees_of(n.children@));
    assert(n@.tag == n.tag@);
    let tag = chars_of(n.tag.as_str());
    let mut all = terms_signatures_exec(&n.children, tag.as_slice());
    let mut extra = extra_signatures_exec(&n.children);
    let ghost a0 = all@;
    let ghost e0 = extra@;
    all.append(&mut extra);
    assert(views(all@) =~= views(a0) + views(e0));
    let kept = if all.len() > 1 {
        without_exec(&all, name)
    } else {
        all
    };
    if kept.len() == 0 {
        let one = vec![slice_all_slice(name)];
        assert(views(one@) =~= seq![name@]);
        strings_of(&one)
    } else {
        strings_of(&kept)
    }
}

fn slice_all_slice(x: &[char]) -> (r: Vec<char>)
    ensures
        r@ == x@,
{
    let r = crate::text::slice_copy(x, 0, x.len());
    assert(x@.subrange(0, x@.len() as int) =~= x@);
    r
}

fn contains_chars_in(acc: &Vec<Vec<char>>, x: &[char]) -> (r: bool)
    ensures
        r == views(acc@).contains(x@),
{
    let mut i: usize = 0;
    while i < acc.len()
        invariant
            i <= acc.len(),
            forall|k: int| 0 <= k < i ==> #[trigger] acc@[k]@ != x@,
        decreases acc.len() - i,
    {
        if eq_chars(acc[i].as_slice(), x) {
            assert(views(acc@)[i as int] == x@);
            return true;
        }
        i += 1;
    }
    assert forall|k: int| 0 <= k < views(acc@).len() implies #[trigger] views(acc@)[k] != x@ by {
        assert(views(acc@)[k] == acc@[k]@);
    }
    false
}

fn keywords_node(n: &XmlNode, acc: &mut Vec<Vec<char>>)
    ensures
        views(final(acc)@) == keywords_in(n@, views(old(acc)@)),
    decreases n,
{
    let ghost a0 = views(acc@);
    if is_elem_exec(n, "indexterm") || is_elem_exec(n, "cindex") {
        let x = trimmed(collect_text(n).as_slice());
        if x.len() > 0 && !contains_chars_in(acc, x.as_slice()) {
            acc.push(x);
            assert(views(acc@) =~= a0.push(trim(node_text(n@))));
        }
    }
    let cs = &n.children;
    assert(n@.children == trees_of(cs@));
    proof {
        lemma_trees_index(cs@);
    }
    let ghost ts = trees_of(cs@);
    let mut i: usize = 0;
    assert(ts.skip(0) =~= ts);
    while i < cs.len()
        invariant
            i <= cs.len(),
            cs == &n.children,
            ts == trees_of(cs@),
            ts.len() == cs@.len(),
            forall|k: int| 0 <= k < cs@.len() ==> #[trigger] ts[k] == cs@[k]@,
            keywords_in(n@, a0) == keywords_all(ts.skip(i as int), views(acc@)),
        decreases cs.len() - i,
    {
        assert(ts.skip(i as int)[0] == cs@[i as int]@);
        assert(ts.skip(i as int).drop_first() =~= ts.skip(i + 1));
        assert(decreases_to!(*n => n.children));
        assert(decreases_to!(n.children => n.children@));
        assert(decreases_to!(n.children@ => n.children@[i as int]));
        keywords_node(&cs[i], acc);
        i += 1;
    }
}

/// The index entries of a definition, trimmed, non-empty, each once.
pub fn extract_keywords(n: &XmlNode) -> (r: Vec<String>)
    ensures
        strs(r@) == keywords_in(n@, Seq::empty()),
{
    let mut acc: Vec<Vec<char>> = Vec::new();
    assert(views(acc@) =~= Seq::<Seq<char>>::empty());
    keywords_node(n, &mut acc);
    strings_of(&acc)
}

fn examples_node(n: &XmlNode, acc: &mut Vec<(String, String)>)
    requires
        old(acc).len() <= 5,
    ensures
        final(acc).len() <= 5,
        pair_views(final(acc)@) == examples_in(n@, pair_views(old(acc)@)),
    decreases n,
{
    let ghost a0 = pair_views(acc@);
    if is_elem_exec(n, "example") {
        let text = collect_raw_text(n);
        let mut parsed = parse_repl_examples(string_of(text.as_slice()).as_str());
        let ghost pv = pair_views(parsed@);
        let ghost base = acc@;
        let mut j: usize = 0;
        while j < parsed.len() && acc.len() < 5
            invariant
                j <= parsed.len(),
                pv == pair_views(parsed@),
                acc.len() <= 5,
                acc.len() == base.len() + j,
                pair_views(acc@) == pair_views(base) + pv.take(j as int),
            decreases parsed.len() - j,
        {
            let e = (parsed[j].0.clone(), parsed[j].1.clone());
            let ghost before = acc@;
            acc.push(e);
            assert(pair_views(acc@) =~= pair_views(before).push(pv[j as int]));
            assert(pair_views(acc@) =~= pair_views(base) + pv.take(j + 1));
            j += 1;
        }
        assert(pair_views(acc@) =~= first_five(a0 + repl_examples(raw_text(n@))));
    }
    let cs = &n.children;
    assert(n@.children == trees_of(cs@));
    proof {
        lemma_trees_index(cs@);
    }
    let ghost ts = trees_of(cs@);
    let mut i: usize = 0;
    assert(ts.skip(0) =~= ts);
    while i < cs.len()
        invariant
            i <= cs.len(),
            acc.len() <= 5,
            cs == &n.children,
            ts == trees_of(cs@),
            ts.len() == cs@.len(),
            forall|k: int| 0 <= k < cs@.len() ==> #[trigger] ts[k] == cs@[k]@,
            examples_in(n@, a0) == examples_all(ts.skip(i as int), pair_views(acc@)),
        decreases cs.len() - i,
    {
        assert(ts.skip(i as int)[0] == cs@[i as int]@);
        assert(ts.skip(i as int).drop_first() =~= ts.skip(i + 1));
        assert(decreases_to!(*n => n.children));
        assert(decreases_to!(n.children => n.children@));
        assert(decreases_to!(n.children@ => n.children@[i as int]));
        examples_node(&cs[i], acc);
        i += 1;
    }
}

/// The REPL examples of a definition's `example` blocks, at most five.
pub fn extract_examples(n: &XmlNode) -> (r: Vec<(String, String)>)
    ensures
        pair_views(r@) == examples_in(n@, Seq::empty()),
{
    let mut acc: Vec<(String, String)> = Vec::new();
    assert(pair_views(acc@) =~= Seq::<(Seq<char>, Seq<char>)>::empty());
    examples_node(n, &mut acc);
    acc
}

fn see_also_node(n: &XmlNode, acc: &mut Vec<Vec<char>>)
    ensures
        views(final(acc)@) == see_also_in(n@, views(old(acc)@)),
    decreases n,
{
    let ghost a0 = views(acc@);
    if is_elem_exec(n, "ref") || is_elem_exec(n, "xref") || is_elem_exec(n, "pxref") {
        match attribute(&n.attrs, "label") {
            Some(l) => {
                let t = trimmed(l.as_slice());
                let d = decode_texinfo_label(string_of(t.as_slice()).as_str());
                let nm = chars_of_string(&d);
                if nm.len() > 0 && !contains_chars_in(acc, nm.as_slice()) {
                    acc.push(nm);
                    assert(views(acc@) =~= a0.push(label_decoded(t@, 0)));
                }
            },
            None => {},
        }
    }
    let cs = &n.children;
    assert(n@.children == trees_of(cs@));
    proof {
        lemma_trees_index(cs@);
    }
    let ghost ts = trees_of(cs@);
    let mut i: usize = 0;
    assert(ts.skip(0) =~= ts);
    while i < cs.len()
        invariant
            i <= cs.len(),
            cs == &n.children,
            ts == trees_of(cs@),
            ts.len() == cs@.len(),
            forall|k: int| 0 <= k < cs@.len() ==> #[trigger] ts[k] == cs@[k]@,
            see_also_in(n@, a0) == see_also_all(ts.skip(i as int), views(acc@)),
        decreases cs.len() - i,
    {
        assert(ts.skip(i as int)[0] == cs@[i as int]@);
        assert(ts.skip(i as int).drop_first() =~= ts.skip(i + 1));
        assert(decreases_to!(*n => n.children));
        assert(decreases_to!(n.children => n.children@));
        assert(decreases_to!(n.children@ => n.children@[i as int]));
        see_also_node(&cs[i], acc);
        i += 1;
    }
}

/// The decoded labels of a definition's cross references, each once.
pub fn extract_see_also(n: &XmlNode) -> (r: Vec<String>)
    ensures
        strs(r@) == see_also_in(n@, Seq::empty()),
{
    let mut acc: Vec<Vec<char>> = Vec::new();
    assert(views(acc@) =~= Seq::<Seq<char>>::empty());
    see_also_node(n, &mut acc);
    strings_of(&acc)
}

/// The symbol a `deffn` or `defvr` element defines under the given chapter
/// and section titles; `None` when it has no name.
pub fn parse_definition(n: &XmlNode, chapter: &str, section: &str) -> (r: Option<ExtractedSymbol>)
    ensures
        match r {
            Some(sym) => definition(n@, chapter@, section@) == Some(sym@),
            None => definition(n@, chapter@, section@) is None,
        },
{
    assert(n@.children == trees_of(n.children@));
    assert(n@.tag == n.tag@);
    let name = match extract_name(n) {
        Some(nm) => nm,
        None => {
            return None;
        },
    };
    let nm = chars_of_string(&name);
    let tag = chars_of(n.tag.as_str());
    let symbol_type = if tag_chars_is(tag.as_slice(), "defvr") {
        string_of(chars_of("Variable").as_slice())
    } else {
        string_of(chars_of("Function").as_slice())
    };
    let signatures = extract_signatures(n, nm.as_slice());
    let category = extract_category(chapter, section);
    let chapter_name = clean_chapter_name(chapter);
    let keywords = extract_keywords(n);
    let (body_md, examples, see_also) = match first_named_exec(&n.children, "definitionitem") {
        Some(k) => {
            let item = &n.children[k];
            (definition_body_to_markdown(item), extract_examples(item), extract_see_also(item))
        },
        None => (String::new(), Vec::new(), Vec::new()),
    };
    let sym = ExtractedSymbol {
        name,
        symbol_type,
        signatures,
        body_md,
        examples,
        see_also,
        category,
        chapter: chapter_name,
        keywords,
    };
    proof {
        assert(pair_views(Seq::<(String, String)>::empty()) =~= Seq::<(Seq<char>, Seq<char>)>::empty());
        assert(strs(Seq::<String>::empty()) =~= Seq::<Seq<char>>::empty());
    }
    Some(sym)
}

fn first_named_exec(cs: &Vec<XmlNode>, name: &str) -> (r: Option<usize>)
    ensures
        match r {
            Some(k) => k < cs.len() && first_named(trees_of(cs@), name@) == Some(cs@[k as int]@),
            None => first_named(trees_of(cs@), name@) is None,
        },
{
    proof {
        lemma_trees_index(cs@);
    }
    let ghost ts = trees_of(cs@);
    let mut i: usize = 0;
    assert(ts.skip(0) =~= ts);
    while i < cs.len()
        invariant
            i <= cs.len(),
            ts == trees_of(cs@),
            ts.len() == cs@.len(),
            forall|k: int| 0 <= k < cs@.len() ==> #[trigger] ts[k] == cs@[k]@,
            first_named(ts, name@) == first_named(ts.skip(i as int), name@),
        decreases cs.len() - i,
    {
        assert(ts.skip(i as int)[0] == cs@[i as int]@);
        if is_elem_exec(&cs[i], name) {
            return Some(i);
        }
        assert(ts.skip(i as int).drop_first() =~= ts.skip(i + 1));
        i += 1;
    }
    None
}

// ---------------------------------------------------------------------------
// Collecting and sorting
// ---------------------------------------------------------------------------

pub open spec fn symbol_views(v: Seq<ExtractedSymbol>) -> Seq<ExtractedV> {
    Seq::new(v.len(), |i: int| v[i]@)
}

fn has_symbol_exec(syms: &Vec<ExtractedSymbol>, name: &String) -> (r: bool)
    ensures
        r == has_symbol(symbol_views(syms@), name@),
{
    let nm = chars_of_string(name);
    let mut i: usize = 0;
    while i < syms.len()
        invariant
            i <= syms.len(),
            nm@ == name@,
            forall|k: int| 0 <= k < i ==> #[trigger] syms@[k].name@ != name@,
        decreases syms.len() - i,
    {
        if eq_chars(chars_of_string(&syms[i].name).as_slice(), nm.as_slice()) {
            assert(symbol_views(syms@)[i as int].name == name@);
            return true;
        }
        i += 1;
    }
    assert forall|k: int| 0 <= k < symbol_views(syms@).len() implies #[trigger] symbol_views(
        syms@,
    )[k].name != name@ by {
        assert(symbol_views(syms@)[k] == syms@[k]@);
    }
    false
}

/// The title of the first `sectiontitle` child, if there is one.
fn title_exec(cs: &Vec<XmlNode>) -> (r: Option<String>)
    ensures
        match r {
            Some(t) => title_of(trees_of(cs@)) == Some(t@),
            None => title_of(trees_of(cs@)) is None,
        },
{
    match first_named_exec(cs, "sectiontitle") {
        Some(k) => Some(string_of(collect_text(&cs[k]).as_slice())),
        None => None,
    }
}

/// Adds the symbols defined under `node` to `symbols`, leaving out those
/// whose names are taken. Chapters (`chapter`, `unnumbered`, `appendix`)
/// and sections with a `sectiontitle` set the titles their definitions are
/// filed under.
pub fn collect_definitions(
    node: &XmlNode,
    symbols: &mut Vec<ExtractedSymbol>,
    chapter: &str,
    section: &str,
)
    ensures
        symbol_views(final(symbols)@) == collect_in(
            node@.children,
            chapter@,
            section@,
            symbol_views(old(symbols)@),
        ).0,
    decreases node,
{
    let ghost s0 = symbol_views(symbols@);
    let cs = &node.children;
    assert(node@.children == trees_of(cs@));
    proof {
        lemma_trees_index(cs@);
    }
    let ghost ts = trees_of(cs@);
    let mut ch = string_of(chars_of(chapter).as_slice());
    let mut sec = string_of(chars_of(section).as_slice());
    let mut i: usize = 0;
    assert(ts.take(0) =~= Seq::<XmlTree>::empty());
    while i < cs.len()
        invariant
            i <= cs.len(),
            cs == &node.children,
            ts == trees_of(cs@),
            ts.len() == cs@.len(),
            forall|k: int| 0 <= k < cs@.len() ==> #[trigger] ts[k] == cs@[k]@,
            collect_in(ts.take(i as int), chapter@, section@, s0) == (
                symbol_views(symbols@),
                ch@,
                sec@,
            ),
        decreases cs.len() - i,
    {
        let c = &cs[i];
        assert(ts.take(i + 1).drop_last() =~= ts.take(i as int));
        assert(ts.take(i + 1).last() == c@);
        assert(c@.children == trees_of(c.children@));
        assert(c@.tag == c.tag@);
        assert(decreases_to!(*node => node.children));
        assert(decreases_to!(node.children => node.children@));
        assert(decreases_to!(node.children@ => node.children@[i as int]));
        if c.kind == XmlKind::Element {
            let tag = chars_of(c.tag.as_str());
            let t = tag.as_slice();
            if tag_chars_is(t, "chapter") || tag_chars_is(t, "unnumbered") || tag_chars_is(
                t,
                "appendix",
            ) {
                match title_exec(&c.children) {
                    Some(title) => {
                        ch = title;
                        sec = String::new();
                    },
                    None => {},
                }
                let none = String::new();
                collect_definitions(c, symbols, ch.as_str(), none.as_str());
            } else if tag_chars_is(t, "section") {
                match title_exec(&c.children) {
                    Some(title) => {
                        sec = title;
                    },
                    None => {},
                }
                collect_definitions(c, symbols, ch.as_str(), sec.as_str());
            } else if tag_chars_is(t, "deffn") || tag_chars_is(t, "defvr") {
                match parse_definition(c, ch.as_str(), sec.as_str()) {
                    Some(sym) => {
                        if !has_symbol_exec(symbols, &sym.name) {
                            let ghost before = symbols@;
                            symbols.push(sym);
                            assert(symbol_views(symbols@) =~= symbol_views(before).push(sym@));
                        }
                    },
                    None => {},
                }
            } else {
                collect_definitions(c, symbols, ch.as_str(), sec.as_str());
            }
        }
        i += 1;
    }
    assert(ts.take(cs.len() as int) =~= ts);
}

/// Where a symbol goes: before the first entry, from `i` on, whose key
/// sorts after its own.
pub open spec fn symbol_pos(acc: Seq<ExtractedV>, e: ExtractedV, i: int) -> int
    decreases acc.len() - i,
{
    if i < 0 || i >= acc.len() {
        acc.len() as int
    } else if seq_lt(lowercase(e.name), lowercase(acc[i].name)) {
        i
    } else {
        symbol_pos(acc, e, i + 1)
    }
}

proof fn lemma_insert_symbol(acc: Seq<ExtractedV>, e: ExtractedV, p: int)
    requires
        0 <= p <= acc.len(),
        forall|k: int| 0 <= k < p ==> !seq_lt(lowercase(e.name), lowercase(#[trigger] acc[k].name)),
        p == acc.len() || seq_lt(lowercase(e.name), lowercase(acc[p].name)),
    ensures
        insert_symbol(acc, e) == acc.take(p) + seq![e] + acc.skip(p),
    decreases acc.len(),
{
    if acc.len() == 0 {
        assert(acc.take(p) + seq![e] + acc.skip(p) =~= seq![e]);
    } else if p == 0 {
        assert(acc.take(p) + seq![e] + acc.skip(p) =~= seq![e] + acc);
    } else {
        let t = acc.skip(1);
        assert forall|k: int| 0 <= k < p - 1 implies !seq_lt(
            lowercase(e.name),
            lowercase(#[trigger] t[k].name),
        ) by {
            assert(t[k] == acc[k + 1]);
        }
        if p - 1 < t.len() {
            assert(t[p - 1] == acc[p]);
        }
        lemma_insert_symbol(t, e, p - 1);
        assert(acc.take(p) + seq![e] + acc.skip(p) =~= seq![acc[0]] + (t.take(p - 1) + seq![e]
            + t.skip(p - 1)));
    }
}

/// The symbols sorted by lowercased name, stably.
pub fn sort_symbols(v: Vec<ExtractedSymbol>) -> (r: Vec<ExtractedSymbol>)
    ensures
        symbol_views(r@) == sorted_symbols(symbol_views(v@)),
{
    let ghost sv = symbol_views(v@);
    let mut rest = v;
    let mut out: Vec<ExtractedSymbol> = Vec::new();
    let mut keys: Vec<Vec<char>> = Vec::new();
    let mut k: usize = 0;
    let n = rest.len();
    assert(sv.take(0) =~= Seq::<ExtractedV>::empty());
    assert(symbol_views(out@) =~= Seq::<ExtractedV>::empty());
    assert(symbol_views(rest@) =~= sv.skip(0));
    while rest.len() > 0
        invariant
            k <= n,
            sv.len() == n,
            rest.len() == n - k,
            symbol_views(rest@) == sv.skip(k as int),
            symbol_views(out@) == sorted_symbols(sv.take(k as int)),
            keys.len() == out.len(),
            forall|q: int| 0 <= q < out.len() ==> #[trigger] keys@[q]@ == lowercase(out@[q].name@),
        decreases rest.len(),
    {
        assert(symbol_views(rest@)[0] == sv[k as int]);
        let ghost r0 = rest@;
        let e = rest.remove(0);
        assert(rest@ =~= r0.skip(1));
        assert(symbol_views(rest@) =~= symbol_views(r0).skip(1));
        assert(symbol_views(rest@) =~= sv.skip(k + 1));
        let key = chars_of_string(&to_lowercase(e.name.as_str()));
        let ghost acc = symbol_views(out@);
        let mut p: usize = 0;
        while p < out.len() && !lt_chars(key.as_slice(), keys[p].as_slice())
            invariant
                p <= out.len(),
                keys.len() == out.len(),
                acc == symbol_views(out@),
                key@ == lowercase(e.name@),
                forall|q: int| 0 <= q < out.len() ==> #[trigger] keys@[q]@ == lowercase(out@[q].name@),
                forall|q: int| 0 <= q < p ==> !seq_lt(lowercase(e@.name), lowercase(#[trigger] acc[q].name)),
            decreases out.len() - p,
        {
            assert(acc[p as int] == out@[p as int]@);
            p += 1;
        }
        if p < out.len() {
            assert(acc[p as int] == out@[p as int]@);
        }
        proof {
            lemma_insert_symbol(acc, e@, p as int);
            assert(sv.take(k + 1).drop_last() =~= sv.take(k as int));
            assert(sv.take(k + 1).last() == e@);
        }
        let ghost kv = keys@;
        let ghost ov = out@;
        out.insert(p, e);
        keys.insert(p, key);
        assert(symbol_views(out@) =~= acc.take(p as int) + seq![e@] + acc.skip(p as int));
        assert forall|q: int| 0 <= q < out.len() implies #[trigger] keys@[q]@ == lowercase(
            out@[q].name@,
        ) by {
            if q < p {
                assert(keys@[q] == kv[q] && out@[q] == ov[q]);
            } else if q > p {
                assert(keys@[q] == kv[q - 1] && out@[q] == ov[q - 1]);
            }
        }
        k += 1;
    }
    assert(sv.take(n as int) =~= sv);
    out
}

/// The first element among `cs`.
fn first_element_exec(cs: &Vec<XmlNode>) -> (r: Option<usize>)
    ensures
        match r {
            Some(k) => k < cs.len() && first_element(trees_of(cs@)) == Some(cs@[k as int]@),
            None => first_element(trees_of(cs@)) is None,
        },
{
    proof {
        lemma_trees_index(cs@);
    }
    let ghost ts = trees_of(cs@);
    let mut i: usize = 0;
    assert(ts.skip(0) =~= ts);
    while i < cs.len()
        invariant
            i <= cs.len(),
            ts == trees_of(cs@),
            ts.len() == cs@.len(),
            forall|k: int| 0 <= k < cs@.len() ==> #[trigger] ts[k] == cs@[k]@,
            first_element(ts) == first_element(ts.skip(i as int)),
        decreases cs.len() - i,
    {
        assert(ts.skip(i as int)[0] == cs@[i as int]@);
        if cs[i].kind == XmlKind::Element {
            return Some(i);
        }
        assert(ts.skip(i as int).drop_first() =~= ts.skip(i + 1));
        i += 1;
    }
    None
}

/// The symbols of a document read as nodes in document order: none
/// without nodes.
pub open spec fn symbols_of_items(items: Seq<super::tree::ItemV>) -> Seq<ExtractedV> {
    if items.len() == 0 {
        Seq::empty()
    } else {
        document_symbols(document_tree(items))
    }
}

/// The symbols defined in a document given as its nodes in document order:
/// those under the root element, each name once, sorted by lowercased name.
pub fn symbols_from_items(items: &Vec<XmlItem>) -> (r: Vec<ExtractedSymbol>)
    ensures
        symbol_views(r@) == symbols_of_items(item_views(items@)),
{
    match tree_of_items(items) {
        None => {
            assert(symbol_views(Seq::<ExtractedSymbol>::empty()) =~= Seq::<ExtractedV>::empty());
            Vec::new()
        },
        Some(doc) => {
            assert(doc@.children == trees_of(doc.children@));
            match first_element_exec(&doc.children) {
                None => {
                    assert(symbol_views(Seq::<ExtractedSymbol>::empty()) =~= Seq::<
                        ExtractedV,
                    >::empty());
                    Vec::new()
                },
                Some(k) => {
                    let root = &doc.children[k];
                    let mut syms: Vec<ExtractedSymbol> = Vec::new();
                    let none = String::new();
                    assert(symbol_views(syms@) =~= Seq::<ExtractedV>::empty());
                    collect_definitions(root, &mut syms, none.as_str(), none.as_str());
                    sort_symbols(syms)
                },
            }
        },
    }
}

/// Why the XML of a manual could not be read.
pub enum CoreDocsError {
    MakeinfoFailed { message: String },
}

/// The text after the Texinfo entities are replaced.
pub open spec fn entity_free(xml: Seq<char>) -> Seq<char> {
    super::markdown::entities_replaced(
        xml,
        super::markdown::texinfo_entities(),
        super::markdown::texinfo_entities().len() as int,
    )
}

/// Reads the symbol definitions of makeinfo's XML: the Texinfo entities are
/// replaced, the document parsed, and its symbols returned as
/// `symbols_from_items` gives them; a document that does not parse is a
/// `MakeinfoFailed` error whose message starts with `XML parse error: `.
pub fn parse_xml(xml: &str) -> (r: Result<Vec<ExtractedSymbol>, CoreDocsError>)
    ensures
        match r {
            Ok(v) => xml_items_of(entity_free(xml@)) matches Some(iv) && symbol_views(v@)
                == symbols_of_items(iv),
            Err(CoreDocsError::MakeinfoFailed { message }) => xml_items_of(entity_free(xml@))
                is None && crate::text::has_prefix(message@, "XML parse error: "@),
        },
{
    let text = replace_texinfo_entities(xml);
    match parse_items(text.as_str()) {
        Ok(items) => Ok(symbols_from_items(&items)),
        Err(e) => {
            let mut m: Vec<char> = chars_of("XML parse error: ");
            let ghost prefix = m@;
            let d = xml_error_text(&e);
            push_all(&mut m, chars_of_string(&d).as_slice());
            assert(m@.subrange(0, prefix.len() as int) =~= prefix);
            Err(CoreDocsError::MakeinfoFailed { message: string_of(m.as_slice()) })
        },
    }
}

// ---------------------------------------------------------------------------
// Laws
// ---------------------------------------------------------------------------

/// The lowercased names of symbols, in order.
pub open spec fn sort_keys(v: Seq<ExtractedV>) -> Seq<Seq<char>> {
    Seq::new(v.len(), |i: int| lowercase(v[i].name))
}

/// No two symbols share a name.
pub open spec fn names_distinct(v: Seq<ExtractedV>) -> bool {
    forall|i: int, j: int| 0 <= i < j < v.len() ==> #[trigger] v[i].name != #[trigger] v[j].name
}

proof fn lemma_symbol_pos(acc: Seq<ExtractedV>, e: ExtractedV, i: int)
    requires
        0 <= i <= acc.len(),
    ensures
        i <= symbol_pos(acc, e, i) <= acc.len(),
        forall|k: int|
            i <= k < symbol_pos(acc, e, i) ==> !seq_lt(
                lowercase(e.name),
                lowercase(#[trigger] acc[k].name),
            ),
        symbol_pos(acc, e, i) < acc.len() ==> seq_lt(
            lowercase(e.name),
            lowercase(acc[symbol_pos(acc, e, i)].name),
        ),
    decreases acc.len() - i,
{
    if i < acc.len() && !seq_lt(lowercase(e.name), lowercase(acc[i].name)) {
        lemma_symbol_pos(acc, e, i + 1);
    }
}

/// Sorting symbols orders them by lowercased name and keeps every one of
/// them, each as often as it came.
pub proof fn lemma_sorted_symbols(v: Seq<ExtractedV>)
    ensures
        crate::text::keys_sorted(sort_keys(sorted_symbols(v))),
        sorted_symbols(v).to_multiset() == v.to_multiset(),
    decreases v.len(),
{
    if v.len() == 0 {
        assert(sort_keys(sorted_symbols(v)) =~= Seq::<Seq<char>>::empty());
        assert(sorted_symbols(v) =~= v);
    } else {
        lemma_sorted_symbols(v.drop_last());
        let acc = sorted_symbols(v.drop_last());
        let e = v.last();
        lemma_symbol_pos(acc, e, 0);
        let p = symbol_pos(acc, e, 0);
        lemma_insert_symbol(acc, e, p);
        let ks = sort_keys(acc);
        assert forall|q: int| 0 <= q < p implies !seq_lt(lowercase(e.name), #[trigger] ks[q]) by {
            assert(ks[q] == lowercase(acc[q].name));
        }
        crate::text::lemma_insert_keeps_sorted(ks, lowercase(e.name), p);
        let r = acc.take(p) + seq![e] + acc.skip(p);
        assert(sort_keys(r) =~= ks.take(p) + seq![lowercase(e.name)] + ks.skip(p));
        vstd::seq_lib::lemma_multiset_commutative(acc.take(p) + seq![e], acc.skip(p));
        vstd::seq_lib::lemma_multiset_commutative(acc.take(p), seq![e]);
        vstd::seq_lib::lemma_multiset_commutative(acc.take(p), acc.skip(p));
        assert(acc.take(p) + acc.skip(p) =~= acc);
        vstd::seq_lib::lemma_multiset_commutative(v.drop_last(), seq![e]);
        assert(v.drop_last() + seq![e] =~= v);
        assert(r.to_multiset() =~= v.to_multiset());
    }
}

/// Collecting definitions never adds a name that is already taken: names
/// that were distinct stay distinct.
pub proof fn lemma_collect_distinct(
    cs: Seq<XmlTree>,
    chapter: Seq<char>,
    section: Seq<char>,
    acc: Seq<ExtractedV>,
)
    requires
        names_distinct(acc),
    ensures
        names_distinct(collect_in(cs, chapter, section, acc).0),
    decreases cs,
{
    if cs.len() > 0 {
        lemma_collect_distinct(cs.drop_last(), chapter, section, acc);
        let (syms, ch, sec) = collect_in(cs.drop_last(), chapter, section, acc);
        let c = cs.last();
        if c.kind == XmlKind::Element {
            if c.tag == "chapter"@ || c.tag == "unnumbered"@ || c.tag == "appendix"@ {
                let (ch2, sec2) = match title_of(c.children) {
                    Some(t) => (t, Seq::<char>::empty()),
                    None => (ch, sec),
                };
                lemma_collect_distinct(c.children, ch2, Seq::empty(), syms);
            } else if c.tag == "section"@ {
                let sec2 = match title_of(c.children) {
                    Some(t) => t,
                    None => sec,
                };
                lemma_collect_distinct(c.children, ch, sec2, syms);
            } else if c.tag == "deffn"@ || c.tag == "defvr"@ {
                match definition(c, ch, sec) {
                    Some(sym) => {
                        if !has_symbol(syms, sym.name) {
                            let r = syms.push(sym);
                            assert forall|i: int, j: int| 0 <= i < j < r.len() implies #[trigger] r[i].name
                                != #[trigger] r[j].name by {
                                if j == syms.len() {
                                    assert(r[i] == syms[i]);
                                } else {
                                    assert(r[i] == syms[i] && r[j] == syms[j]);
                                }
                            }
                        }
                    },
                    None => {},
                }
            } else {
                lemma_collect_distinct(c.children, ch, sec, syms);
            }
        }
    }
}

/// The symbols read from a document come in order of lowercased name, and
/// no two of them share a name.
pub proof fn lemma_document_symbols(doc: XmlTree)
    ensures
        crate::text::keys_sorted(sort_keys(document_symbols(doc))),
        names_distinct(document_symbols(doc)),
{
    match first_element(doc.children) {
        Some(root) => {
            let empty = Seq::<ExtractedV>::empty();
            lemma_collect_distinct(root.children, Seq::empty(), Seq::empty(), empty);
            let c = collect_in(root.children, Seq::empty(), Seq::empty(), empty).0;
            lemma_sorted_symbols(c);
            let r = sorted_symbols(c);
            assert forall|i: int, j: int| 0 <= i < j < r.len() implies #[trigger] r[i].name
                != #[trigger] r[j].name by {
                lemma_two_names(c, r, i, j);
            }
        },
        None => {
            assert(sort_keys(Seq::<ExtractedV>::empty()) =~= Seq::<Seq<char>>::empty());
        },
    }
}

/// Symbols with distinct names, reordered, still have distinct names.
proof fn lemma_two_names(c: Seq<ExtractedV>, r: Seq<ExtractedV>, i: int, j: int)
    requires
        names_distinct(c),
        r.to_multiset() == c.to_multiset(),
        0 <= i < j < r.len(),
    ensures
        r[i].name != r[j].name,
{
    if r[i].name != r[j].name {
        return;
    }
    broadcast use vstd::seq_lib::group_to_multiset_ensures;
    let a = r[i];
    let b = r[j];
    assert(r.contains(a));
    assert(r.contains(b));
    assert(r.to_multiset().count(a) > 0);
    assert(r.to_multiset().count(b) > 0);
    assert(c.contains(a));
    assert(c.contains(b));
    let ia = choose|k: int| 0 <= k < c.len() && c[k] == a;
    let ib = choose|k: int| 0 <= k < c.len() && c[k] == b;
    if ia != ib {
        if ia < ib {
            assert(c[ia].name != c[ib].name);
        } else {
            assert(c[ib].name != c[ia].name);
        }
    } else {
        // The same symbol twice in `r` would be there twice in `c`.
        assert(a == b);
        lemma_count_two(r, i, j);
        assert(c.to_multiset().count(a) >= 2);
        lemma_count_distinct(c, a);
    }
}

proof fn lemma_count_two<A>(s: Seq<A>, i: int, j: int)
    requires
        0 <= i < j < s.len(),
        s[i] == s[j],
    ensures
        s.to_multiset().count(s[i]) >= 2,
{
    broadcast use vstd::seq_lib::group_to_multiset_ensures;
    let x = s[i];
    let a = s.take(j);
    let b = s.skip(j);
    assert(a + b =~= s);
    vstd::seq_lib::lemma_multiset_commutative(a, b);
    assert(a.contains(x)) by {
        assert(a[i] == x);
    }
    assert(b.contains(x)) by {
        assert(b[0] == x);
    }
    assert(a.to_multiset().count(x) > 0);
    assert(b.to_multiset().count(x) > 0);
}

proof fn lemma_count_distinct(c: Seq<ExtractedV>, a: ExtractedV)
    requires
        names_distinct(c),
    ensures
        c.to_multiset().count(a) <= 1,
    decreases c.len(),
{
    broadcast use vstd::seq_lib::group_to_multiset_ensures;
    if c.len() > 0 {
        let d = c.drop_last();
        assert forall|i: int, j: int| 0 <= i < j < d.len() implies #[trigger] d[i].name
            != #[trigger] d[j].name by {
            assert(d[i] == c[i] && d[j] == c[j]);
        }
        lemma_count_distinct(d, a);
        vstd::seq_lib::lemma_multiset_commutative(d, seq![c.last()]);
        assert(d + seq![c.last()] =~= c);
        if c.last() == a && d.contains(a) {
            let k = choose|k: int| 0 <= k < d.len() && d[k] == a;
            assert(c[k].name != c[c.len() - 1].name);
        }
        if c.last() == a {
            assert(!d.contains(a));
            assert(d.to_multiset().count(a) == 0);
        }
    }
}

} // verus!
