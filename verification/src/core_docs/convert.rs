//! Markdown of the body of a Texinfo XML definition.
use vstd::prelude::*;
use crate::info_index::{decimal, push_decimal};
use super::markdown::{convert_raw_texinfo, raw_markdown, replace_chars, replaced};
use super::tree::{trees_of, tree_of, XmlKind, XmlNode, XmlTree};
use super::xml::pair_views;
use crate::text::{
    slice_copy, chars_of, chars_of_string, ends_with, eq_chars, has_suffix, is_whitespace, is_ws, join, join_chars, lines,
    push_all, push_char, push_str, split_lines, string_of, to_uppercase, trim, trimmed, uppercase,
    views,
};

verus! {

// ---------------------------------------------------------------------------
// Text of a node
// ---------------------------------------------------------------------------

/// The text of a text node; nothing for any other node.
pub open spec fn own_text(t: XmlTree) -> Seq<char> {
    if t.kind == XmlKind::Text {
        match t.text {
            Some(s) => s,
            None => Seq::empty(),
        }
    } else {
        Seq::empty()
    }
}

/// The text of a node and all its descendants, in document order.
pub open spec fn raw_text(t: XmlTree) -> Seq<char>
    decreases t,
{
    own_text(t) + raw_texts(t.children)
}

pub open spec fn raw_texts(cs: Seq<XmlTree>) -> Seq<char>
    decreases cs,
{
    if cs.len() == 0 {
        Seq::empty()
    } else {
        raw_texts(cs.drop_last()) + raw_text(cs.last())
    }
}

/// The words of `s` (its runs of non-whitespace) joined by single spaces.
pub open spec fn squeezed(s: Seq<char>) -> Seq<char>
    decreases s.len(),
{
    if s.len() == 0 {
        Seq::empty()
    } else {
        let p = s.drop_last();
        let c = s.last();
        if is_ws(c) {
            squeezed(p)
        } else if p.len() > 0 && is_ws(p.last()) && squeezed(p).len() > 0 {
            squeezed(p) + seq![' ', c]
        } else {
            squeezed(p).push(c)
        }
    }
}

/// The text of a node with its whitespace normalised.
pub open spec fn node_text(t: XmlTree) -> Seq<char> {
    squeezed(raw_text(t))
}

/// The value of the first attribute named `name`.
pub open spec fn attr(attrs: Seq<(Seq<char>, Seq<char>)>, name: Seq<char>) -> Option<Seq<char>>
    decreases attrs.len(),
{
    if attrs.len() == 0 {
        None
    } else if attrs[0].0 == name {
        Some(attrs[0].1)
    } else {
        attr(attrs.drop_first(), name)
    }
}

/// `t` is an element named `name`.
pub open spec fn is_elem(t: XmlTree, name: Seq<char>) -> bool {
    t.kind == XmlKind::Element && t.tag == name
}

/// The first child of `cs` that is an element named `name`.
pub open spec fn first_named(cs: Seq<XmlTree>, name: Seq<char>) -> Option<XmlTree>
    decreases cs.len(),
{
    if cs.len() == 0 {
        None
    } else if is_elem(cs[0], name) {
        Some(cs[0])
    } else {
        first_named(cs.drop_first(), name)
    }
}

// ---------------------------------------------------------------------------
// Markdown
// ---------------------------------------------------------------------------

pub open spec fn ends_nl(out: Seq<char>) -> bool {
    out.len() > 0 && out.last() == '\n'
}

/// `out` ending in a newline (one is added unless it ends in one).
pub open spec fn with_nl(out: Seq<char>) -> Seq<char> {
    if ends_nl(out) {
        out
    } else {
        out.push('\n')
    }
}

/// The nesting level of a list inside one at `d` (it stays at the largest
/// `usize`).
pub open spec fn deeper(d: nat) -> nat {
    if d < usize::MAX {
        d + 1
    } else {
        d
    }
}

/// Two spaces per level of list nesting.
pub open spec fn indent(depth: nat) -> Seq<char>
    decreases depth,
{
    if depth == 0 {
        Seq::empty()
    } else {
        indent((depth - 1) as nat) + "  "@
    }
}

pub open spec fn backquoted(s: Seq<char>) -> Seq<char> {
    seq!['`'] + s + seq!['`']
}

/// The markdown of a node's children appended to `out`: text as it is,
/// elements by `md_element`, other nodes not at all.
pub open spec fn md_children(cs: Seq<XmlTree>, out: Seq<char>, depth: nat) -> Seq<char>
    decreases cs,
{
    if cs.len() == 0 {
        out
    } else {
        let o = md_children(cs.drop_last(), out, depth);
        let c = cs.last();
        if c.kind == XmlKind::Text {
            o + own_text(c)
        } else if c.kind == XmlKind::Element {
            md_element(c, o, depth)
        } else {
            o
        }
    }
}

/// The items of an `itemize` list: `- ` and the item's markdown, trimmed,
/// with paragraph breaks made line breaks.
pub open spec fn md_itemize(cs: Seq<XmlTree>, out: Seq<char>, depth: nat) -> Seq<char>
    decreases cs,
{
    if cs.len() == 0 {
        out
    } else {
        let o = md_itemize(cs.drop_last(), out, depth);
        let it = cs.last();
        if is_elem(it, "listitem"@) {
            let body = trim(md_children(it.children, Seq::empty(), deeper(depth)));
            o + indent(depth) + "- "@ + replaced(body, "\n\n"@, "\n"@) + "\n"@
        } else {
            o
        }
    }
}

/// The items of an `enumerate` list, numbered from 1, with how many there
/// were.
pub open spec fn md_enumerate(cs: Seq<XmlTree>, out: Seq<char>, depth: nat) -> (Seq<char>, nat)
    decreases cs,
{
    if cs.len() == 0 {
        (out, 0)
    } else {
        let (o, n) = md_enumerate(cs.drop_last(), out, depth);
        let it = cs.last();
        if is_elem(it, "listitem"@) {
            let body = trim(md_children(it.children, Seq::empty(), deeper(depth)));
            (o + indent(depth) + decimal(n + 1) + ". "@ + body + "\n"@, n + 1)
        } else {
            (o, n)
        }
    }
}

/// The term (the last `tableterm`, trimmed) and the description (all
/// `tableitem`s) of a table entry.
pub open spec fn entry_parts(ps: Seq<XmlTree>, depth: nat) -> (Seq<char>, Seq<char>)
    decreases ps,
{
    if ps.len() == 0 {
        (Seq::empty(), Seq::empty())
    } else {
        let (term, desc) = entry_parts(ps.drop_last(), depth);
        let p = ps.last();
        if is_elem(p, "tableterm"@) {
            (trim(md_children(p.children, Seq::empty(), depth)), desc)
        } else if is_elem(p, "tableitem"@) {
            (term, md_children(p.children, desc, depth))
        } else {
            (term, desc)
        }
    }
}

/// A line of a definition list: the term in bold, then ` — ` and the
/// description on one line, if there is one.
pub open spec fn entry_line(term: Seq<char>, desc: Seq<char>) -> Seq<char> {
    let d = trim(desc);
    let head = "**"@ + term + "**"@;
    if d.len() > 0 {
        head + " — "@ + replaced(d, "\n\n"@, " "@) + "\n"@
    } else {
        head + "\n"@
    }
}

/// The entries of a `table`, one line each.
pub open spec fn md_table(cs: Seq<XmlTree>, out: Seq<char>, depth: nat) -> Seq<char>
    decreases cs,
{
    if cs.len() == 0 {
        out
    } else {
        let o = md_table(cs.drop_last(), out, depth);
        let e = cs.last();
        if is_elem(e, "tableentry"@) {
            let (term, desc) = entry_parts(e.children, depth);
            o + entry_line(term, desc)
        } else {
            o
        }
    }
}

/// The cells of a table row: each `entry`'s markdown, trimmed, on one line.
pub open spec fn table_row(es: Seq<XmlTree>) -> Seq<Seq<char>>
    decreases es,
{
    if es.len() == 0 {
        Seq::empty()
    } else {
        let r = table_row(es.drop_last());
        let e = es.last();
        if is_elem(e, "entry"@) {
            r.push(replaced(trim(md_children(e.children, Seq::empty(), 0)), seq!['\n'], seq![' ']))
        } else {
            r
        }
    }
}

/// The rows among `rs`.
pub open spec fn row_list(rs: Seq<XmlTree>) -> Seq<Seq<Seq<char>>>
    decreases rs,
{
    if rs.len() == 0 {
        Seq::empty()
    } else {
        let r = row_list(rs.drop_last());
        let x = rs.last();
        if is_elem(x, "row"@) {
            r.push(table_row(x.children))
        } else {
            r
        }
    }
}

/// The rows of a `multitable` (those of its `thead`, its `tbody` and its own
/// `row`s, in order) and whether it has a `thead`.
pub open spec fn table_rows(cs: Seq<XmlTree>) -> (Seq<Seq<Seq<char>>>, bool)
    decreases cs,
{
    if cs.len() == 0 {
        (Seq::empty(), false)
    } else {
        let (r, h) = table_rows(cs.drop_last());
        let c = cs.last();
        if is_elem(c, "thead"@) {
            (r + row_list(c.children), true)
        } else if is_elem(c, "tbody"@) {
            (r + row_list(c.children), h)
        } else if is_elem(c, "row"@) {
            (r.push(table_row(c.children)), h)
        } else {
            (r, h)
        }
    }
}

/// The markdown of an element appended to `out`.
pub open spec fn md_element(n: XmlTree, out: Seq<char>, depth: nat) -> Seq<char>
    decreases n,
{
    let tag = n.tag;
    if tag == "para"@ {
        let o1 = if out.len() > 0 && !ends_nl(out) { out.push('\n') } else { out };
        let o2 = if o1.len() > 0 && !has_suffix(o1, "\n\n"@) { o1.push('\n') } else { o1 };
        md_children(n.children, o2, depth).push('\n')
    } else if tag == "example"@ || tag == "smallexample"@ {
        with_nl(out) + "\n```maxima\n"@ + trim(raw_text(n)) + "\n```\n"@
    } else if tag == "code"@ || tag == "kbd"@ || tag == "samp"@ || tag == "command"@ || tag
        == "env"@ || tag == "file"@ || tag == "option"@ {
        out + backquoted(trim(node_text(n)))
    } else if tag == "var"@ || tag == "emph"@ || tag == "i"@ || tag == "dfn"@ {
        md_children(n.children, out.push('*'), depth).push('*')
    } else if tag == "b"@ || tag == "strong"@ {
        md_children(n.children, out + "**"@, depth) + "**"@
    } else if tag == "math"@ {
        out + seq!['$'] + trim(node_text(n)) + seq!['$']
    } else if tag == "sc"@ {
        out + uppercase(node_text(n))
    } else if tag == "ref"@ || tag == "xref"@ || tag == "pxref"@ {
        match attr(n.attrs, "label"@) {
            Some(label) => out + backquoted(label),
            None => out + backquoted(trim(node_text(n))),
        }
    } else if tag == "uref"@ || tag == "url"@ {
        let url = match attr(n.attrs, "url"@) {
            Some(u) => u,
            None => Seq::empty(),
        };
        let desc = trim(node_text(n));
        if desc.len() == 0 || desc == url {
            out + url
        } else {
            out + seq!['['] + desc + "]("@ + url + seq![')']
        }
    } else if tag == "itemize"@ {
        md_itemize(n.children, with_nl(out).push('\n'), depth)
    } else if tag == "enumerate"@ {
        md_enumerate(n.children, with_nl(out).push('\n'), depth).0
    } else if tag == "multitable"@ {
        let (rows, header) = table_rows(n.children);
        out + multitable_md(out, rows, header)
    } else if tag == "table"@ {
        md_table(n.children, with_nl(out).push('\n'), depth)
    } else if tag == "quotation"@ {
        with_nl(out) + quoted(lines(trim(md_children(n.children, Seq::empty(), depth))))
    } else if tag == "html"@ {
        out + raw_markdown(trim(node_text(n)))
    } else if tag == "pre"@ {
        out + trim(raw_text(n))
    } else if tag == "group"@ {
        md_children(n.children, out, depth)
    } else if tag == "image"@ {
        let file = match first_named(n.children, "imagefile"@) {
            Some(f) => node_text(f),
            None => Seq::empty(),
        };
        if file.len() > 0 {
            out + "!["@ + file + "]("@ + file + ".png)"@
        } else {
            out
        }
    } else if tag == "anchor"@ || tag == "indexterm"@ || tag == "cindex"@ || tag == "findex"@
        || tag == "vindex"@ || tag == "tindex"@ || tag == "pindex"@ || tag == "kindex"@ {
        out
    } else {
        md_children(n.children, out, depth)
    }
}

/// Lines, each quoted with `> `.
pub open spec fn quoted(ls: Seq<Seq<char>>) -> Seq<char>
    decreases ls.len(),
{
    if ls.len() == 0 {
        Seq::empty()
    } else {
        quoted(ls.drop_last()) + "> "@ + ls.last() + seq!['\n']
    }
}

// ---------------------------------------------------------------------------
// Multitables
// ---------------------------------------------------------------------------

/// The length of the longest row.
pub open spec fn max_cols(rows: Seq<Seq<Seq<char>>>) -> nat
    decreases rows.len(),
{
    if rows.len() == 0 {
        0
    } else {
        let m = max_cols(rows.drop_last());
        if rows.last().len() > m {
            rows.last().len()
        } else {
            m
        }
    }
}

/// A row filled up with empty cells to `m` cells.
pub open spec fn padded(row: Seq<Seq<char>>, m: nat) -> Seq<Seq<char>> {
    if row.len() >= m {
        row
    } else {
        row + Seq::new((m - row.len()) as nat, |i: int| Seq::<char>::empty())
    }
}

/// `k` copies of `cell`.
pub open spec fn cells(k: nat, cell: Seq<char>) -> Seq<Seq<char>> {
    Seq::new(k, |i: int| cell)
}

/// One table line: `| a | b |`.
pub open spec fn table_line(cs: Seq<Seq<char>>) -> Seq<char> {
    "| "@ + join(cs, " | "@) + " |\n"@
}

/// Table lines for rows `k..` of `rows`, each padded to `m` cells.
pub open spec fn table_lines(rows: Seq<Seq<Seq<char>>>, m: nat, k: int) -> Seq<char>
    decreases rows.len() - k,
{
    if k < 0 || k >= rows.len() {
        Seq::empty()
    } else {
        table_line(padded(rows[k], m)) + table_lines(rows, m, k + 1)
    }
}

/// What a multitable adds after `out`: nothing without rows; otherwise a
/// blank line, then the first row (or, without a header, a row of blanks)
/// as the header, a rule, and the remaining (or all) rows, every row padded
/// to the widest.
pub open spec fn multitable_md(out: Seq<char>, rows: Seq<Seq<Seq<char>>>, header: bool) -> Seq<
    char,
> {
    if rows.len() == 0 {
        Seq::empty()
    } else {
        let m = max_cols(rows);
        let lead = if ends_nl(out) { "\n"@ } else { "\n\n"@ };
        if header {
            lead + table_line(padded(rows[0], m)) + table_line(cells(m, "---"@)) + table_lines(
                rows,
                m,
                1,
            )
        } else {
            lead + table_line(cells(m, " "@)) + table_line(cells(m, "---"@)) + table_lines(
                rows,
                m,
                0,
            )
        }
    }
}

// ---------------------------------------------------------------------------
// Executable helpers
// ---------------------------------------------------------------------------

pub proof fn lemma_trees_index(cs: Seq<XmlNode>)
    ensures
        trees_of(cs).len() == cs.len(),
        forall|i: int| 0 <= i < cs.len() ==> #[trigger] trees_of(cs)[i] == cs[i]@,
    decreases cs.len(),
{
    if cs.len() > 0 {
        lemma_trees_index(cs.drop_last());
    }
}

/// A node's own text, if it is a text node.
fn push_own_text(n: &XmlNode, out: &mut Vec<char>)
    ensures
        final(out)@ == old(out)@ + own_text(n@),
{
    if n.kind == XmlKind::Text {
        match &n.text {
            Some(t) => push_str(out, t.as_str()),
            None => {},
        }
    } else {
        assert(old(out)@ + Seq::<char>::empty() =~= old(out)@);
    }
}

/// Appends the text of `n` and all its descendants.
fn push_raw_text(n: &XmlNode, out: &mut Vec<char>)
    ensures
        final(out)@ == old(out)@ + raw_text(n@),
    decreases n,
{
    let ghost o0 = out@;
    push_own_text(n, out);
    let cs = &n.children;
    proof {
        lemma_trees_index(cs@);
    }
    let ghost ts = trees_of(cs@);
    let mut i: usize = 0;
    assert(ts.take(0) =~= Seq::<XmlTree>::empty());
    while i < cs.len()
        invariant
            i <= cs.len(),
            cs == &n.children,
            ts == trees_of(cs@),
            ts.len() == cs@.len(),
            forall|k: int| 0 <= k < cs@.len() ==> #[trigger] ts[k] == cs@[k]@,
            out@ == o0 + own_text(n@) + raw_texts(ts.take(i as int)),
        decreases cs.len() - i,
    {
        assert(decreases_to!(n.children => n.children@));
        assert(decreases_to!(n.children@ => n.children@[i as int]));
        assert(decreases_to!(*n => n.children));
        assert(decreases_to!(*n => n.children@[i as int]));
        push_raw_text(&cs[i], out);
        assert(ts.take(i + 1).drop_last() =~= ts.take(i as int));
        assert(ts.take(i + 1).last() == ts[i as int]);
        i += 1;
    }
    assert(ts.take(cs.len() as int) =~= ts);
}

/// The text of `s` with whitespace runs made single spaces and none at
/// either end.
pub fn squeeze(s: &[char]) -> (r: Vec<char>)
    ensures
        r@ == squeezed(s@),
{
    let mut out: Vec<char> = Vec::new();
    let mut i: usize = 0;
    assert(s@.take(0) =~= Seq::<char>::empty());
    while i < s.len()
        invariant
            i <= s.len(),
            out@ == squeezed(s@.take(i as int)),
        decreases s.len() - i,
    {
        let c = s[i];
        let ghost t = s@.take(i + 1);
        assert(t.drop_last() =~= s@.take(i as int));
        assert(t.last() == c);
        if !is_whitespace(c) {
            if i > 0 && is_whitespace(s[i - 1]) && out.len() > 0 {
                assert(t.drop_last().last() == s@[i - 1]);
                out.push(' ');
                out.push(c);
                assert(out@ =~= squeezed(s@.take(i as int)) + seq![' ', c]);
            } else {
                out.push(c);
            }
        }
        i += 1;
    }
    assert(s@.take(s.len() as int) =~= s@);
    out
}

/// The text of a node and its descendants, whitespace normalised.
pub fn collect_text(n: &XmlNode) -> (r: Vec<char>)
    ensures
        r@ == node_text(n@),
{
    let mut raw: Vec<char> = Vec::new();
    push_raw_text(n, &mut raw);
    assert(raw@ =~= raw_text(n@));
    squeeze(raw.as_slice())
}

/// The text of a node and its descendants, as it is.
pub fn collect_raw_text(n: &XmlNode) -> (r: Vec<char>)
    ensures
        r@ == raw_text(n@),
{
    let mut raw: Vec<char> = Vec::new();
    push_raw_text(n, &mut raw);
    assert(raw@ =~= raw_text(n@));
    raw
}

/// The value of the first attribute named `name`.
pub fn attribute(attrs: &Vec<(String, String)>, name: &str) -> (r: Option<Vec<char>>)
    ensures
        match r {
            Some(v) => attr(pair_views(attrs@), name@) == Some(v@),
            None => attr(pair_views(attrs@), name@) is None,
        },
{
    let ghost pv = pair_views(attrs@);
    let nm = chars_of(name);
    let mut i: usize = 0;
    assert(pv.skip(0) =~= pv);
    while i < attrs.len()
        invariant
            i <= attrs.len(),
            pv == pair_views(attrs@),
            nm@ == name@,
            attr(pv, name@) == attr(pv.skip(i as int), name@),
        decreases attrs.len() - i,
    {
        let k = chars_of(attrs[i].0.as_str());
        assert(pv.skip(i as int)[0] == pv[i as int]);
        if eq_chars(k.as_slice(), nm.as_slice()) {
            return Some(chars_of(attrs[i].1.as_str()));
        }
        assert(pv.skip(i as int).drop_first() =~= pv.skip(i + 1));
        i += 1;
    }
    None
}

fn tag_is(tag: &[char], name: &str) -> (r: bool)
    ensures
        r == (tag@ == name@),
{
    let n = chars_of(name);
    eq_chars(tag, n.as_slice())
}

/// The index of the first child that is an element named `name`.
fn first_named_index(cs: &Vec<XmlNode>, name: &str) -> (r: Option<usize>)
    ensures
        match r {
            Some(k) => k < cs.len() && first_named(trees_of(cs@), name@) == Some(cs@[k as int]@),
            None => first_named(trees_of(cs@), name@) is None,
        },
{
    proof {
        lemma_trees_index(cs@);
    }
    let ghost ts = trees_of(cs@);
    let mut i: usize = 0;
    assert(ts.skip(0) =~= ts);
    while i < cs.len()
        invariant
            i <= cs.len(),
            ts == trees_of(cs@),
            ts.len() == cs@.len(),
            forall|k: int| 0 <= k < cs@.len() ==> #[trigger] ts[k] == cs@[k]@,
            first_named(ts, name@) == first_named(ts.skip(i as int), name@),
        decreases cs.len() - i,
    {
        let c = &cs[i];
        assert(ts.skip(i as int)[0] == ts[i as int]);
        if c.kind == XmlKind::Element {
            let t = chars_of(c.tag.as_str());
            if tag_is(t.as_slice(), name) {
                return Some(i);
            }
        }
        assert(ts.skip(i as int).drop_first() =~= ts.skip(i + 1));
        i += 1;
    }
    None
}

fn push_with_nl(out: &mut Vec<char>)
    ensures
        final(out)@ == with_nl(old(out)@),
{
    if out.len() == 0 || out[out.len() - 1] != '\n' {
        out.push('\n');
    }
}

fn push_indent(out: &mut Vec<char>, depth: usize)
    ensures
        final(out)@ == old(out)@ + indent(depth as nat),
{
    let ghost o0 = out@;
    let mut k: usize = 0;
    assert(o0 + indent(0) =~= o0);
    while k < depth
        invariant
            k <= depth,
            out@ == o0 + indent(k as nat),
        decreases depth - k,
    {
        push_str(out, "  ");
        assert(indent((k + 1) as nat) == indent(k as nat) + "  "@);
        assert(out@ =~= o0 + indent((k + 1) as nat));
        k += 1;
    }
}


// ---------------------------------------------------------------------------
// Converting to markdown
// ---------------------------------------------------------------------------

pub open spec fn rows_views(v: Seq<Vec<Vec<char>>>) -> Seq<Seq<Seq<char>>> {
    Seq::new(v.len(), |i: int| views(v[i]@))
}

/// Appends the markdown of the nodes `cs`: text as it is, elements by
/// `convert_element_to_md`, other nodes not at all.
pub fn convert_children_to_md(cs: &Vec<XmlNode>, out: &mut Vec<char>, depth: usize)
    ensures
        final(out)@ == md_children(trees_of(cs@), old(out)@, depth as nat),
    decreases cs@, 0nat,
{
    let ghost o0 = out@;
    proof {
        lemma_trees_index(cs@);
    }
    let ghost ts = trees_of(cs@);
    let mut i: usize = 0;
    assert(ts.take(0) =~= Seq::<XmlTree>::empty());
    while i < cs.len()
        invariant
            i <= cs.len(),
            ts == trees_of(cs@),
            ts.len() == cs@.len(),
            forall|k: int| 0 <= k < cs@.len() ==> #[trigger] ts[k] == cs@[k]@,
            out@ == md_children(ts.take(i as int), o0, depth as nat),
        decreases cs.len() - i,
    {
        let c = &cs[i];
        assert(ts.take(i + 1).drop_last() =~= ts.take(i as int));
        assert(ts.take(i + 1).last() == c@);
        if c.kind == XmlKind::Text {
            push_own_text(c, out);
        } else if c.kind == XmlKind::Element {
            assert(decreases_to!(cs@ => cs@[i as int]));
            convert_element_to_md(c, out, depth);
        }
        i += 1;
    }
    assert(ts.take(cs.len() as int) =~= ts);
}

/// Appends the markdown of an element, by its tag.
#[verifier::rlimit(40)]
pub fn convert_element_to_md(n: &XmlNode, out: &mut Vec<char>, depth: usize)
    ensures
        final(out)@ == md_element(n@, old(out)@, depth as nat),
    decreases n, 2nat,
{
    let tag = chars_of(n.tag.as_str());
    let cs = &n.children;
    let ghost o0 = out@;
    assert(n@.children == trees_of(n.children@));
    assert(n@.tag == n.tag@);
    assert(decreases_to!(*n => n.children));
    assert(decreases_to!(n.children => n.children@));
    if tag_is(tag.as_slice(), "para") {
        if out.len() > 0 && out[out.len() - 1] != '\n' {
            out.push('\n');
        }
        let dbl = chars_of("\n\n");
        if out.len() > 0 && !ends_with(out.as_slice(), dbl.as_slice()) {
            out.push('\n');
        }
        convert_children_to_md(cs, out, depth);
        out.push('\n');
    } else if tag_is(tag.as_slice(), "example") || tag_is(tag.as_slice(), "smallexample") {
        push_with_nl(out);
        push_str(out, "\n```maxima\n");
        let raw = collect_raw_text(n);
        push_all(out, trimmed(raw.as_slice()).as_slice());
        push_str(out, "\n```\n");
    } else if tag_is(tag.as_slice(), "code") || tag_is(tag.as_slice(), "kbd") || tag_is(
        tag.as_slice(),
        "samp",
    ) || tag_is(tag.as_slice(), "command") || tag_is(tag.as_slice(), "env") || tag_is(
        tag.as_slice(),
        "file",
    ) || tag_is(tag.as_slice(), "option") {
        let t = collect_text(n);
        push_backquoted(out, trimmed(t.as_slice()).as_slice());
    } else if tag_is(tag.as_slice(), "var") || tag_is(tag.as_slice(), "emph") || tag_is(
        tag.as_slice(),
        "i",
    ) || tag_is(tag.as_slice(), "dfn") {
        out.push('*');
        convert_children_to_md(cs, out, depth);
        out.push('*');
    } else if tag_is(tag.as_slice(), "b") || tag_is(tag.as_slice(), "strong") {
        push_str(out, "**");
        convert_children_to_md(cs, out, depth);
        push_str(out, "**");
    } else if tag_is(tag.as_slice(), "math") {
        let t = collect_text(n);
        out.push('$');
        push_all(out, trimmed(t.as_slice()).as_slice());
        out.push('$');
    } else if tag_is(tag.as_slice(), "sc") {
        let t = collect_text(n);
        let u = to_uppercase(string_of(t.as_slice()).as_str());
        push_str(out, u.as_str());
    } else if tag_is(tag.as_slice(), "ref") || tag_is(tag.as_slice(), "xref") || tag_is(
        tag.as_slice(),
        "pxref",
    ) {
        match attribute(&n.attrs, "label") {
            Some(label) => push_backquoted(out, label.as_slice()),
            None => {
                let t = collect_text(n);
                push_backquoted(out, trimmed(t.as_slice()).as_slice());
            },
        }
    } else if tag_is(tag.as_slice(), "uref") || tag_is(tag.as_slice(), "url") {
        push_link(n, out);
    } else if tag_is(tag.as_slice(), "itemize") {
        push_with_nl(out);
        out.push('\n');
        itemize_md(cs, out, depth);
    } else if tag_is(tag.as_slice(), "enumerate") {
        push_with_nl(out);
        out.push('\n');
        enumerate_md(cs, out, depth);
    } else if tag_is(tag.as_slice(), "multitable") {
        convert_multitable(n, out);
    } else if tag_is(tag.as_slice(), "table") {
        push_with_nl(out);
        out.push('\n');
        table_md(cs, out, depth);
    } else if tag_is(tag.as_slice(), "quotation") {
        push_with_nl(out);
        let mut inner: Vec<char> = Vec::new();
        convert_children_to_md(cs, &mut inner, depth);
        assert(inner@ == md_children(n@.children, Seq::empty(), depth as nat));
        let ls = split_lines(trimmed(inner.as_slice()).as_slice());
        push_quoted(out, &ls);
    } else if tag_is(tag.as_slice(), "html") {
        let t = collect_text(n);
        let mut md = String::new();
        convert_raw_texinfo(string_of(t.as_slice()).as_str(), &mut md);
        push_str(out, md.as_str());
    } else if tag_is(tag.as_slice(), "pre") {
        let raw = collect_raw_text(n);
        push_all(out, trimmed(raw.as_slice()).as_slice());
    } else if tag_is(tag.as_slice(), "group") {
        convert_children_to_md(cs, out, depth);
    } else if tag_is(tag.as_slice(), "image") {
        push_image(n, out);
    } else if tag_is(tag.as_slice(), "anchor") || tag_is(tag.as_slice(), "indexterm") || tag_is(
        tag.as_slice(),
        "cindex",
    ) || tag_is(tag.as_slice(), "findex") || tag_is(tag.as_slice(), "vindex") || tag_is(
        tag.as_slice(),
        "tindex",
    ) || tag_is(tag.as_slice(), "pindex") || tag_is(tag.as_slice(), "kindex") {
    } else {
        convert_children_to_md(cs, out, depth);
    }
}

fn push_backquoted(out: &mut Vec<char>, s: &[char])
    ensures
        final(out)@ == old(out)@ + backquoted(s@),
{
    let ghost o0 = out@;
    out.push('`');
    push_all(out, s);
    out.push('`');
    assert(out@ =~= o0 + backquoted(s@));
}

/// A link: the URL alone when there is no other description.
fn push_link(n: &XmlNode, out: &mut Vec<char>)
    ensures
        final(out)@ == ({
            let url = match attr(n@.attrs, "url"@) {
                Some(u) => u,
                None => Seq::empty(),
            };
            let desc = trim(node_text(n@));
            if desc.len() == 0 || desc == url {
                old(out)@ + url
            } else {
                old(out)@ + seq!['['] + desc + "]("@ + url + seq![')']
            }
        }),
{
    let url = match attribute(&n.attrs, "url") {
        Some(u) => u,
        None => Vec::new(),
    };
    let t = collect_text(n);
    let desc = trimmed(t.as_slice());
    if desc.len() == 0 || eq_chars(desc.as_slice(), url.as_slice()) {
        push_all(out, url.as_slice());
    } else {
        out.push('[');
        push_all(out, desc.as_slice());
        push_str(out, "](");
        push_all(out, url.as_slice());
        out.push(')');
    }
}

/// An image: `![file](file.png)` for the first `imagefile` child.
fn push_image(n: &XmlNode, out: &mut Vec<char>)
    ensures
        final(out)@ == ({
            let file = match first_named(n@.children, "imagefile"@) {
                Some(f) => node_text(f),
                None => Seq::empty(),
            };
            if file.len() > 0 {
                old(out)@ + "!["@ + file + "]("@ + file + ".png)"@
            } else {
                old(out)@
            }
        }),
{
    assert(n@.children == trees_of(n.children@));
    match first_named_index(&n.children, "imagefile") {
        Some(k) => {
            let f = collect_text(&n.children[k]);
            if f.len() > 0 {
                push_str(out, "![");
                push_all(out, f.as_slice());
                push_str(out, "](");
                push_all(out, f.as_slice());
                push_str(out, ".png)");
            }
        },
        None => {},
    }
}

fn push_quoted(out: &mut Vec<char>, ls: &Vec<Vec<char>>)
    ensures
        final(out)@ == old(out)@ + quoted(views(ls@)),
{
    let ghost o0 = out@;
    let ghost lv = views(ls@);
    let mut i: usize = 0;
    assert(lv.take(0) =~= Seq::<Seq<char>>::empty());
    assert(o0 + quoted(Seq::empty()) =~= o0);
    while i < ls.len()
        invariant
            i <= ls.len(),
            lv == views(ls@),
            out@ == o0 + quoted(lv.take(i as int)),
        decreases ls.len() - i,
    {
        push_str(out, "> ");
        push_all(out, ls[i].as_slice());
        out.push('\n');
        assert(lv.take(i + 1).drop_last() =~= lv.take(i as int));
        assert(lv.take(i + 1).last() == ls@[i as int]@);
        assert(out@ =~= o0 + quoted(lv.take(i + 1)));
        i += 1;
    }
    assert(lv.take(ls.len() as int) =~= lv);
}

fn next_depth(d: usize) -> (r: usize)
    ensures
        r == deeper(d as nat),
{
    if d < usize::MAX {
        d + 1
    } else {
        d
    }
}

/// Appends a `multitable` as a markdown table.
pub fn convert_multitable(n: &XmlNode, out: &mut Vec<char>)
    ensures
        final(out)@ == ({
            let (rows, header) = table_rows(n@.children);
            old(out)@ + multitable_md(old(out)@, rows, header)
        }),
    decreases n, 1nat,
{
    assert(n@.children == trees_of(n.children@));
    assert(decreases_to!(*n => n.children));
    assert(decreases_to!(n.children => n.children@));
    let (rows, header) = table_rows_md(&n.children);
    push_multitable(out, &rows, header);
}

/// The markdown of a definition's body, trimmed.
pub fn definition_body_to_markdown(n: &XmlNode) -> (r: String)
    ensures
        r@ == trim(md_children(n@.children, Seq::empty(), 0)),
{
    assert(n@.children == trees_of(n.children@));
    let mut out: Vec<char> = Vec::new();
    convert_children_to_md(&n.children, &mut out, 0);
    string_of(trimmed(out.as_slice()).as_slice())
}

/// The items of an `itemize` list.
fn itemize_md(cs: &Vec<XmlNode>, out: &mut Vec<char>, depth: usize)
    ensures
        final(out)@ == md_itemize(trees_of(cs@), old(out)@, depth as nat),
    decreases cs@, 1nat,
{
    let ghost o0 = out@;
    proof {
        lemma_trees_index(cs@);
    }
    let ghost ts = trees_of(cs@);
    let mut i: usize = 0;
    assert(ts.take(0) =~= Seq::<XmlTree>::empty());
    while i < cs.len()
        invariant
            i <= cs.len(),
            ts == trees_of(cs@),
            ts.len() == cs@.len(),
            forall|k: int| 0 <= k < cs@.len() ==> #[trigger] ts[k] == cs@[k]@,
            out@ == md_itemize(ts.take(i as int), o0, depth as nat),
        decreases cs.len() - i,
    {
        let it = &cs[i];
        assert(ts.take(i + 1).drop_last() =~= ts.take(i as int));
        assert(ts.take(i + 1).last() == it@);
        assert(it@.children == trees_of(it.children@));
        assert(it@.tag == it.tag@);
        if it.kind == XmlKind::Element && tag_is(chars_of(it.tag.as_str()).as_slice(), "listitem") {
            push_indent(out, depth);
            push_str(out, "- ");
            let mut body: Vec<char> = Vec::new();
            assert(decreases_to!(cs@ => cs@[i as int]));
            assert(decreases_to!(cs@[i as int] => cs@[i as int].children));
            assert(decreases_to!(cs@[i as int].children => cs@[i as int].children@));
            convert_children_to_md(&it.children, &mut body, next_depth(depth));
            assert(body@ == md_children(it@.children, Seq::empty(), deeper(depth as nat)));
            let t = trimmed(body.as_slice());
            let r = replace_chars(t.as_slice(), chars_of("\n\n").as_slice(), chars_of("\n").as_slice());
            push_all(out, r.as_slice());
            push_str(out, "\n");
        }
        i += 1;
    }
    assert(ts.take(cs.len() as int) =~= ts);
}

/// The items of an `enumerate` list, numbered from 1.
fn enumerate_md(cs: &Vec<XmlNode>, out: &mut Vec<char>, depth: usize)
    ensures
        final(out)@ == md_enumerate(trees_of(cs@), old(out)@, depth as nat).0,
    decreases cs@, 1nat,
{
    let ghost o0 = out@;
    proof {
        lemma_trees_index(cs@);
    }
    let ghost ts = trees_of(cs@);
    let mut i: usize = 0;
    let mut n: usize = 0;
    assert(ts.take(0) =~= Seq::<XmlTree>::empty());
    while i < cs.len()
        invariant
            n <= i <= cs.len(),
            ts == trees_of(cs@),
            ts.len() == cs@.len(),
            forall|k: int| 0 <= k < cs@.len() ==> #[trigger] ts[k] == cs@[k]@,
            md_enumerate(ts.take(i as int), o0, depth as nat) == (out@, n as nat),
        decreases cs.len() - i,
    {
        let it = &cs[i];
        assert(ts.take(i + 1).drop_last() =~= ts.take(i as int));
        assert(ts.take(i + 1).last() == it@);
        assert(it@.children == trees_of(it.children@));
        assert(it@.tag == it.tag@);
        if it.kind == XmlKind::Element && tag_is(chars_of(it.tag.as_str()).as_slice(), "listitem") {
            push_indent(out, depth);
            push_decimal(out, n + 1);
            push_str(out, ". ");
            let mut body: Vec<char> = Vec::new();
            assert(decreases_to!(cs@ => cs@[i as int]));
            assert(decreases_to!(cs@[i as int] => cs@[i as int].children));
            assert(decreases_to!(cs@[i as int].children => cs@[i as int].children@));
            convert_children_to_md(&it.children, &mut body, next_depth(depth));
            assert(body@ == md_children(it@.children, Seq::empty(), deeper(depth as nat)));
            let t = trimmed(body.as_slice());
            push_all(out, t.as_slice());
            push_str(out, "\n");
            n += 1;
        }
        i += 1;
    }
    assert(ts.take(cs.len() as int) =~= ts);
}

/// The term and description of a table entry.
fn entry_parts_md(ps: &Vec<XmlNode>, depth: usize) -> (r: (Vec<char>, Vec<char>))
    ensures
        (r.0@, r.1@) == entry_parts(trees_of(ps@), depth as nat),
    decreases ps@, 1nat,
{
    proof {
        lemma_trees_index(ps@);
    }
    let ghost ts = trees_of(ps@);
    let mut term: Vec<char> = Vec::new();
    let mut desc: Vec<char> = Vec::new();
    let mut i: usize = 0;
    assert(ts.take(0) =~= Seq::<XmlTree>::empty());
    while i < ps.len()
        invariant
            i <= ps.len(),
            ts == trees_of(ps@),
            ts.len() == ps@.len(),
            forall|k: int| 0 <= k < ps@.len() ==> #[trigger] ts[k] == ps@[k]@,
            entry_parts(ts.take(i as int), depth as nat) == (term@, desc@),
        decreases ps.len() - i,
    {
        let p = &ps[i];
        assert(ts.take(i + 1).drop_last() =~= ts.take(i as int));
        assert(ts.take(i + 1).last() == p@);
        assert(p@.children == trees_of(p.children@));
        assert(p@.tag == p.tag@);
        assert(decreases_to!(ps@ => ps@[i as int]));
        assert(decreases_to!(ps@[i as int] => ps@[i as int].children));
        assert(decreases_to!(ps@[i as int].children => ps@[i as int].children@));
        if p.kind == XmlKind::Element {
            let t = chars_of(p.tag.as_str());
            if tag_is(t.as_slice(), "tableterm") {
                let mut md: Vec<char> = Vec::new();
                convert_children_to_md(&p.children, &mut md, depth);
                assert(md@ == md_children(p@.children, Seq::empty(), depth as nat));
                term = trimmed(md.as_slice());
            } else if tag_is(t.as_slice(), "tableitem") {
                convert_children_to_md(&p.children, &mut desc, depth);
            }
        }
        i += 1;
    }
    assert(ts.take(ps.len() as int) =~= ts);
    (term, desc)
}

/// The entries of a `table`, one line each.
fn table_md(cs: &Vec<XmlNode>, out: &mut Vec<char>, depth: usize)
    ensures
        final(out)@ == md_table(trees_of(cs@), old(out)@, depth as nat),
    decreases cs@, 1nat,
{
    let ghost o0 = out@;
    proof {
        lemma_trees_index(cs@);
    }
    let ghost ts = trees_of(cs@);
    let mut i: usize = 0;
    assert(ts.take(0) =~= Seq::<XmlTree>::empty());
    while i < cs.len()
        invariant
            i <= cs.len(),
            ts == trees_of(cs@),
            ts.len() == cs@.len(),
            forall|k: int| 0 <= k < cs@.len() ==> #[trigger] ts[k] == cs@[k]@,
            out@ == md_table(ts.take(i as int), o0, depth as nat),
        decreases cs.len() - i,
    {
        let e = &cs[i];
        assert(ts.take(i + 1).drop_last() =~= ts.take(i as int));
        assert(ts.take(i + 1).last() == e@);
        assert(e@.children == trees_of(e.children@));
        assert(e@.tag == e.tag@);
        if e.kind == XmlKind::Element && tag_is(chars_of(e.tag.as_str()).as_slice(), "tableentry") {
            assert(decreases_to!(cs@ => cs@[i as int]));
            assert(decreases_to!(cs@[i as int] => cs@[i as int].children));
            assert(decreases_to!(cs@[i as int].children => cs@[i as int].children@));
            let (term, desc) = entry_parts_md(&e.children, depth);
            let ghost before = out@;
            push_str(out, "**");
            push_all(out, term.as_slice());
            push_str(out, "**");
            let d = trimmed(desc.as_slice());
            if d.len() > 0 {
                push_str(out, " — ");
                let r = replace_chars(d.as_slice(), chars_of("\n\n").as_slice(), chars_of(" ").as_slice());
                push_all(out, r.as_slice());
            }
            push_str(out, "\n");
            assert(out@ =~= before + entry_line(term@, desc@));
        }
        i += 1;
    }
    assert(ts.take(cs.len() as int) =~= ts);
}

/// The cells of a table row.
fn row_cells_md(es: &Vec<XmlNode>) -> (r: Vec<Vec<char>>)
    ensures
        views(r@) == table_row(trees_of(es@)),
    decreases es@, 1nat,
{
    proof {
        lemma_trees_index(es@);
    }
    let ghost ts = trees_of(es@);
    let mut cells: Vec<Vec<char>> = Vec::new();
    let mut i: usize = 0;
    assert(ts.take(0) =~= Seq::<XmlTree>::empty());
    assert(views(cells@) =~= Seq::<Seq<char>>::empty());
    while i < es.len()
        invariant
            i <= es.len(),
            ts == trees_of(es@),
            ts.len() == es@.len(),
            forall|k: int| 0 <= k < es@.len() ==> #[trigger] ts[k] == es@[k]@,
            views(cells@) == table_row(ts.take(i as int)),
        decreases es.len() - i,
    {
        let e = &es[i];
        assert(ts.take(i + 1).drop_last() =~= ts.take(i as int));
        assert(ts.take(i + 1).last() == e@);
        assert(e@.children == trees_of(e.children@));
        assert(e@.tag == e.tag@);
        if e.kind == XmlKind::Element && tag_is(chars_of(e.tag.as_str()).as_slice(), "entry") {
            assert(decreases_to!(es@ => es@[i as int]));
            assert(decreases_to!(es@[i as int] => es@[i as int].children));
            assert(decreases_to!(es@[i as int].children => es@[i as int].children@));
            let mut md: Vec<char> = Vec::new();
            convert_children_to_md(&e.children, &mut md, 0);
            assert(md@ == md_children(e@.children, Seq::empty(), 0));
            let t = trimmed(md.as_slice());
            let nl: Vec<char> = vec!['\n'];
            let sp: Vec<char> = vec![' '];
            assert(nl@ =~= seq!['\n']);
            assert(sp@ =~= seq![' ']);
            let c = replace_chars(t.as_slice(), nl.as_slice(), sp.as_slice());
            let ghost before = cells@;
            cells.push(c);
            assert(views(cells@) =~= views(before).push(c@));
        }
        i += 1;
    }
    assert(ts.take(es.len() as int) =~= ts);
    cells
}

/// The rows among `rs`.
fn row_list_md(rs: &Vec<XmlNode>) -> (r: Vec<Vec<Vec<char>>>)
    ensures
        rows_views(r@) == row_list(trees_of(rs@)),
    decreases rs@, 1nat,
{
    proof {
        lemma_trees_index(rs@);
    }
    let ghost ts = trees_of(rs@);
    let mut rows: Vec<Vec<Vec<char>>> = Vec::new();
    let mut i: usize = 0;
    assert(ts.take(0) =~= Seq::<XmlTree>::empty());
    assert(rows_views(rows@) =~= Seq::<Seq<Seq<char>>>::empty());
    while i < rs.len()
        invariant
            i <= rs.len(),
            ts == trees_of(rs@),
            ts.len() == rs@.len(),
            forall|k: int| 0 <= k < rs@.len() ==> #[trigger] ts[k] == rs@[k]@,
            rows_views(rows@) == row_list(ts.take(i as int)),
        decreases rs.len() - i,
    {
        let x = &rs[i];
        assert(ts.take(i + 1).drop_last() =~= ts.take(i as int));
        assert(ts.take(i + 1).last() == x@);
        assert(x@.children == trees_of(x.children@));
        assert(x@.tag == x.tag@);
        if x.kind == XmlKind::Element && tag_is(chars_of(x.tag.as_str()).as_slice(), "row") {
            assert(decreases_to!(rs@ => rs@[i as int]));
            assert(decreases_to!(rs@[i as int] => rs@[i as int].children));
            assert(decreases_to!(rs@[i as int].children => rs@[i as int].children@));
            let row = row_cells_md(&x.children);
            let ghost before = rows@;
            rows.push(row);
            assert(rows_views(rows@) =~= rows_views(before).push(views(row@)));
        }
        i += 1;
    }
    assert(ts.take(rs.len() as int) =~= ts);
    rows
}

/// The rows of a `multitable` and whether it has a header.
fn table_rows_md(cs: &Vec<XmlNode>) -> (r: (Vec<Vec<Vec<char>>>, bool))
    ensures
        (rows_views(r.0@), r.1) == table_rows(trees_of(cs@)),
    decreases cs@, 1nat,
{
    proof {
        lemma_trees_index(cs@);
    }
    let ghost ts = trees_of(cs@);
    let mut rows: Vec<Vec<Vec<char>>> = Vec::new();
    let mut header = false;
    let mut i: usize = 0;
    assert(ts.take(0) =~= Seq::<XmlTree>::empty());
    assert(rows_views(rows@) =~= Seq::<Seq<Seq<char>>>::empty());
    while i < cs.len()
        invariant
            i <= cs.len(),
            ts == trees_of(cs@),
            ts.len() == cs@.len(),
            forall|k: int| 0 <= k < cs@.len() ==> #[trigger] ts[k] == cs@[k]@,
            (rows_views(rows@), header) == table_rows(ts.take(i as int)),
        decreases cs.len() - i,
    {
        let c = &cs[i];
        assert(ts.take(i + 1).drop_last() =~= ts.take(i as int));
        assert(ts.take(i + 1).last() == c@);
        assert(c@.children == trees_of(c.children@));
        assert(c@.tag == c.tag@);
        assert(decreases_to!(cs@ => cs@[i as int]));
        assert(decreases_to!(cs@[i as int] => cs@[i as int].children));
        assert(decreases_to!(cs@[i as int].children => cs@[i as int].children@));
        if c.kind == XmlKind::Element {
            let t = chars_of(c.tag.as_str());
            let head = tag_is(t.as_slice(), "thead");
            if head || tag_is(t.as_slice(), "tbody") {
                let more = row_list_md(&c.children);
                let ghost before = rows@;
                append_rows(&mut rows, more);
                if head {
                    header = true;
                }
            } else if tag_is(t.as_slice(), "row") {
                let row = row_cells_md(&c.children);
                let ghost before = rows@;
                rows.push(row);
                assert(rows_views(rows@) =~= rows_views(before).push(views(row@)));
            }
        }
        i += 1;
    }
    assert(ts.take(cs.len() as int) =~= ts);
    (rows, header)
}

fn append_rows(rows: &mut Vec<Vec<Vec<char>>>, more: Vec<Vec<Vec<char>>>)
    ensures
        rows_views(final(rows)@) == rows_views(old(rows)@) + rows_views(more@),
{
    let ghost r0 = rows@;
    let mut more = more;
    let ghost m0 = more@;
    rows.append(&mut more);
    assert(rows_views(rows@) =~= rows_views(r0) + rows_views(m0));
}

fn max_cols_exec(rows: &Vec<Vec<Vec<char>>>) -> (r: usize)
    ensures
        r == max_cols(rows_views(rows@)),
{
    let ghost rv = rows_views(rows@);
    let mut m: usize = 0;
    let mut i: usize = 0;
    assert(rv.take(0) =~= Seq::<Seq<Seq<char>>>::empty());
    while i < rows.len()
        invariant
            i <= rows.len(),
            rv == rows_views(rows@),
            m == max_cols(rv.take(i as int)),
        decreases rows.len() - i,
    {
        assert(rv.take(i + 1).drop_last() =~= rv.take(i as int));
        assert(rv.take(i + 1).last() == views(rows@[i as int]@));
        if rows[i].len() > m {
            m = rows[i].len();
        }
        i += 1;
    }
    assert(rv.take(rows.len() as int) =~= rv);
    m
}

fn pad_row(row: &Vec<Vec<char>>, m: usize) -> (r: Vec<Vec<char>>)
    ensures
        views(r@) == padded(views(row@), m as nat),
{
    let mut r: Vec<Vec<char>> = Vec::new();
    let mut i: usize = 0;
    assert(views(r@) =~= views(row@).take(0));
    while i < row.len()
        invariant
            i <= row.len(),
            views(r@) == views(row@).take(i as int),
        decreases row.len() - i,
    {
        let c = slice_copy(row[i].as_slice(), 0, row[i].len());
        assert(row[i as int]@.subrange(0, row[i as int]@.len() as int) =~= row[i as int]@);
        let ghost before = r@;
        r.push(c);
        assert(views(r@) =~= views(before).push(row@[i as int]@));
        assert(views(r@) =~= views(row@).take(i + 1));
        i += 1;
    }
    assert(views(row@).take(row.len() as int) =~= views(row@));
    if row.len() >= m {
        return r;
    }
    assert(views(r@) =~= views(row@) + Seq::new(0, |k: int| Seq::<char>::empty()));
    while i < m
        invariant
            row.len() <= i <= m,
            views(r@) == views(row@) + Seq::new((i - row.len()) as nat, |k: int| Seq::<char>::empty()),
        decreases m - i,
    {
        let ghost before = r@;
        let e: Vec<char> = Vec::new();
        assert(e@ =~= Seq::<char>::empty());
        r.push(e);
        assert(views(r@) =~= views(before).push(Seq::<char>::empty()));
        assert(views(r@) =~= views(row@) + Seq::new((i + 1 - row.len()) as nat, |k: int| Seq::<char>::empty()));
        i += 1;
    }
    r
}

fn push_table_line(out: &mut Vec<char>, cs: &Vec<Vec<char>>)
    ensures
        final(out)@ == old(out)@ + table_line(views(cs@)),
{
    let ghost o0 = out@;
    push_str(out, "| ");
    let sep = chars_of(" | ");
    let j = join_chars(cs, sep.as_slice());
    push_all(out, j.as_slice());
    push_str(out, " |\n");
    assert(out@ =~= o0 + table_line(views(cs@)));
}

fn cells_exec(k: usize, cell: &str) -> (r: Vec<Vec<char>>)
    ensures
        views(r@) == cells(k as nat, cell@),
{
    let mut r: Vec<Vec<char>> = Vec::new();
    let mut i: usize = 0;
    while i < k
        invariant
            i <= k,
            views(r@) == cells(i as nat, cell@),
        decreases k - i,
    {
        let ghost before = r@;
        r.push(chars_of(cell));
        assert(views(r@) =~= views(before).push(cell@));
        assert(views(r@) =~= cells((i + 1) as nat, cell@));
        i += 1;
    }
    r
}

/// Appends a multitable: nothing without rows; otherwise a blank line, the
/// header row (the first row, or blanks), a rule and the other rows, every
/// row padded to the widest.
fn push_multitable(out: &mut Vec<char>, rows: &Vec<Vec<Vec<char>>>, header: bool)
    ensures
        final(out)@ == old(out)@ + multitable_md(old(out)@, rows_views(rows@), header),
{
    let ghost o0 = out@;
    let ghost rv = rows_views(rows@);
    if rows.len() == 0 {
        assert(o0 + Seq::<char>::empty() =~= o0);
        return;
    }
    let m = max_cols_exec(rows);
    push_with_nl(out);
    out.push('\n');
    let ghost lead = if ends_nl(o0) { "\n"@ } else { "\n\n"@ };
    proof {
        reveal_strlit("\n");
        reveal_strlit("\n\n");
    }
    assert(out@ =~= o0 + lead);
    let start: usize;
    if header {
        let h = pad_row(&rows[0], m);
        assert(views(rows@[0]@) == rv[0]);
        push_table_line(out, &h);
        start = 1;
    } else {
        let blanks = cells_exec(m, " ");
        push_table_line(out, &blanks);
        start = 0;
    }
    let dashes = cells_exec(m, "---");
    push_table_line(out, &dashes);
    let ghost base = out@;
    let mut i: usize = start;
    assert(base + table_lines(rv, m as nat, start as int) =~= out@ + table_lines(rv, m as nat, i as int));
    while i < rows.len()
        invariant
            start <= i <= rows.len(),
            rv == rows_views(rows@),
            base + table_lines(rv, m as nat, start as int) == out@ + table_lines(rv, m as nat, i as int),
        decreases rows.len() - i,
    {
        let p = pad_row(&rows[i], m);
        assert(views(rows@[i as int]@) == rv[i as int]);
        let ghost before = out@;
        push_table_line(out, &p);
        assert(table_lines(rv, m as nat, i as int) == table_line(padded(rv[i as int], m as nat))
            + table_lines(rv, m as nat, i + 1));
        assert(before + table_lines(rv, m as nat, i as int) =~= out@ + table_lines(rv, m as nat, i + 1));
        i += 1;
    }
    assert(table_lines(rv, m as nat, i as int) == Seq::<char>::empty());
    assert(out@ =~= o0 + multitable_md(o0, rv, header));
}

} // verus!
