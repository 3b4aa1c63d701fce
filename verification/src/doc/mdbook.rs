//! mdBook pages and table of contents for a package's documentation.
use vstd::prelude::*;
use super::includes::{include_target, include_target_exec};
use super::texi::{call_heading, call_heading_exec, name_heading, name_heading_exec};
use crate::core_docs::emit::{slug, slugify};
use crate::info_index::{decimal, push_decimal};
use crate::text::{
    chars_of, chars_of_string, has_prefix, join, join_chars, lemma_views_push, lines, lowercase,
    push_all, push_str, skip_ws, slice_copy, split_lines, starts_with, string_of, tok_end,
    token_end, trim, trimmed, views, ws_skip,
};

verus! {

// ---------------------------------------------------------------------------
// Definition headings
// ---------------------------------------------------------------------------

/// A definition heading drawn as a block: `### Function: name (args)`
/// becomes a rule and `` ### `name` (*args*) — Function ``, `### Variable:
/// name` a rule and `` ### `name` — Variable ``; other lines stay.
pub open spec fn book_line(l: Seq<char>) -> Seq<char> {
    match call_heading(l, "### Function:"@) {
        Some((name, args0)) => {
            let args = trim(args0);
            if args.len() == 0 {
                "---\n### `"@ + name + "` () — Function"@
            } else {
                "---\n### `"@ + name + "` (*"@ + args + "*) — Function"@
            }
        },
        None => match name_heading(l, "### Variable:"@) {
            Some(name) => "---\n### `"@ + name + "` — Variable"@,
            None => l,
        },
    }
}

fn book_line_exec(l: &[char]) -> (r: Vec<char>)
    ensures
        r@ == book_line(l@),
{
    match call_heading_exec(l, chars_of("### Function:").as_slice()) {
        Some((name, args0)) => {
            let args = trimmed(args0.as_slice());
            let mut out = chars_of("---\n### `");
            push_all(&mut out, name.as_slice());
            if args.len() == 0 {
                push_str(&mut out, "` () — Function");
            } else {
                push_str(&mut out, "` (*");
                push_all(&mut out, args.as_slice());
                push_str(&mut out, "*) — Function");
            }
            out
        },
        None => match name_heading_exec(l, chars_of("### Variable:").as_slice()) {
            Some(name) => {
                let mut out = chars_of("---\n### `");
                push_all(&mut out, name.as_slice());
                push_str(&mut out, "` — Variable");
                out
            },
            None => slice_copy(l, 0, l.len()),
        },
    }
}

/// Renders one line for mdBook: definition headings become styled blocks.
pub fn render_mdbook_line(line: &str) -> (r: String)
    ensures
        r@ == book_line(line@),
{
    string_of(book_line_exec(chars_of(line).as_slice()).as_slice())
}

pub open spec fn book_lines(ls: Seq<Seq<char>>) -> Seq<Seq<char>> {
    Seq::new(ls.len(), |i: int| book_line(ls[i]))
}

/// Renders markdown for mdBook, line by line.
pub fn render_mdbook_content(content: &str) -> (r: String)
    ensures
        r@ == join(book_lines(lines(content@)), "\n"@),
{
    let ls = split_lines(chars_of(content).as_slice());
    let ghost lv = views(ls@);
    let mut out: Vec<Vec<char>> = Vec::new();
    let mut i: usize = 0;
    while i < ls.len()
        invariant
            i <= ls@.len(),
            lv == views(ls@),
            lv == lines(content@),
            views(out@) == book_lines(lv).take(i as int),
        decreases ls@.len() - i,
    {
        assert(lv[i as int] == ls@[i as int]@);
        let l = book_line_exec(ls[i].as_slice());
        proof {
            lemma_views_push(out@, l);
        }
        out.push(l);
        i += 1;
        assert(views(out@) =~= book_lines(lv).take(i as int));
    }
    assert(book_lines(lv).take(lv.len() as int) =~= book_lines(lv));
    string_of(join_chars(&out, chars_of("\n").as_slice()).as_slice())
}

// ---------------------------------------------------------------------------
// Titles and headings
// ---------------------------------------------------------------------------

/// The chapter title from the first heading from line `i` on: a function's
/// name, a variable's name, or a `##`/`#` heading's text. A function
/// heading with no name gives none.
pub open spec fn title_from(ls: Seq<Seq<char>>, i: int) -> Option<Seq<char>>
    decreases ls.len() - i,
{
    if i < 0 || i >= ls.len() {
        None
    } else {
        let l = ls[i];
        if has_prefix(l, "### Function: "@) {
            let rest = l.skip(14);
            let a = ws_skip(rest, 0);
            if a < rest.len() {
                Some(rest.subrange(a, tok_end(rest, a)))
            } else {
                None
            }
        } else if has_prefix(l, "### Variable: "@) {
            Some(trim(l.skip(14)))
        } else if has_prefix(l, "## "@) {
            Some(trim(l.skip(3)))
        } else if has_prefix(l, "# "@) {
            Some(trim(l.skip(2)))
        } else {
            title_from(ls, i + 1)
        }
    }
}

/// The chapter title of a page: the name of its first definition or the
/// text of its first heading.
pub fn extract_chapter_title(content: &str) -> (r: Option<String>)
    ensures
        match r {
            Some(t) => title_from(lines(content@), 0) == Some(t@),
            None => title_from(lines(content@), 0) is None,
        },
{
    let ls = split_lines(chars_of(content).as_slice());
    let ghost lv = views(ls@);
    let f = chars_of("### Function: ");
    let v = chars_of("### Variable: ");
    let h2 = chars_of("## ");
    let h1 = chars_of("# ");
    proof {
        reveal_strlit("### Function: ");
        reveal_strlit("### Variable: ");
        reveal_strlit("## ");
        reveal_strlit("# ");
    }
    let mut i: usize = 0;
    while i < ls.len()
        invariant
            i <= ls@.len(),
            lv == views(ls@),
            lv == lines(content@),
            f@ == "### Function: "@,
            v@ == "### Variable: "@,
            h2@ == "## "@,
            h1@ == "# "@,
            title_from(lv, 0) == title_from(lv, i as int),
        decreases ls@.len() - i,
    {
        let l = &ls[i];
        assert(lv[i as int] == l@);
        proof {
            reveal_strlit("### Function: ");
            reveal_strlit("### Variable: ");
            reveal_strlit("## ");
            reveal_strlit("# ");
        }
        if starts_with(l.as_slice(), f.as_slice()) {
            let rest = slice_copy(l.as_slice(), 14, l.len());
            assert(rest@ =~= l@.skip(14));
            let a = skip_ws(rest.as_slice(), 0);
            if a < rest.len() {
                let e = token_end(rest.as_slice(), a);
                return Some(string_of(slice_copy(rest.as_slice(), a, e).as_slice()));
            } else {
                return None;
            }
        } else if starts_with(l.as_slice(), v.as_slice()) {
            let rest = slice_copy(l.as_slice(), 14, l.len());
            assert(rest@ =~= l@.skip(14));
            return Some(string_of(trimmed(rest.as_slice()).as_slice()));
        } else if starts_with(l.as_slice(), h2.as_slice()) {
            let rest = slice_copy(l.as_slice(), 3, l.len());
            assert(rest@ =~= l@.skip(3));
            return Some(string_of(trimmed(rest.as_slice()).as_slice()));
        } else if starts_with(l.as_slice(), h1.as_slice()) {
            let rest = slice_copy(l.as_slice(), 2, l.len());
            assert(rest@ =~= l@.skip(2));
            return Some(string_of(trimmed(rest.as_slice()).as_slice()));
        }
        i += 1;
    }
    None
}

/// The first line, from index `i` on, that starts with `### ` or `## `, or
/// the count.
pub open spec fn first_heading(ls: Seq<Seq<char>>, i: int) -> int
    decreases ls.len() - i,
{
    if i < 0 || i >= ls.len() {
        ls.len() as int
    } else if has_prefix(ls[i], "### "@) || has_prefix(ls[i], "## "@) {
        i
    } else {
        first_heading(ls, i + 1)
    }
}

/// The heading line promoted to a top-level `#` heading.
pub open spec fn promoted(l: Seq<char>) -> Seq<char> {
    if has_prefix(l, "### "@) {
        "# "@ + l.skip(4)
    } else {
        "# "@ + l.skip(3)
    }
}

/// The page with its first `###` or `##` heading made a `#` heading.
pub open spec fn promoted_page(content: Seq<char>) -> Seq<char> {
    let ls = lines(content);
    let p = first_heading(ls, 0);
    join(if 0 <= p < ls.len() { ls.update(p, promoted(ls[p])) } else { ls }, "\n"@)
}

/// Makes the first `###` or `##` heading of a page its `#` page heading.
pub fn promote_first_heading(content: &str) -> (r: String)
    ensures
        r@ == promoted_page(content@),
{
    let mut ls = split_lines(chars_of(content).as_slice());
    let ghost lv = views(ls@);
    let h3 = chars_of("### ");
    let h2 = chars_of("## ");
    proof {
        reveal_strlit("### ");
        reveal_strlit("## ");
    }
    let mut i: usize = 0;
    while i < ls.len() && !(starts_with(ls[i].as_slice(), h3.as_slice()) || starts_with(
        ls[i].as_slice(),
        h2.as_slice(),
    ))
        invariant
            i <= ls@.len(),
            lv == views(ls@),
            h3@ == "### "@,
            h2@ == "## "@,
            first_heading(lv, 0) == first_heading(lv, i as int),
        decreases ls@.len() - i,
    {
        assert(lv[i as int] == ls@[i as int]@);
        i += 1;
    }
    if i < ls.len() {
        assert(lv[i as int] == ls@[i as int]@);
        let l = slice_copy(ls[i].as_slice(), 0, ls[i].len());
        assert(l@ =~= lv[i as int]);
        let mut p = chars_of("# ");
        if starts_with(l.as_slice(), h3.as_slice()) {
            push_all(&mut p, slice_copy(l.as_slice(), 4, l.len()).as_slice());
            assert(p@ =~= promoted(lv[i as int]));
        } else {
            push_all(&mut p, slice_copy(l.as_slice(), 3, l.len()).as_slice());
            assert(p@ =~= promoted(lv[i as int]));
        }
        ls.set(i, p);
        assert(views(ls@) =~= lv.update(i as int, promoted(lv[i as int])));
    }
    string_of(join_chars(&ls, chars_of("\n").as_slice()).as_slice())
}

// ---------------------------------------------------------------------------
// Chapters from include directives
// ---------------------------------------------------------------------------

/// A part of the main documentation file: its `##` title, its own text,
/// and the files it includes.
pub struct BookSection {
    pub title: String,
    pub content: String,
    pub includes: Vec<String>,
}

pub struct SectionV {
    pub title: Seq<char>,
    pub content: Seq<char>,
    pub includes: Seq<Seq<char>>,
}

impl View for BookSection {
    type V = SectionV;

    open spec fn view(&self) -> SectionV {
        SectionV {
            title: self.title@,
            content: self.content@,
            includes: crate::text::strs(self.includes@),
        }
    }
}

pub open spec fn book_section_views(v: Seq<BookSection>) -> Seq<SectionV> {
    Seq::new(v.len(), |i: int| v[i]@)
}

/// A part with a title, text or includes is kept.
pub open spec fn worth_keeping(s: SectionV) -> bool {
    s.title.len() > 0 || trim(s.content).len() > 0 || s.includes.len() > 0
}

pub open spec fn empty_section(title: Seq<char>) -> SectionV {
    SectionV { title, content: Seq::empty(), includes: Seq::empty() }
}

/// One line of the split: the `#` title is skipped, `##` starts a part,
/// include directives are collected, other lines are the part's text.
pub open spec fn part_step(st: (Seq<SectionV>, SectionV), l: Seq<char>) -> (Seq<SectionV>, SectionV) {
    let (done, cur) = st;
    if has_prefix(l, "# "@) {
        st
    } else if has_prefix(l, "## "@) {
        (if worth_keeping(cur) { done.push(cur) } else { done }, empty_section(trim(l.skip(3))))
    } else {
        match include_target(l) {
            Some(t) => (done, SectionV { includes: cur.includes.push(t), ..cur }),
            None => (done, SectionV { content: cur.content + l + seq!['\n'], ..cur }),
        }
    }
}

pub open spec fn part_run(ls: Seq<Seq<char>>, n: int) -> (Seq<SectionV>, SectionV)
    decreases n,
{
    if n <= 0 {
        (Seq::empty(), empty_section(Seq::empty()))
    } else {
        part_step(part_run(ls, n - 1), ls[n - 1])
    }
}

/// The parts of the main documentation file, split at its `##` headings.
pub open spec fn book_parts(content: Seq<char>) -> Seq<SectionV> {
    let ls = lines(content);
    let (done, cur) = part_run(ls, ls.len() as int);
    if worth_keeping(cur) {
        done.push(cur)
    } else {
        done
    }
}

fn keep_section(out: &mut Vec<BookSection>, title: &Vec<char>, content: &Vec<char>, includes: &Vec<String>)
    ensures
        book_section_views(final(out)@) == (if worth_keeping(
            SectionV { title: title@, content: content@, includes: crate::text::strs(includes@) },
        ) {
            book_section_views(old(out)@).push(
                SectionV {
                    title: title@,
                    content: content@,
                    includes: crate::text::strs(includes@),
                },
            )
        } else {
            book_section_views(old(out)@)
        }),
{
    if title.len() > 0 || trimmed(content.as_slice()).len() > 0 || includes.len() > 0 {
        let mut inc: Vec<String> = Vec::new();
        let mut k: usize = 0;
        while k < includes.len()
            invariant
                k <= includes@.len(),
                crate::text::strs(inc@) == crate::text::strs(includes@).take(k as int),
            decreases includes@.len() - k,
        {
            let s = includes[k].clone();
            proof {
                crate::text::lemma_strs_push(inc@, s);
            }
            inc.push(s);
            k += 1;
            assert(crate::text::strs(inc@) =~= crate::text::strs(includes@).take(k as int));
        }
        assert(crate::text::strs(includes@).take(includes@.len() as int) =~= crate::text::strs(
            includes@,
        ));
        let s = BookSection {
            title: string_of(title.as_slice()),
            content: string_of(content.as_slice()),
            includes: inc,
        };
        let ghost o = out@;
        let ghost sv = s@;
        out.push(s);
        assert(book_section_views(out@) =~= book_section_views(o).push(sv));
    }
}

/// Splits the main documentation file into parts at its `##` headings,
/// collecting each part's include directives; the `#` title is dropped and
/// parts with neither title, text nor includes are left out.
pub fn book_sections(content: &str) -> (r: Vec<BookSection>)
    ensures
        book_section_views(r@) == book_parts(content@),
{
    let ls = split_lines(chars_of(content).as_slice());
    let ghost lv = views(ls@);
    let h1 = chars_of("# ");
    let h2 = chars_of("## ");
    proof {
        reveal_strlit("# ");
        reveal_strlit("## ");
    }
    let mut done: Vec<BookSection> = Vec::new();
    let mut title: Vec<char> = Vec::new();
    let mut text: Vec<char> = Vec::new();
    let mut includes: Vec<String> = Vec::new();
    let mut i: usize = 0;
    assert(book_section_views(done@) =~= Seq::<SectionV>::empty());
    assert(crate::text::strs(includes@) =~= Seq::<Seq<char>>::empty());
    while i < ls.len()
        invariant
            i <= ls@.len(),
            lv == views(ls@),
            lv == lines(content@),
            h1@ == "# "@,
            h2@ == "## "@,
            part_run(lv, i as int) == (
                book_section_views(done@),
                SectionV { title: title@, content: text@, includes: crate::text::strs(includes@) },
            ),
        decreases ls@.len() - i,
    {
        let l = &ls[i];
        assert(lv[i as int] == l@);
        proof {
            reveal_strlit("# ");
            reveal_strlit("## ");
        }
        if starts_with(l.as_slice(), h1.as_slice()) {
        } else if starts_with(l.as_slice(), h2.as_slice()) {
            keep_section(&mut done, &title, &text, &includes);
            let rest = slice_copy(l.as_slice(), 3, l.len());
            assert(rest@ =~= l@.skip(3));
            title = trimmed(rest.as_slice());
            text = Vec::new();
            includes = Vec::new();
            assert(crate::text::strs(includes@) =~= Seq::<Seq<char>>::empty());
        } else {
            match include_target_exec(l.as_slice()) {
                Some(t) => {
                    let s = string_of(t.as_slice());
                    proof {
                        crate::text::lemma_strs_push(includes@, s);
                    }
                    includes.push(s);
                },
                None => {
                    push_all(&mut text, l.as_slice());
                    text.push('\n');
                },
            }
        }
        i += 1;
        proof {
            let nr = part_run(lv, i as int);
            assert(nr.0 =~= book_section_views(done@));
            assert(nr.1.title =~= title@);
            assert(nr.1.content =~= text@);
            assert(nr.1.includes =~= crate::text::strs(includes@));
        }
    }
    keep_section(&mut done, &title, &text, &includes);
    done
}

/// The file name of a part's page: its title's slug, or `index`.
pub open spec fn part_file(title: Seq<char>) -> Seq<char> {
    let s = slug(lowercase(title));
    if s.len() == 0 {
        "index.md"@
    } else {
        s + ".md"@
    }
}

/// The page of a part: its title as heading, then its text when it has any.
pub open spec fn part_page(s: SectionV) -> Seq<char> {
    let t = trim(s.content);
    if t.len() == 0 {
        "# "@ + s.title + "\n"@
    } else {
        "# "@ + s.title + "\n\n"@ + t + "\n"@
    }
}

/// The table-of-contents line of a part.
pub open spec fn part_entry(s: SectionV) -> Seq<char> {
    let label = if s.title.len() == 0 { "Introduction"@ } else { s.title };
    "- ["@ + label + "]("@ + part_file(s.title) + ")\n"@
}

/// The file name, page text and table-of-contents line of a part.
pub fn section_page(section: &BookSection) -> (r: (String, String, String))
    ensures
        r.0@ == part_file(section@.title),
        r.1@ == part_page(section@),
        r.2@ == part_entry(section@),
{
    let s = slugify(section.title.as_str());
    let mut file = chars_of_string(&s);
    if file.len() == 0 {
        file = chars_of("index.md");
    } else {
        push_str(&mut file, ".md");
    }
    let t = trimmed(chars_of_string(&section.content).as_slice());
    let mut page = chars_of("# ");
    push_str(&mut page, section.title.as_str());
    if t.len() == 0 {
        push_str(&mut page, "\n");
    } else {
        push_str(&mut page, "\n\n");
        push_all(&mut page, t.as_slice());
        push_str(&mut page, "\n");
    }
    let mut entry = chars_of("- [");
    if section.title.as_str().is_empty() {
        push_str(&mut entry, "Introduction");
    } else {
        push_str(&mut entry, section.title.as_str());
    }
    push_str(&mut entry, "](");
    push_all(&mut entry, file.as_slice());
    push_str(&mut entry, ")\n");
    (string_of(file.as_slice()), string_of(page.as_slice()), string_of(entry.as_slice()))
}

/// The page of an included file (definition headings rendered, its first
/// heading promoted) and its nested table-of-contents line, titled by its
/// first heading or else by `fallback_title`.
pub fn included_page(content: &str, fallback_title: &str, file_name: &str) -> (r: (String, String))
    ensures
        r.0@ == promoted_page(join(book_lines(lines(content@)), "\n"@)),
        r.1@ == "  - ["@ + (match title_from(lines(content@), 0) {
            Some(t) => t,
            None => fallback_title@,
        }) + "]("@ + file_name@ + ")\n"@,
{
    let rendered = render_mdbook_content(content);
    let page = promote_first_heading(rendered.as_str());
    let title = match extract_chapter_title(content) {
        Some(t) => t,
        None => fallback_title.to_owned(),
    };
    let mut entry = chars_of("  - [");
    push_str(&mut entry, title.as_str());
    push_str(&mut entry, "](");
    push_str(&mut entry, file_name);
    push_str(&mut entry, ")\n");
    (page, string_of(entry.as_slice()))
}

// ---------------------------------------------------------------------------
// Chapters from headings
// ---------------------------------------------------------------------------

/// One line of the split by headings: `##` starts a chapter whose page
/// begins with the title as `#` heading; the `#` title is skipped; other
/// lines are rendered into the current chapter.
pub open spec fn chapter_step(
    st: (Seq<(Seq<char>, Seq<char>)>, Seq<char>, Seq<char>),
    l: Seq<char>,
) -> (Seq<(Seq<char>, Seq<char>)>, Seq<char>, Seq<char>) {
    let (done, title, text) = st;
    if has_prefix(l, "## "@) {
        let t = trim(l.skip(3));
        (
            if title.len() > 0 || trim(text).len() > 0 { done.push((title, text)) } else { done },
            t,
            "# "@ + t + "\n"@,
        )
    } else if has_prefix(l, "# "@) {
        st
    } else {
        (done, title, text + book_line(l) + seq!['\n'])
    }
}

pub open spec fn chapter_run(ls: Seq<Seq<char>>, n: int) -> (
    Seq<(Seq<char>, Seq<char>)>,
    Seq<char>,
    Seq<char>,
)
    decreases n,
{
    if n <= 0 {
        (Seq::empty(), Seq::empty(), Seq::empty())
    } else {
        chapter_step(chapter_run(ls, n - 1), ls[n - 1])
    }
}

/// The `(title, page)` chapters of a file split at its `##` headings.
pub open spec fn chapters(content: Seq<char>) -> Seq<(Seq<char>, Seq<char>)> {
    let ls = lines(content);
    let (done, title, text) = chapter_run(ls, ls.len() as int);
    if title.len() > 0 || trim(text).len() > 0 {
        done.push((title, text))
    } else {
        done
    }
}

/// The file name of chapter `i` (from 0): its title's slug, or
/// `chapter-<i+1>`.
pub open spec fn chapter_file(title: Seq<char>, i: nat) -> Seq<char> {
    let s = slug(lowercase(title));
    if s.len() == 0 {
        "chapter-"@ + decimal(i + 1) + ".md"@
    } else {
        s + ".md"@
    }
}

pub open spec fn chapter_label(title: Seq<char>, i: nat) -> Seq<char> {
    if title.len() == 0 {
        "Chapter "@ + decimal(i + 1)
    } else {
        title
    }
}

/// The table of contents of the chapters, one line each.
pub open spec fn chapter_entries(cs: Seq<(Seq<char>, Seq<char>)>, n: int) -> Seq<char>
    decreases n,
{
    if n <= 0 {
        Seq::empty()
    } else {
        chapter_entries(cs, n - 1) + "- ["@ + chapter_label(cs[n - 1].0, (n - 1) as nat) + "]("@
            + chapter_file(cs[n - 1].0, (n - 1) as nat) + ")\n"@
    }
}

pub open spec fn page_views(v: Seq<(String, String)>) -> Seq<(Seq<char>, Seq<char>)> {
    Seq::new(v.len(), |i: int| (v[i].0@, v[i].1@))
}

/// The book pages of a file without include directives, split at its
/// `##` headings, with the text of `SUMMARY.md`. A file without such
/// headings becomes one page named after `stem`.
pub open spec fn heading_book(content: Seq<char>, stem: Seq<char>) -> (
    Seq<(Seq<char>, Seq<char>)>,
    Seq<char>,
) {
    let cs = chapters(content);
    if cs.len() == 0 {
        (
            seq![("chapter-1.md"@, join(book_lines(lines(content)), "\n"@))],
            "# Summary\n\n"@ + "- ["@ + stem + "](chapter-1.md)\n"@,
        )
    } else {
        (
            Seq::new(cs.len(), |i: int| (chapter_file(cs[i].0, i as nat), cs[i].1)),
            "# Summary\n\n"@ + chapter_entries(cs, cs.len() as int),
        )
    }
}

fn split_chapters(content: &str) -> (r: Vec<(Vec<char>, Vec<char>)>)
    ensures
        r@.len() == chapters(content@).len(),
        forall|i: int|
            0 <= i < r@.len() ==> (#[trigger] r@[i].0@, r@[i].1@) == chapters(content@)[i],
{
    let ls = split_lines(chars_of(content).as_slice());
    let ghost lv = views(ls@);
    let h1 = chars_of("# ");
    let h2 = chars_of("## ");
    proof {
        reveal_strlit("# ");
        reveal_strlit("## ");
    }
    let mut done: Vec<(Vec<char>, Vec<char>)> = Vec::new();
    let mut title: Vec<char> = Vec::new();
    let mut text: Vec<char> = Vec::new();
    let mut i: usize = 0;
    while i < ls.len()
        invariant
            i <= ls@.len(),
            lv == views(ls@),
            lv == lines(content@),
            h1@ == "# "@,
            h2@ == "## "@,
            chapter_run(lv, i as int).1 == title@,
            chapter_run(lv, i as int).2 == text@,
            chapter_run(lv, i as int).0.len() == done@.len(),
            forall|k: int|
                0 <= k < done@.len() ==> (#[trigger] done@[k].0@, done@[k].1@) == chapter_run(
                    lv,
                    i as int,
                ).0[k],
        decreases ls@.len() - i,
    {
        let l = &ls[i];
        assert(lv[i as int] == l@);
        proof {
            reveal_strlit("# ");
            reveal_strlit("## ");
        }
        let ghost prev = chapter_run(lv, i as int).0;
        if starts_with(l.as_slice(), h2.as_slice()) {
            if title.len() > 0 || trimmed(text.as_slice()).len() > 0 {
                let t2 = slice_copy(title.as_slice(), 0, title.len());
                let x2 = slice_copy(text.as_slice(), 0, text.len());
                assert(t2@ =~= title@);
                assert(x2@ =~= text@);
                done.push((t2, x2));
            }
            let rest = slice_copy(l.as_slice(), 3, l.len());
            assert(rest@ =~= l@.skip(3));
            title = trimmed(rest.as_slice());
            text = chars_of("# ");
            push_all(&mut text, title.as_slice());
            push_str(&mut text, "\n");
        } else if starts_with(l.as_slice(), h1.as_slice()) {
        } else {
            let r = book_line_exec(l.as_slice());
            push_all(&mut text, r.as_slice());
            text.push('\n');
        }
        i += 1;
        assert forall|k: int| 0 <= k < done@.len() implies (
            #[trigger] done@[k].0@,
            done@[k].1@,
        ) == chapter_run(lv, i as int).0[k] by {
            if k < prev.len() {
            }
        }
    }
    let ghost prev = chapter_run(lv, i as int).0;
    if title.len() > 0 || trimmed(text.as_slice()).len() > 0 {
        done.push((title, text));
    }
    assert forall|k: int| 0 <= k < done@.len() implies (
        #[trigger] done@[k].0@,
        done@[k].1@,
    ) == chapters(content@)[k] by {
        if k < prev.len() {
        }
    }
    done
}

/// The book pages `(file name, text)` of a file without include
/// directives, split at its `##` headings, and the text of `SUMMARY.md`.
pub fn heading_pages(md_content: &str, stem: &str) -> (r: (Vec<(String, String)>, String))
    ensures
        (page_views(r.0@), r.1@) == heading_book(md_content@, stem@),
{
    let cs = split_chapters(md_content);
    let ghost cv = chapters(md_content@);
    let mut summary = chars_of("# Summary\n\n");
    let mut pages: Vec<(String, String)> = Vec::new();
    if cs.len() == 0 {
        let rendered = render_mdbook_content(md_content);
        pages.push((string_of(chars_of("chapter-1.md").as_slice()), rendered));
        push_str(&mut summary, "- [");
        push_str(&mut summary, stem);
        push_str(&mut summary, "](chapter-1.md)\n");
        assert(page_views(pages@) =~= heading_book(md_content@, stem@).0);
        return (pages, string_of(summary.as_slice()));
    }
    let ghost start = summary@;
    let mut i: usize = 0;
    while i < cs.len()
        invariant
            i <= cs@.len() == cv.len(),
            cv == chapters(md_content@),
            forall|k: int| 0 <= k < cs@.len() ==> (#[trigger] cs@[k].0@, cs@[k].1@) == cv[k],
            start == "# Summary\n\n"@,
            summary@ == start + chapter_entries(cv, i as int),
            page_views(pages@) == Seq::new(
                i as nat,
                |k: int| (chapter_file(cv[k].0, k as nat), cv[k].1),
            ),
        decreases cs@.len() - i,
    {
        let (title, text) = (&cs[i].0, &cs[i].1);
        assert((title@, text@) == cv[i as int]);
        let s = slugify(string_of(title.as_slice()).as_str());
        let mut file: Vec<char>;
        let mut label: Vec<char>;
        if s.as_str().is_empty() {
            file = chars_of("chapter-");
            push_decimal(&mut file, i + 1);
            push_str(&mut file, ".md");
        } else {
            file = chars_of_string(&s);
            push_str(&mut file, ".md");
        }
        if title.len() == 0 {
            label = chars_of("Chapter ");
            push_decimal(&mut label, i + 1);
        } else {
            label = slice_copy(title.as_slice(), 0, title.len());
            assert(label@ =~= title@);
        }
        push_str(&mut summary, "- [");
        push_all(&mut summary, label.as_slice());
        push_str(&mut summary, "](");
        push_all(&mut summary, file.as_slice());
        push_str(&mut summary, ")\n");
        let ghost op = page_views(pages@);
        assert(file@ == chapter_file(cv[i as int].0, i as nat));
        let page = (string_of(file.as_slice()), string_of(text.as_slice()));
        pages.push(page);
        assert(page_views(pages@) =~= op.push((file@, text@)));
        i += 1;
        assert(page_views(pages@) =~= Seq::new(
            i as nat,
            |k: int| (chapter_file(cv[k].0, k as nat), cv[k].1),
        ));
    }
    (pages, string_of(summary.as_slice()))
}

} // verus!
