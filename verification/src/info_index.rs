//! Help-system indexes for GNU Info files: locating entries in the files'
//! bytes and rendering the index as Lisp for Maxima's `?` and `??` commands.
use vstd::prelude::*;
use crate::info_scan::{decimal_run_end, decimal_run_end_exec};
use crate::text::{
    lemma_lines_terminated, lemma_no_newline_concat, lemma_terminated_append, lines, no_newline,
    plain_line, terminated,
};
use crate::text::{
    chars_of, chars_of_string, lemma_utf8_len_take, lt_chars, next_char, pieces, push_all,
    push_char, push_str, seq_lt, slice_copy, split_at_char, string_of, utf8_len, utf8_len_exec,
    utf8_width, utf8_width_exec,
};

verus! {

/// A single function/variable documentation entry.
#[derive(Debug)]
pub struct DeffnEntry {
    pub topic: String,
    pub filename: String,
    pub byte_offset: usize,
    pub char_length: usize,
    pub node_name: String,
}

/// A single section heading entry.
#[derive(Debug)]
pub struct SectionEntry {
    pub title: String,
    pub filename: String,
    pub byte_offset: usize,
    pub char_length: usize,
}

/// A complete info index, ready to render as Lisp.
#[derive(Debug)]
pub struct InfoIndex {
    pub deffn_defvr_entries: Vec<DeffnEntry>,
    pub section_entries: Vec<SectionEntry>,
}

// ---------------------------------------------------------------------------
// Decimal numbers and Lisp strings
// ---------------------------------------------------------------------------

pub open spec fn digit_char(d: nat) -> char {
    if d == 0 {
        '0'
    } else if d == 1 {
        '1'
    } else if d == 2 {
        '2'
    } else if d == 3 {
        '3'
    } else if d == 4 {
        '4'
    } else if d == 5 {
        '5'
    } else if d == 6 {
        '6'
    } else if d == 7 {
        '7'
    } else if d == 8 {
        '8'
    } else {
        '9'
    }
}

/// The decimal representation of `n`, without leading zeros.
pub open spec fn decimal(n: nat) -> Seq<char>
    decreases n,
{
    if n < 10 {
        seq![digit_char(n)]
    } else {
        decimal(n / 10).push(digit_char(n % 10))
    }
}

fn digit_char_exec(d: usize) -> (c: char)
    requires
        d < 10,
    ensures
        c == digit_char(d as nat),
{
    if d == 0 {
        '0'
    } else if d == 1 {
        '1'
    } else if d == 2 {
        '2'
    } else if d == 3 {
        '3'
    } else if d == 4 {
        '4'
    } else if d == 5 {
        '5'
    } else if d == 6 {
        '6'
    } else if d == 7 {
        '7'
    } else if d == 8 {
        '8'
    } else {
        '9'
    }
}

/// Appends the decimal representation of `n`.
pub fn push_decimal(out: &mut Vec<char>, n: usize)
    ensures
        final(out)@ == old(out)@ + decimal(n as nat),
    decreases n,
{
    if n >= 10 {
        push_decimal(out, n / 10);
    }
    push_char(out, digit_char_exec(n % 10));
}

/// `s` with every `"` preceded by a backslash.
pub open spec fn escaped(s: Seq<char>) -> Seq<char>
    decreases s.len(),
{
    if s.len() == 0 {
        Seq::empty()
    } else {
        escaped(s.drop_last()) + if s.last() == '"' {
            seq!['\\', '"']
        } else {
            seq![s.last()]
        }
    }
}

fn push_escaped(out: &mut Vec<char>, s: &str)
    ensures
        final(out)@ == old(out)@ + escaped(s@),
{
    let c = chars_of(s);
    let ghost o = out@;
    let mut i: usize = 0;
    while i < c.len()
        invariant
            i <= c@.len(),
            c@ == s@,
            out@ == o + escaped(s@.take(i as int)),
        decreases c@.len() - i,
    {
        assert(s@.take(i + 1).drop_last() =~= s@.take(i as int));
        if c[i] == '"' {
            out.push('\\');
            out.push('"');
        } else {
            out.push(c[i]);
        }
        i += 1;
        assert(out@ =~= o + escaped(s@.take(i as int)));
    }
    assert(s@.take(c@.len() as int) =~= s@);
}

/// Escapes a string for Lisp output: double quotes become `\"`.
pub fn escape_lisp_string(s: &str) -> (r: String)
    ensures
        r@ == escaped(s@),
{
    let mut out: Vec<char> = Vec::new();
    push_escaped(&mut out, s);
    string_of(out.as_slice())
}

// ---------------------------------------------------------------------------
// Rendering
// ---------------------------------------------------------------------------

pub struct DeffnV {
    pub topic: Seq<char>,
    pub filename: Seq<char>,
    pub byte_offset: usize,
    pub char_length: usize,
    pub node_name: Seq<char>,
}

pub struct SectionV {
    pub title: Seq<char>,
    pub filename: Seq<char>,
    pub byte_offset: usize,
    pub char_length: usize,
}

impl View for DeffnEntry {
    type V = DeffnV;

    open spec fn view(&self) -> DeffnV {
        DeffnV {
            topic: self.topic@,
            filename: self.filename@,
            byte_offset: self.byte_offset,
            char_length: self.char_length,
            node_name: self.node_name@,
        }
    }
}

impl View for SectionEntry {
    type V = SectionV;

    open spec fn view(&self) -> SectionV {
        SectionV {
            title: self.title@,
            filename: self.filename@,
            byte_offset: self.byte_offset,
            char_length: self.char_length,
        }
    }
}

pub open spec fn deffn_views(v: Seq<DeffnEntry>) -> Seq<DeffnV> {
    Seq::new(v.len(), |i: int| v[i]@)
}

pub open spec fn section_views(v: Seq<SectionEntry>) -> Seq<SectionV> {
    Seq::new(v.len(), |i: int| v[i]@)
}

/// `e` inserted before the first entry whose topic sorts after its own.
pub open spec fn insert_deffn(acc: Seq<DeffnV>, e: DeffnV) -> Seq<DeffnV>
    decreases acc.len(),
{
    if acc.len() == 0 {
        seq![e]
    } else if seq_lt(e.topic, acc[0].topic) {
        seq![e] + acc
    } else {
        seq![acc[0]] + insert_deffn(acc.skip(1), e)
    }
}

/// The first `n` entries sorted by topic; entries of equal topics keep
/// their order.
pub open spec fn sorted_deffns(v: Seq<DeffnV>, n: int) -> Seq<DeffnV>
    decreases n,
{
    if n <= 0 {
        Seq::empty()
    } else {
        insert_deffn(sorted_deffns(v, n - 1), v[n - 1])
    }
}

/// `e` inserted before the first section whose title sorts after its own.
pub open spec fn insert_section(acc: Seq<SectionV>, e: SectionV) -> Seq<SectionV>
    decreases acc.len(),
{
    if acc.len() == 0 {
        seq![e]
    } else if seq_lt(e.title, acc[0].title) {
        seq![e] + acc
    } else {
        seq![acc[0]] + insert_section(acc.skip(1), e)
    }
}

/// The first `n` sections sorted by title; sections of equal titles keep
/// their order.
pub open spec fn sorted_sections(v: Seq<SectionV>, n: int) -> Seq<SectionV>
    decreases n,
{
    if n <= 0 {
        Seq::empty()
    } else {
        insert_section(sorted_sections(v, n - 1), v[n - 1])
    }
}

/// `("topic" . ("file" offset length "node"))`
pub open spec fn deffn_line(e: DeffnV) -> Seq<char> {
    "(\""@ + escaped(e.topic) + "\" . (\""@ + escaped(e.filename) + "\" "@ + decimal(
        e.byte_offset as nat,
    ) + " "@ + decimal(e.char_length as nat) + " \""@ + escaped(e.node_name) + "\"))\n"@
}

/// `("title" . ("file" offset length))`
pub open spec fn section_line(e: SectionV) -> Seq<char> {
    "(\""@ + escaped(e.title) + "\" . (\""@ + escaped(e.filename) + "\" "@ + decimal(
        e.byte_offset as nat,
    ) + " "@ + decimal(e.char_length as nat) + "))\n"@
}

pub open spec fn deffn_lines(v: Seq<DeffnV>, n: int) -> Seq<char>
    decreases n,
{
    if n <= 0 {
        Seq::empty()
    } else {
        deffn_lines(v, n - 1) + deffn_line(v[n - 1])
    }
}

pub open spec fn section_lines(v: Seq<SectionV>, n: int) -> Seq<char>
    decreases n,
{
    if n <= 0 {
        Seq::empty()
    } else {
        section_lines(v, n - 1) + section_line(v[n - 1])
    }
}

/// Where Maxima finds the info files: the install path, or the directory
/// the index is loaded from.
pub open spec fn dir_expr(install_path: Option<Seq<char>>) -> Seq<char> {
    match install_path {
        Some(p) => "#p\""@ + p + "\""@,
        None => "(maxima::maxima-load-pathname-directory)"@,
    }
}

pub open spec fn deffn_header() -> Seq<char> {
    "(in-package :cl-info)\n(let (\n(deffn-defvr-pairs '(\n; CONTENT: (<INDEX TOPIC> . (<FILENAME> <BYTE OFFSET> <LENGTH IN CHARACTERS> <NODE NAME>))\n"@
}

pub open spec fn section_header() -> Seq<char> {
    "))\n(section-pairs '(\n; CONTENT: (<NODE NAME> . (<FILENAME> <BYTE OFFSET> <LENGTH IN CHARACTERS>))\n"@
}

/// The Lisp text of an index: both tables sorted by name, then the call
/// that loads them.
pub open spec fn lisp_text(
    deffns: Seq<DeffnV>,
    sections: Seq<SectionV>,
    install_path: Option<Seq<char>>,
) -> Seq<char> {
    let d = sorted_deffns(deffns, deffns.len() as int);
    let s = sorted_sections(sections, sections.len() as int);
    deffn_header() + deffn_lines(d, d.len() as int) + section_header() + section_lines(
        s,
        s.len() as int,
    ) + ")))\n"@ + "(load-info-hashtables "@ + dir_expr(install_path)
        + " deffn-defvr-pairs section-pairs))\n"@
}

/// The line of a topic in the Lisp index, without its newline.
pub open spec fn deffn_text(e: DeffnV) -> Seq<char> {
    "(\""@ + escaped(e.topic) + "\" . (\""@ + escaped(e.filename) + "\" "@ + decimal(
        e.byte_offset as nat,
    ) + " "@ + decimal(e.char_length as nat) + " \""@ + escaped(e.node_name) + "\"))"@
}

/// The line of a section in the Lisp index, without its newline.
pub open spec fn section_text(e: SectionV) -> Seq<char> {
    "(\""@ + escaped(e.title) + "\" . (\""@ + escaped(e.filename) + "\" "@ + decimal(
        e.byte_offset as nat,
    ) + " "@ + decimal(e.char_length as nat) + "))"@
}

/// The lines of the Lisp index: the package line and the opening of the
/// topic table with its comment line, one line per topic (sorted by topic,
/// stably), the closing of that table and the opening of the section table
/// with its comment line, one line per section (sorted by title, stably),
/// then the closing line and the call that loads both tables.
pub open spec fn lisp_lines(
    deffns: Seq<DeffnV>,
    sections: Seq<SectionV>,
    install_path: Option<Seq<char>>,
) -> Seq<Seq<char>> {
    let d = sorted_deffns(deffns, deffns.len() as int);
    let s = sorted_sections(sections, sections.len() as int);
    seq![
        "(in-package :cl-info)"@,
        "(let ("@,
        "(deffn-defvr-pairs '("@,
        "; CONTENT: (<INDEX TOPIC> . (<FILENAME> <BYTE OFFSET> <LENGTH IN CHARACTERS> <NODE NAME>))"@,
    ] + Seq::new(d.len(), |i: int| deffn_text(d[i])) + seq![
        "))"@,
        "(section-pairs '("@,
        "; CONTENT: (<NODE NAME> . (<FILENAME> <BYTE OFFSET> <LENGTH IN CHARACTERS>))"@,
    ] + Seq::new(s.len(), |i: int| section_text(s[i])) + seq![
        ")))"@,
        "(load-info-hashtables "@ + dir_expr(install_path) + " deffn-defvr-pairs section-pairs))"@,
    ]
}

proof fn lemma_escaped_no_newline(s: Seq<char>)
    requires
        no_newline(s),
    ensures
        no_newline(escaped(s)),
    decreases s.len(),
{
    if s.len() > 0 {
        assert forall|k: int| 0 <= k < s.drop_last().len() implies #[trigger] s.drop_last()[k] != '\n' by {
            assert(s.drop_last()[k] == s[k]);
        }
        lemma_escaped_no_newline(s.drop_last());
        let t = if s.last() == '"' { seq!['\\', '"'] } else { seq![s.last()] };
        assert(s[s.len() - 1] != '\n');
        lemma_no_newline_concat(escaped(s.drop_last()), t);
    }
}

proof fn lemma_decimal_no_newline(n: nat)
    ensures
        no_newline(decimal(n)),
    decreases n,
{
    if n >= 10 {
        lemma_decimal_no_newline(n / 10);
        lemma_no_newline_concat(decimal(n / 10), seq![digit_char(n % 10)]);
        assert(decimal(n) =~= decimal(n / 10) + seq![digit_char(n % 10)]);
    }
}

proof fn lemma_deffn_text_plain(e: DeffnV)
    requires
        no_newline(e.topic),
        no_newline(e.filename),
        no_newline(e.node_name),
    ensures
        plain_line(deffn_text(e)),
        deffn_line(e) == deffn_text(e) + "\n"@,
{
    reveal_strlit("(\"");
    reveal_strlit("\" . (\"");
    reveal_strlit("\" ");
    reveal_strlit(" ");
    reveal_strlit(" \"");
    reveal_strlit("\"))");
    reveal_strlit("\"))\n");
    reveal_strlit("\n");
    lemma_escaped_no_newline(e.topic);
    lemma_escaped_no_newline(e.filename);
    lemma_escaped_no_newline(e.node_name);
    lemma_decimal_no_newline(e.byte_offset as nat);
    lemma_decimal_no_newline(e.char_length as nat);
    let p1 = "(\""@ + escaped(e.topic);
    lemma_no_newline_concat("(\""@, escaped(e.topic));
    let p2 = p1 + "\" . (\""@;
    lemma_no_newline_concat(p1, "\" . (\""@);
    let p3 = p2 + escaped(e.filename);
    lemma_no_newline_concat(p2, escaped(e.filename));
    let p4 = p3 + "\" "@;
    lemma_no_newline_concat(p3, "\" "@);
    let p5 = p4 + decimal(e.byte_offset as nat);
    lemma_no_newline_concat(p4, decimal(e.byte_offset as nat));
    let p6 = p5 + " "@;
    lemma_no_newline_concat(p5, " "@);
    let p7 = p6 + decimal(e.char_length as nat);
    lemma_no_newline_concat(p6, decimal(e.char_length as nat));
    let p8 = p7 + " \""@;
    lemma_no_newline_concat(p7, " \""@);
    let p9 = p8 + escaped(e.node_name);
    lemma_no_newline_concat(p8, escaped(e.node_name));
    let p10 = p9 + "\"))"@;
    lemma_no_newline_concat(p9, "\"))"@);
    assert(p10 == deffn_text(e));
    assert(p10.last() == ')');
    assert(deffn_line(e) =~= p10 + "\n"@);
}

proof fn lemma_section_text_plain(e: SectionV)
    requires
        no_newline(e.title),
        no_newline(e.filename),
    ensures
        plain_line(section_text(e)),
        section_line(e) == section_text(e) + "\n"@,
{
    reveal_strlit("(\"");
    reveal_strlit("\" . (\"");
    reveal_strlit("\" ");
    reveal_strlit(" ");
    reveal_strlit("))");
    reveal_strlit("))\n");
    reveal_strlit("\n");
    lemma_escaped_no_newline(e.title);
    lemma_escaped_no_newline(e.filename);
    lemma_decimal_no_newline(e.byte_offset as nat);
    lemma_decimal_no_newline(e.char_length as nat);
    let p1 = "(\""@ + escaped(e.title);
    lemma_no_newline_concat("(\""@, escaped(e.title));
    let p2 = p1 + "\" . (\""@;
    lemma_no_newline_concat(p1, "\" . (\""@);
    let p3 = p2 + escaped(e.filename);
    lemma_no_newline_concat(p2, escaped(e.filename));
    let p4 = p3 + "\" "@;
    lemma_no_newline_concat(p3, "\" "@);
    let p5 = p4 + decimal(e.byte_offset as nat);
    lemma_no_newline_concat(p4, decimal(e.byte_offset as nat));
    let p6 = p5 + " "@;
    lemma_no_newline_concat(p5, " "@);
    let p7 = p6 + decimal(e.char_length as nat);
    lemma_no_newline_concat(p6, decimal(e.char_length as nat));
    let p8 = p7 + "))"@;
    lemma_no_newline_concat(p7, "))"@);
    assert(p8 == section_text(e));
    assert(p8.last() == ')');
    assert(section_line(e) =~= p8 + "\n"@);
}

proof fn lemma_deffn_lines_terminated(d: Seq<DeffnV>, n: int)
    requires
        0 <= n <= d.len(),
        forall|k: int|
            0 <= k < d.len() ==> no_newline((#[trigger] d[k]).topic) && no_newline(d[k].filename)
                && no_newline(d[k].node_name),
    ensures
        deffn_lines(d, n) == terminated(Seq::new(n as nat, |i: int| deffn_text(d[i]))),
    decreases n,
{
    if n > 0 {
        lemma_deffn_lines_terminated(d, n - 1);
        lemma_deffn_text_plain(d[n - 1]);
        let ls = Seq::new(n as nat, |i: int| deffn_text(d[i]));
        assert(ls.drop_last() =~= Seq::new((n - 1) as nat, |i: int| deffn_text(d[i])));
        assert(deffn_lines(d, n) =~= terminated(ls));
    } else {
        assert(Seq::new(0nat, |i: int| deffn_text(d[i])) =~= Seq::<Seq<char>>::empty());
    }
}

proof fn lemma_section_lines_terminated(v: Seq<SectionV>, n: int)
    requires
        0 <= n <= v.len(),
        forall|k: int| 0 <= k < v.len() ==> no_newline((#[trigger] v[k]).title) && no_newline(v[k].filename),
    ensures
        section_lines(v, n) == terminated(Seq::new(n as nat, |i: int| section_text(v[i]))),
    decreases n,
{
    if n > 0 {
        lemma_section_lines_terminated(v, n - 1);
        lemma_section_text_plain(v[n - 1]);
        let ls = Seq::new(n as nat, |i: int| section_text(v[i]));
        assert(ls.drop_last() =~= Seq::new((n - 1) as nat, |i: int| section_text(v[i])));
        assert(section_lines(v, n) =~= terminated(ls));
    } else {
        assert(Seq::new(0nat, |i: int| section_text(v[i])) =~= Seq::<Seq<char>>::empty());
    }
}

proof fn lemma_literal_lines_plain()
    ensures
        plain_line("(in-package :cl-info)"@),
        plain_line("(let ("@),
        plain_line("(deffn-defvr-pairs '("@),
        plain_line("; CONTENT: (<INDEX TOPIC> . (<FILENAME> <BYTE OFFSET> <LENGTH IN CHARACTERS> <NODE NAME>))"@),
        plain_line("))"@),
        plain_line("(section-pairs '("@),
        plain_line("; CONTENT: (<NODE NAME> . (<FILENAME> <BYTE OFFSET> <LENGTH IN CHARACTERS>))"@),
        plain_line(")))"@),
{
    reveal_strlit("(in-package :cl-info)");
    reveal_strlit("(let (");
    reveal_strlit("(deffn-defvr-pairs '(");
    reveal_strlit("; CONTENT: (<INDEX TOPIC> . (<FILENAME> <BYTE OFFSET> <LENGTH IN CHARACTERS> <NODE NAME>))");
    reveal_strlit("))");
    reveal_strlit("(section-pairs '(");
    reveal_strlit("; CONTENT: (<NODE NAME> . (<FILENAME> <BYTE OFFSET> <LENGTH IN CHARACTERS>))");
    reveal_strlit(")))");
}

proof fn lemma_load_line_plain(install_path: Option<Seq<char>>)
    requires
        install_path matches Some(p) ==> no_newline(p),
    ensures
        plain_line("(load-info-hashtables "@ + dir_expr(install_path) + " deffn-defvr-pairs section-pairs))"@),
{
    reveal_strlit("(load-info-hashtables ");
    reveal_strlit(" deffn-defvr-pairs section-pairs))");
    reveal_strlit("#p\"");
    reveal_strlit("\"");
    reveal_strlit("(maxima::maxima-load-pathname-directory)");
    match install_path {
        Some(p) => {
            lemma_no_newline_concat("#p\""@, p);
            lemma_no_newline_concat("#p\""@ + p, "\""@);
        },
        None => {},
    }
    let a = "(load-info-hashtables "@;
    let b = " deffn-defvr-pairs section-pairs))"@;
    lemma_no_newline_concat(a, dir_expr(install_path));
    lemma_no_newline_concat(a + dir_expr(install_path), b);
    assert((a + dir_expr(install_path) + b).last() == ')');
}

proof fn lemma_sorted_deffns_members(v: Seq<DeffnV>)
    ensures
        forall|k: int|
            0 <= k < sorted_deffns(v, v.len() as int).len() ==> v.contains(
                #[trigger] sorted_deffns(v, v.len() as int)[k],
            ),
{
    let d = sorted_deffns(v, v.len() as int);
    lemma_sorted_deffns(v, v.len() as int);
    assert(v.take(v.len() as int) =~= v);
    d.to_multiset_ensures();
    v.to_multiset_ensures();
    assert forall|k: int| 0 <= k < d.len() implies v.contains(#[trigger] d[k]) by {
        assert(d.contains(d[k]));
        assert(d.to_multiset().count(d[k]) > 0);
        assert(v.to_multiset().count(d[k]) > 0);
    }
}

proof fn lemma_sorted_sections_members(v: Seq<SectionV>)
    ensures
        forall|k: int|
            0 <= k < sorted_sections(v, v.len() as int).len() ==> v.contains(
                #[trigger] sorted_sections(v, v.len() as int)[k],
            ),
{
    let d = sorted_sections(v, v.len() as int);
    lemma_sorted_sections(v, v.len() as int);
    assert(v.take(v.len() as int) =~= v);
    d.to_multiset_ensures();
    v.to_multiset_ensures();
    assert forall|k: int| 0 <= k < d.len() implies v.contains(#[trigger] d[k]) by {
        assert(d.contains(d[k]));
        assert(d.to_multiset().count(d[k]) > 0);
        assert(v.to_multiset().count(d[k]) > 0);
    }
}

/// The fields of the index hold no newline.
pub open spec fn lisp_fields_plain(
    deffns: Seq<DeffnV>,
    sections: Seq<SectionV>,
    install_path: Option<Seq<char>>,
) -> bool {
    &&& forall|k: int|
        0 <= k < deffns.len() ==> no_newline((#[trigger] deffns[k]).topic) && no_newline(
            deffns[k].filename,
        ) && no_newline(deffns[k].node_name)
    &&& forall|k: int|
        0 <= k < sections.len() ==> no_newline((#[trigger] sections[k]).title) && no_newline(
            sections[k].filename,
        )
    &&& install_path matches Some(p) ==> no_newline(p)
}

proof fn lemma_sorted_fields_plain(deffns: Seq<DeffnV>, sections: Seq<SectionV>, install_path: Option<Seq<char>>)
    requires
        lisp_fields_plain(deffns, sections, install_path),
    ensures
        lisp_fields_plain(
            sorted_deffns(deffns, deffns.len() as int),
            sorted_sections(sections, sections.len() as int),
            install_path,
        ),
{
    let d = sorted_deffns(deffns, deffns.len() as int);
    let s = sorted_sections(sections, sections.len() as int);
    lemma_sorted_deffns_members(deffns);
    lemma_sorted_sections_members(sections);
    assert forall|k: int| 0 <= k < d.len() implies no_newline((#[trigger] d[k]).topic) && no_newline(
        d[k].filename,
    ) && no_newline(d[k].node_name) by {
        assert(deffns.contains(d[k]));
    }
    assert forall|k: int| 0 <= k < s.len() implies no_newline((#[trigger] s[k]).title) && no_newline(
        s[k].filename,
    ) by {
        assert(sections.contains(s[k]));
    }
}

proof fn lemma_lisp_text_terminated(deffns: Seq<DeffnV>, sections: Seq<SectionV>, install_path: Option<Seq<char>>)
    requires
        lisp_fields_plain(deffns, sections, install_path),
    ensures
        lisp_text(deffns, sections, install_path) == terminated(lisp_lines(deffns, sections, install_path)),
{
    let d = sorted_deffns(deffns, deffns.len() as int);
    let s = sorted_sections(sections, sections.len() as int);
    lemma_sorted_fields_plain(deffns, sections, install_path);
    lemma_deffn_lines_terminated(d, d.len() as int);
    lemma_section_lines_terminated(s, s.len() as int);
    let h = seq![
        "(in-package :cl-info)"@,
        "(let ("@,
        "(deffn-defvr-pairs '("@,
        "; CONTENT: (<INDEX TOPIC> . (<FILENAME> <BYTE OFFSET> <LENGTH IN CHARACTERS> <NODE NAME>))"@,
    ];
    let dl = Seq::new(d.len(), |i: int| deffn_text(d[i]));
    let m = seq![
        "))"@,
        "(section-pairs '("@,
        "; CONTENT: (<NODE NAME> . (<FILENAME> <BYTE OFFSET> <LENGTH IN CHARACTERS>))"@,
    ];
    let sl = Seq::new(s.len(), |i: int| section_text(s[i]));
    let t = seq![
        ")))"@,
        "(load-info-hashtables "@ + dir_expr(install_path) + " deffn-defvr-pairs section-pairs))"@,
    ];
    lemma_header_terminated();
    lemma_tail_terminated(install_path);
    lemma_terminated_append(h, dl);
    lemma_terminated_append(h + dl, m);
    lemma_terminated_append(h + dl + m, sl);
    lemma_terminated_append(h + dl + m + sl, t);
    assert(lisp_text(deffns, sections, install_path) =~= terminated(h + dl + m + sl + t));
}

proof fn lemma_header_terminated()
    ensures
        deffn_header() == terminated(
            seq![
                "(in-package :cl-info)"@,
                "(let ("@,
                "(deffn-defvr-pairs '("@,
                "; CONTENT: (<INDEX TOPIC> . (<FILENAME> <BYTE OFFSET> <LENGTH IN CHARACTERS> <NODE NAME>))"@,
            ],
        ),
        section_header() == terminated(
            seq![
                "))"@,
                "(section-pairs '("@,
                "; CONTENT: (<NODE NAME> . (<FILENAME> <BYTE OFFSET> <LENGTH IN CHARACTERS>))"@,
            ],
        ),
{
    let h = seq![
        "(in-package :cl-info)"@,
        "(let ("@,
        "(deffn-defvr-pairs '("@,
        "; CONTENT: (<INDEX TOPIC> . (<FILENAME> <BYTE OFFSET> <LENGTH IN CHARACTERS> <NODE NAME>))"@,
    ];
    let m = seq![
        "))"@,
        "(section-pairs '("@,
        "; CONTENT: (<NODE NAME> . (<FILENAME> <BYTE OFFSET> <LENGTH IN CHARACTERS>))"@,
    ];
    reveal_strlit("(in-package :cl-info)\n(let (\n(deffn-defvr-pairs '(\n; CONTENT: (<INDEX TOPIC> . (<FILENAME> <BYTE OFFSET> <LENGTH IN CHARACTERS> <NODE NAME>))\n");
    reveal_strlit("(in-package :cl-info)");
    reveal_strlit("(let (");
    reveal_strlit("(deffn-defvr-pairs '(");
    reveal_strlit("; CONTENT: (<INDEX TOPIC> . (<FILENAME> <BYTE OFFSET> <LENGTH IN CHARACTERS> <NODE NAME>))");
    reveal_strlit("))\n(section-pairs '(\n; CONTENT: (<NODE NAME> . (<FILENAME> <BYTE OFFSET> <LENGTH IN CHARACTERS>))\n");
    reveal_strlit("))");
    reveal_strlit("(section-pairs '(");
    reveal_strlit("; CONTENT: (<NODE NAME> . (<FILENAME> <BYTE OFFSET> <LENGTH IN CHARACTERS>))");
    reveal_strlit("\n");
    reveal_with_fuel(terminated, 5);
    assert(h.drop_last().drop_last().drop_last().drop_last() =~= Seq::<Seq<char>>::empty());
    assert(m.drop_last().drop_last().drop_last() =~= Seq::<Seq<char>>::empty());
    assert(deffn_header() =~= terminated(h));
    assert(section_header() =~= terminated(m));
}

proof fn lemma_tail_terminated(install_path: Option<Seq<char>>)
    ensures
        ")))\n"@ + "(load-info-hashtables "@ + dir_expr(install_path) + " deffn-defvr-pairs section-pairs))\n"@
            == terminated(
            seq![
                ")))"@,
                "(load-info-hashtables "@ + dir_expr(install_path) + " deffn-defvr-pairs section-pairs))"@,
            ],
        ),
{
    let t = seq![
        ")))"@,
        "(load-info-hashtables "@ + dir_expr(install_path) + " deffn-defvr-pairs section-pairs))"@,
    ];
    reveal_strlit(")))\n");
    reveal_strlit(")))");
    reveal_strlit(" deffn-defvr-pairs section-pairs))\n");
    reveal_strlit(" deffn-defvr-pairs section-pairs))");
    reveal_strlit("\n");
    reveal_with_fuel(terminated, 3);
    assert(t.drop_last().drop_last() =~= Seq::<Seq<char>>::empty());
    assert(")))\n"@ + "(load-info-hashtables "@ + dir_expr(install_path) + " deffn-defvr-pairs section-pairs))\n"@
        =~= terminated(t));
}

proof fn lemma_lisp_lines_plain(deffns: Seq<DeffnV>, sections: Seq<SectionV>, install_path: Option<Seq<char>>)
    requires
        lisp_fields_plain(deffns, sections, install_path),
    ensures
        forall|k: int|
            0 <= k < lisp_lines(deffns, sections, install_path).len() ==> plain_line(
                #[trigger] lisp_lines(deffns, sections, install_path)[k],
            ),
{
    let d = sorted_deffns(deffns, deffns.len() as int);
    let s = sorted_sections(sections, sections.len() as int);
    lemma_sorted_fields_plain(deffns, sections, install_path);
    let all = lisp_lines(deffns, sections, install_path);
    lemma_literal_lines_plain();
    lemma_load_line_plain(install_path);
    assert forall|k: int| 0 <= k < all.len() implies plain_line(#[trigger] all[k]) by {
        let b = 4 + d.len();
        let c = b + 3;
        let e = c + s.len();
        if 4 <= k < b {
            lemma_deffn_text_plain(d[k - 4]);
        } else if c <= k < e {
            lemma_section_text_plain(s[k - c]);
        }
    }
}

/// What `render_lisp` writes, line by line (its text is `lisp_text`): when
/// no topic, title, file name or node name, nor the install path, holds a
/// newline, the text splits into exactly `lisp_lines`: the package line
/// `(in-package :cl-info)` and the opening of the topic table, its comment
/// line, then one line per topic, sorted by topic (stably, as
/// `lemma_sorted_deffns_stable` states), each
/// `("topic" . ("file" offset length "node"))` with the strings escaped;
/// the table's closing `))`, the opening of the section table and its
/// comment line, one line per section sorted by title (stably, as
/// `lemma_sorted_sections_stable` states); then `)))` and the call that
/// loads both tables.
pub proof fn lemma_render_lisp_lines(
    deffns: Seq<DeffnV>,
    sections: Seq<SectionV>,
    install_path: Option<Seq<char>>,
)
    requires
        lisp_fields_plain(deffns, sections, install_path),
    ensures
        lines(lisp_text(deffns, sections, install_path)) == lisp_lines(deffns, sections, install_path),
{
    lemma_lisp_text_terminated(deffns, sections, install_path);
    lemma_lisp_lines_plain(deffns, sections, install_path);
    lemma_lines_terminated(lisp_lines(deffns, sections, install_path));
}

proof fn lemma_insert_deffn(acc: Seq<DeffnV>, e: DeffnV, p: int)
    requires
        0 <= p <= acc.len(),
        forall|k: int| 0 <= k < p ==> !seq_lt(e.topic, #[trigger] acc[k].topic),
        p == acc.len() || seq_lt(e.topic, acc[p].topic),
    ensures
        insert_deffn(acc, e) == acc.take(p) + seq![e] + acc.skip(p),
    decreases acc.len(),
{
    if acc.len() == 0 {
        assert(acc.take(p) + seq![e] + acc.skip(p) =~= seq![e]);
    } else if p == 0 {
        assert(acc.take(p) + seq![e] + acc.skip(p) =~= seq![e] + acc);
    } else {
        let t = acc.skip(1);
        assert forall|k: int| 0 <= k < p - 1 implies !seq_lt(e.topic, #[trigger] t[k].topic) by {
            assert(t[k] == acc[k + 1]);
        }
        if p - 1 < t.len() {
            assert(t[p - 1] == acc[p]);
        }
        lemma_insert_deffn(t, e, p - 1);
        assert(acc.take(p) + seq![e] + acc.skip(p) =~= seq![acc[0]] + (t.take(p - 1) + seq![e]
            + t.skip(p - 1)));
    }
}

proof fn lemma_insert_section(acc: Seq<SectionV>, e: SectionV, p: int)
    requires
        0 <= p <= acc.len(),
        forall|k: int| 0 <= k < p ==> !seq_lt(e.title, #[trigger] acc[k].title),
        p == acc.len() || seq_lt(e.title, acc[p].title),
    ensures
        insert_section(acc, e) == acc.take(p) + seq![e] + acc.skip(p),
    decreases acc.len(),
{
    if acc.len() == 0 {
        assert(acc.take(p) + seq![e] + acc.skip(p) =~= seq![e]);
    } else if p == 0 {
        assert(acc.take(p) + seq![e] + acc.skip(p) =~= seq![e] + acc);
    } else {
        let t = acc.skip(1);
        assert forall|k: int| 0 <= k < p - 1 implies !seq_lt(e.title, #[trigger] t[k].title) by {
            assert(t[k] == acc[k + 1]);
        }
        if p - 1 < t.len() {
            assert(t[p - 1] == acc[p]);
        }
        lemma_insert_section(t, e, p - 1);
        assert(acc.take(p) + seq![e] + acc.skip(p) =~= seq![acc[0]] + (t.take(p - 1) + seq![e]
            + t.skip(p - 1)));
    }
}

/// The topics of definition entries, in order.
pub open spec fn deffn_topics(s: Seq<DeffnV>) -> Seq<Seq<char>> {
    Seq::new(s.len(), |i: int| s[i].topic)
}

/// The titles of section entries, in order.
pub open spec fn section_titles(s: Seq<SectionV>) -> Seq<Seq<char>> {
    Seq::new(s.len(), |i: int| s[i].title)
}

/// Where an entry goes: before the first entry, from `i` on, whose topic
/// sorts after its own.
pub open spec fn deffn_pos(acc: Seq<DeffnV>, e: DeffnV, i: int) -> int
    decreases acc.len() - i,
{
    if i < 0 || i >= acc.len() {
        acc.len() as int
    } else if seq_lt(e.topic, acc[i].topic) {
        i
    } else {
        deffn_pos(acc, e, i + 1)
    }
}

proof fn lemma_deffn_pos(acc: Seq<DeffnV>, e: DeffnV, i: int)
    requires
        0 <= i <= acc.len(),
    ensures
        i <= deffn_pos(acc, e, i) <= acc.len(),
        forall|k: int| i <= k < deffn_pos(acc, e, i) ==> !seq_lt(e.topic, #[trigger] acc[k].topic),
        deffn_pos(acc, e, i) < acc.len() ==> seq_lt(e.topic, acc[deffn_pos(acc, e, i)].topic),
    decreases acc.len() - i,
{
    if i < acc.len() && !seq_lt(e.topic, acc[i].topic) {
        lemma_deffn_pos(acc, e, i + 1);
    }
}

/// Where a section goes: before the first section, from `i` on, whose
/// title sorts after its own.
pub open spec fn section_pos(acc: Seq<SectionV>, e: SectionV, i: int) -> int
    decreases acc.len() - i,
{
    if i < 0 || i >= acc.len() {
        acc.len() as int
    } else if seq_lt(e.title, acc[i].title) {
        i
    } else {
        section_pos(acc, e, i + 1)
    }
}

proof fn lemma_section_pos(acc: Seq<SectionV>, e: SectionV, i: int)
    requires
        0 <= i <= acc.len(),
    ensures
        i <= section_pos(acc, e, i) <= acc.len(),
        forall|k: int| i <= k < section_pos(acc, e, i) ==> !seq_lt(e.title, #[trigger] acc[k].title),
        section_pos(acc, e, i) < acc.len() ==> seq_lt(e.title, acc[section_pos(acc, e, i)].title),
    decreases acc.len() - i,
{
    if i < acc.len() && !seq_lt(e.title, acc[i].title) {
        lemma_section_pos(acc, e, i + 1);
    }
}

/// The definition table of the rendered index lists every entry exactly
/// once, in order of topic.
pub proof fn lemma_sorted_deffns(v: Seq<DeffnV>, n: int)
    requires
        0 <= n <= v.len(),
    ensures
        crate::text::keys_sorted(deffn_topics(sorted_deffns(v, n))),
        sorted_deffns(v, n).to_multiset() == v.take(n).to_multiset(),
    decreases n,
{
    if n == 0 {
        assert(v.take(0) =~= Seq::<DeffnV>::empty());
        assert(deffn_topics(sorted_deffns(v, 0)) =~= Seq::<Seq<char>>::empty());
    } else {
        lemma_sorted_deffns(v, n - 1);
        let acc = sorted_deffns(v, n - 1);
        let e = v[n - 1];
        lemma_deffn_pos(acc, e, 0);
        let p = deffn_pos(acc, e, 0);
        lemma_insert_deffn(acc, e, p);
        let ks = deffn_topics(acc);
        assert forall|q: int| 0 <= q < p implies !seq_lt(e.topic, #[trigger] ks[q]) by {
            assert(ks[q] == acc[q].topic);
        }
        crate::text::lemma_insert_keeps_sorted(ks, e.topic, p);
        let r = acc.take(p) + seq![e] + acc.skip(p);
        assert(deffn_topics(r) =~= ks.take(p) + seq![e.topic] + ks.skip(p));
        vstd::seq_lib::lemma_multiset_commutative(acc.take(p) + seq![e], acc.skip(p));
        vstd::seq_lib::lemma_multiset_commutative(acc.take(p), seq![e]);
        vstd::seq_lib::lemma_multiset_commutative(acc.take(p), acc.skip(p));
        assert(acc.take(p) + acc.skip(p) =~= acc);
        vstd::seq_lib::lemma_multiset_commutative(v.take(n - 1), seq![e]);
        assert(v.take(n - 1) + seq![e] =~= v.take(n));
        assert(r.to_multiset() =~= v.take(n).to_multiset());
    }
}

/// The section table of the rendered index lists every section exactly
/// once, in order of title.
pub proof fn lemma_sorted_sections(v: Seq<SectionV>, n: int)
    requires
        0 <= n <= v.len(),
    ensures
        crate::text::keys_sorted(section_titles(sorted_sections(v, n))),
        sorted_sections(v, n).to_multiset() == v.take(n).to_multiset(),
    decreases n,
{
    if n == 0 {
        assert(v.take(0) =~= Seq::<SectionV>::empty());
        assert(section_titles(sorted_sections(v, 0)) =~= Seq::<Seq<char>>::empty());
    } else {
        lemma_sorted_sections(v, n - 1);
        let acc = sorted_sections(v, n - 1);
        let e = v[n - 1];
        lemma_section_pos(acc, e, 0);
        let p = section_pos(acc, e, 0);
        lemma_insert_section(acc, e, p);
        let ks = section_titles(acc);
        assert forall|q: int| 0 <= q < p implies !seq_lt(e.title, #[trigger] ks[q]) by {
            assert(ks[q] == acc[q].title);
        }
        crate::text::lemma_insert_keeps_sorted(ks, e.title, p);
        let r = acc.take(p) + seq![e] + acc.skip(p);
        assert(section_titles(r) =~= ks.take(p) + seq![e.title] + ks.skip(p));
        vstd::seq_lib::lemma_multiset_commutative(acc.take(p) + seq![e], acc.skip(p));
        vstd::seq_lib::lemma_multiset_commutative(acc.take(p), seq![e]);
        vstd::seq_lib::lemma_multiset_commutative(acc.take(p), acc.skip(p));
        assert(acc.take(p) + acc.skip(p) =~= acc);
        vstd::seq_lib::lemma_multiset_commutative(v.take(n - 1), seq![e]);
        assert(v.take(n - 1) + seq![e] =~= v.take(n));
        assert(r.to_multiset() =~= v.take(n).to_multiset());
    }
}

pub open spec fn deffn_ref_views(v: Seq<&DeffnEntry>) -> Seq<DeffnV> {
    Seq::new(v.len(), |i: int| v[i]@)
}

pub open spec fn section_ref_views(v: Seq<&SectionEntry>) -> Seq<SectionV> {
    Seq::new(v.len(), |i: int| v[i]@)
}

fn sort_deffns(v: &Vec<DeffnEntry>) -> (r: Vec<&DeffnEntry>)
    ensures
        deffn_ref_views(r@) == sorted_deffns(deffn_views(v@), v@.len() as int),
{
    let ghost dv = deffn_views(v@);
    let mut out: Vec<&DeffnEntry> = Vec::new();
    let mut i: usize = 0;
    while i < v.len()
        invariant
            i <= v@.len(),
            dv == deffn_views(v@),
            deffn_ref_views(out@) == sorted_deffns(dv, i as int),
        decreases v@.len() - i,
    {
        let e = &v[i];
        let t = chars_of_string(&e.topic);
        let ghost acc = deffn_ref_views(out@);
        let mut p: usize = 0;
        while p < out.len() && !lt_chars(t.as_slice(), chars_of_string(&out[p].topic).as_slice())
            invariant
                p <= out@.len(),
                acc == deffn_ref_views(out@),
                t@ == e.topic@,
                forall|k: int| 0 <= k < p ==> !seq_lt(e.topic@, #[trigger] acc[k].topic),
            decreases out@.len() - p,
        {
            p += 1;
        }
        proof {
            lemma_insert_deffn(acc, e@, p as int);
        }
        out.insert(p, e);
        assert(deffn_ref_views(out@) =~= acc.take(p as int) + seq![e@] + acc.skip(p as int));
        i += 1;
    }
    out
}

fn sort_sections(v: &Vec<SectionEntry>) -> (r: Vec<&SectionEntry>)
    ensures
        section_ref_views(r@) == sorted_sections(section_views(v@), v@.len() as int),
{
    let ghost sv = section_views(v@);
    let mut out: Vec<&SectionEntry> = Vec::new();
    let mut i: usize = 0;
    while i < v.len()
        invariant
            i <= v@.len(),
            sv == section_views(v@),
            section_ref_views(out@) == sorted_sections(sv, i as int),
        decreases v@.len() - i,
    {
        let e = &v[i];
        let t = chars_of_string(&e.title);
        let ghost acc = section_ref_views(out@);
        let mut p: usize = 0;
        while p < out.len() && !lt_chars(t.as_slice(), chars_of_string(&out[p].title).as_slice())
            invariant
                p <= out@.len(),
                acc == section_ref_views(out@),
                t@ == e.title@,
                forall|k: int| 0 <= k < p ==> !seq_lt(e.title@, #[trigger] acc[k].title),
            decreases out@.len() - p,
        {
            p += 1;
        }
        proof {
            lemma_insert_section(acc, e@, p as int);
        }
        out.insert(p, e);
        assert(section_ref_views(out@) =~= acc.take(p as int) + seq![e@] + acc.skip(p as int));
        i += 1;
    }
    out
}

fn push_deffn_line(out: &mut Vec<char>, e: &DeffnEntry)
    ensures
        final(out)@ == old(out)@ + deffn_line(e@),
{
    let ghost o = out@;
    push_str(out, "(\"");
    push_escaped(out, e.topic.as_str());
    push_str(out, "\" . (\"");
    push_escaped(out, e.filename.as_str());
    push_str(out, "\" ");
    push_decimal(out, e.byte_offset);
    push_str(out, " ");
    push_decimal(out, e.char_length);
    push_str(out, " \"");
    push_escaped(out, e.node_name.as_str());
    push_str(out, "\"))\n");
    assert(out@ =~= o + deffn_line(e@));
}

fn push_section_line(out: &mut Vec<char>, e: &SectionEntry)
    ensures
        final(out)@ == old(out)@ + section_line(e@),
{
    let ghost o = out@;
    push_str(out, "(\"");
    push_escaped(out, e.title.as_str());
    push_str(out, "\" . (\"");
    push_escaped(out, e.filename.as_str());
    push_str(out, "\" ");
    push_decimal(out, e.byte_offset);
    push_str(out, " ");
    push_decimal(out, e.char_length);
    push_str(out, "))\n");
    assert(out@ =~= o + section_line(e@));
}

/// Renders an index as Lisp code for Maxima's `load-info-hashtables`:
/// the definition entries sorted by topic, the sections sorted by title,
/// then the call that loads them from `install_path` or, without one, from
/// the directory the index file is loaded from.
pub fn render_lisp(index: &InfoIndex, install_path: Option<&str>) -> (r: String)
    ensures
        r@ == lisp_text(
            deffn_views(index.deffn_defvr_entries@),
            section_views(index.section_entries@),
            match install_path {
                Some(p) => Some(p@),
                None => None,
            },
        ),
{
    let mut out: Vec<char> = Vec::new();
    push_str(&mut out, "(in-package :cl-info)\n");
    push_str(&mut out, "(let (\n");
    push_str(&mut out, "(deffn-defvr-pairs '(\n");
    push_str(
        &mut out,
        "; CONTENT: (<INDEX TOPIC> . (<FILENAME> <BYTE OFFSET> <LENGTH IN CHARACTERS> <NODE NAME>))\n",
    );
    proof {
        reveal_strlit("(in-package :cl-info)\n");
        reveal_strlit("(let (\n");
        reveal_strlit("(deffn-defvr-pairs '(\n");
        reveal_strlit(
            "; CONTENT: (<INDEX TOPIC> . (<FILENAME> <BYTE OFFSET> <LENGTH IN CHARACTERS> <NODE NAME>))\n",
        );
        reveal_strlit(
            "(in-package :cl-info)\n(let (\n(deffn-defvr-pairs '(\n; CONTENT: (<INDEX TOPIC> . (<FILENAME> <BYTE OFFSET> <LENGTH IN CHARACTERS> <NODE NAME>))\n",
        );
    }
    assert(out@ =~= deffn_header());
    let d = sort_deffns(&index.deffn_defvr_entries);
    let ghost dv = deffn_ref_views(d@);
    let mut i: usize = 0;
    while i < d.len()
        invariant
            i <= d@.len(),
            dv == deffn_ref_views(d@),
            out@ == deffn_header() + deffn_lines(dv, i as int),
        decreases d@.len() - i,
    {
        push_deffn_line(&mut out, d[i]);
        i += 1;
    }
    let ghost after_deffns = out@;
    push_str(&mut out, "))\n");
    push_str(&mut out, "(section-pairs '(\n");
    push_str(
        &mut out,
        "; CONTENT: (<NODE NAME> . (<FILENAME> <BYTE OFFSET> <LENGTH IN CHARACTERS>))\n",
    );
    proof {
        reveal_strlit("))\n");
        reveal_strlit("(section-pairs '(\n");
        reveal_strlit("; CONTENT: (<NODE NAME> . (<FILENAME> <BYTE OFFSET> <LENGTH IN CHARACTERS>))\n");
        reveal_strlit(
            "))\n(section-pairs '(\n; CONTENT: (<NODE NAME> . (<FILENAME> <BYTE OFFSET> <LENGTH IN CHARACTERS>))\n",
        );
    }
    assert(out@ =~= after_deffns + section_header());
    let s = sort_sections(&index.section_entries);
    let ghost sv = section_ref_views(s@);
    let ghost before_sections = out@;
    let mut j: usize = 0;
    while j < s.len()
        invariant
            j <= s@.len(),
            sv == section_ref_views(s@),
            out@ == before_sections + section_lines(sv, j as int),
        decreases s@.len() - j,
    {
        push_section_line(&mut out, s[j]);
        j += 1;
    }
    push_str(&mut out, ")))\n");
    push_str(&mut out, "(load-info-hashtables ");
    match install_path {
        Some(p) => {
            push_str(&mut out, "#p\"");
            push_str(&mut out, p);
            push_str(&mut out, "\"");
        },
        None => {
            push_str(&mut out, "(maxima::maxima-load-pathname-directory)");
        },
    }
    push_str(&mut out, " deffn-defvr-pairs section-pairs))\n");
    string_of(out.as_slice())
}

// ---------------------------------------------------------------------------
// Bytes of an info file
// ---------------------------------------------------------------------------

/// Position of the first `b` at or after `i`, or the length.
pub open spec fn next_byte(data: Seq<u8>, b: u8, i: int) -> int
    decreases data.len() - i,
{
    if i < 0 || i >= data.len() {
        data.len() as int
    } else if data[i] == b {
        i
    } else {
        next_byte(data, b, i + 1)
    }
}

pub proof fn lemma_next_byte(data: Seq<u8>, b: u8, i: int)
    requires
        0 <= i,
    ensures
        i <= next_byte(data, b, i) || i > data.len(),
        next_byte(data, b, i) <= data.len(),
        next_byte(data, b, i) < data.len() ==> data[next_byte(data, b, i)] == b,
        forall|k: int| i <= k < next_byte(data, b, i) ==> data[k] != b,
    decreases data.len() - i,
{
    if i < data.len() && data[i] != b {
        lemma_next_byte(data, b, i + 1);
    }
}

/// Position of the first `needle` in `haystack`.
pub fn memchr(needle: u8, haystack: &[u8]) -> (r: Option<usize>)
    ensures
        match r {
            Some(k) => k == next_byte(haystack@, needle, 0) && k < haystack@.len(),
            None => next_byte(haystack@, needle, 0) == haystack@.len(),
        },
{
    let mut i: usize = 0;
    while i < haystack.len()
        invariant
            i <= haystack@.len(),
            next_byte(haystack@, needle, 0) == next_byte(haystack@, needle, i as int),
        decreases haystack@.len() - i,
    {
        if haystack[i] == needle {
            return Some(i);
        }
        i += 1;
    }
    None
}

/// Position of the next newline at or after `pos`, or the length.
pub fn find_newline(data: &[u8], pos: usize) -> (r: usize)
    requires
        pos <= data@.len(),
    ensures
        r == next_byte(data@, 10u8, pos as int),
{
    let mut i = pos;
    while i < data.len() && data[i] != 10u8
        invariant
            pos <= i <= data@.len(),
            next_byte(data@, 10u8, pos as int) == next_byte(data@, 10u8, i as int),
        decreases data@.len() - i,
    {
        i += 1;
    }
    i
}

/// The position after skipping `k` lines from `pos`.
pub open spec fn skip_lines(data: Seq<u8>, pos: int, k: int) -> int
    decreases k,
{
    if k <= 0 {
        pos
    } else {
        let e = next_byte(data, 10u8, pos);
        skip_lines(data, if e < data.len() { e + 1 } else { e }, k - 1)
    }
}

/// The scalar value of the first character of UTF-8 bytes `b`.
pub open spec fn first_scalar(b: Seq<u8>) -> int {
    if b.len() == 0 {
        -1
    } else if b[0] < 0x80 {
        b[0] as int
    } else if b[0] < 0xE0 {
        if b.len() < 2 { -1 } else { (b[0] % 32) * 64 + b[1] % 64 }
    } else if b[0] < 0xF0 {
        if b.len() < 3 { -1 } else { (b[0] % 16) * 4096 + (b[1] % 64) * 64 + b[2] % 64 }
    } else {
        if b.len() < 4 {
            -1
        } else {
            (b[0] % 8) * 262144 + (b[1] % 64) * 4096 + (b[2] % 64) * 64 + b[3] % 64
        }
    }
}

/// The Unicode `White_Space` property of a scalar value.
pub open spec fn ws_scalar(u: int) -> bool {
    ||| 0x09 <= u <= 0x0d
    ||| u == 0x20
    ||| u == 0x85
    ||| u == 0xa0
    ||| u == 0x1680
    ||| 0x2000 <= u <= 0x200a
    ||| u == 0x2028
    ||| u == 0x2029
    ||| u == 0x202f
    ||| u == 0x205f
    ||| u == 0x3000
}

/// A continuation byte (`10xxxxxx`).
pub open spec fn utf8_cont(x: u8) -> bool {
    0x80 <= x <= 0xBF
}

/// The length of the well-formed UTF-8 sequence that starts at index `i`
/// of `b` (the byte ranges of the Unicode standard, table 3-7), or 0 when
/// none starts there.
pub open spec fn utf8_seq_len(b: Seq<u8>, i: int) -> int {
    let n = b.len() - i;
    if n <= 0 {
        0
    } else {
        let c = b[i];
        if c <= 0x7F {
            1
        } else if 0xC2 <= c <= 0xDF {
            if n >= 2 && utf8_cont(b[i + 1]) { 2 } else { 0 }
        } else if 0xE0 <= c <= 0xEF {
            let lo: u8 = if c == 0xE0 { 0xA0 } else { 0x80 };
            let hi: u8 = if c == 0xED { 0x9F } else { 0xBF };
            if n >= 3 && lo <= b[i + 1] <= hi && utf8_cont(b[i + 2]) { 3 } else { 0 }
        } else if 0xF0 <= c <= 0xF4 {
            let lo: u8 = if c == 0xF0 { 0x90 } else { 0x80 };
            let hi: u8 = if c == 0xF4 { 0x8F } else { 0xBF };
            if n >= 4 && lo <= b[i + 1] <= hi && utf8_cont(b[i + 2]) && utf8_cont(b[i + 3]) {
                4
            } else {
                0
            }
        } else {
            0
        }
    }
}

/// The bytes from index `i` on are a run of well-formed UTF-8 sequences.
pub open spec fn utf8_valid_from(b: Seq<u8>, i: int) -> bool
    decreases b.len() - i,
{
    if i < 0 || i > b.len() {
        false
    } else if i == b.len() {
        true
    } else {
        let w = utf8_seq_len(b, i);
        w > 0 && utf8_valid_from(b, i + w)
    }
}

/// Whether `b` is well-formed UTF-8: a run of the sequences that the
/// Unicode standard allows (no overlong forms, no surrogates, nothing past
/// U+10FFFF), as `std::str::from_utf8` decides.
pub open spec fn utf8_valid(b: Seq<u8>) -> bool {
    utf8_valid_from(b, 0)
}

/// `std::str::from_utf8(..).is_ok()`: whether the bytes are well-formed
/// UTF-8.
#[verifier::external_body]
pub(crate) fn is_utf8(b: &[u8]) -> (r: bool)
    ensures
        r == utf8_valid(b@),
{
    std::str::from_utf8(b).is_ok()
}

/// A line that opens a definition: well-formed text starting with ` -- `
/// followed by a character that is not whitespace.
pub open spec fn deffn_line_start(line: Seq<u8>) -> bool {
    &&& utf8_valid(line)
    &&& line.len() > 4
    &&& line[0] == 0x20 && line[1] == 0x2d && line[2] == 0x2d && line[3] == 0x20
    &&& first_scalar(line.skip(4)) >= 0
    &&& !ws_scalar(first_scalar(line.skip(4)))
}

/// The state after `n` more lines of the version-4 scan from `pos`: the
/// position reached and the start of the last definition line seen.
pub open spec fn v4_scan(data: Seq<u8>, pos: int, n: int, found: Option<int>) -> (int, Option<int>)
    decreases n,
{
    if n <= 0 {
        (pos, found)
    } else {
        let e = next_byte(data, 10u8, pos);
        let f = if deffn_line_start(data.subrange(pos, e)) { Some(pos) } else { found };
        v4_scan(data, if e < data.len() { e + 1 } else { e }, n - 1, f)
    }
}

/// Where a topic's text starts: `lines` lines past the node's offset; for
/// files from makeinfo 4, whose line numbers point at the last line of a
/// multi-line definition, the last definition line among those lines.
pub open spec fn topic_offset(data: Seq<u8>, start: int, lines: int, major: Option<u32>) -> int {
    if major == Some(4u32) {
        let (p, f) = v4_scan(data, start, lines + 1, None);
        match f {
            Some(x) => x,
            None => if p > start { p - 1 } else { start },
        }
    } else {
        skip_lines(data, start, lines)
    }
}

proof fn lemma_skip_step(data: Seq<u8>, pos: int)
    requires
        0 <= pos <= data.len(),
    ensures
        ({
            let e = next_byte(data, 10u8, pos);
            pos <= (if e < data.len() { e + 1 } else { e }) <= data.len()
        }),
{
    lemma_next_byte(data, 10u8, pos);
}

fn first_scalar_exec(b: &[u8], from: usize) -> (r: i64)
    requires
        from <= b@.len(),
    ensures
        r == first_scalar(b@.skip(from as int)),
{
    let ghost s = b@.skip(from as int);
    let n = b.len() - from;
    if n == 0 {
        return -1;
    }
    let b0 = b[from] as i64;
    assert(s[0] == b@[from as int]);
    if b0 < 0x80 {
        b0
    } else if b0 < 0xE0 {
        if n < 2 {
            -1
        } else {
            assert(s[1] == b@[from + 1]);
            (b0 % 32) * 64 + (b[from + 1] as i64) % 64
        }
    } else if b0 < 0xF0 {
        if n < 3 {
            -1
        } else {
            assert(s[1] == b@[from + 1]);
            assert(s[2] == b@[from + 2]);
            (b0 % 16) * 4096 + ((b[from + 1] as i64) % 64) * 64 + (b[from + 2] as i64) % 64
        }
    } else {
        if n < 4 {
            -1
        } else {
            assert(s[1] == b@[from + 1]);
            assert(s[2] == b@[from + 2]);
            assert(s[3] == b@[from + 3]);
            (b0 % 8) * 262144 + ((b[from + 1] as i64) % 64) * 4096 + ((b[from + 2] as i64) % 64)
                * 64 + (b[from + 3] as i64) % 64
        }
    }
}

fn ws_scalar_exec(u: i64) -> (r: bool)
    ensures
        r == ws_scalar(u as int),
{
    (0x09 <= u && u <= 0x0d) || u == 0x20 || u == 0x85 || u == 0xa0 || u == 0x1680 || (0x2000
        <= u && u <= 0x200a) || u == 0x2028 || u == 0x2029 || u == 0x202f || u == 0x205f || u
        == 0x3000
}

fn is_deffn_line_start(line: &[u8]) -> (r: bool)
    ensures
        r == deffn_line_start(line@),
{
    if !is_utf8(line) {
        return false;
    }
    if line.len() <= 4 {
        return false;
    }
    if !(line[0] == 0x20 && line[1] == 0x2d && line[2] == 0x2d && line[3] == 0x20) {
        return false;
    }
    let u = first_scalar_exec(line, 4);
    u >= 0 && !ws_scalar_exec(u)
}

pub(crate) fn byte_slice(data: &[u8], a: usize, b: usize) -> (r: Vec<u8>)
    requires
        a <= b <= data@.len(),
    ensures
        r@ == data@.subrange(a as int, b as int),
{
    let mut r: Vec<u8> = Vec::new();
    let mut i = a;
    while i < b
        invariant
            a <= i <= b <= data@.len(),
            r@ == data@.subrange(a as int, i as int),
        decreases b - i,
    {
        r.push(data[i]);
        i += 1;
        assert(data@.subrange(a as int, i as int) =~= data@.subrange(a as int, i - 1).push(
            data@[i - 1],
        ));
    }
    r
}

/// Converts a node's byte offset and a line number within it into the byte
/// offset where the topic's text starts. `major_version` is the makeinfo
/// major version read from the file's header, if any.
pub fn seek_lines(
    data: &[u8],
    node_byte_offset: usize,
    lines_offset: usize,
    major_version: Option<u32>,
) -> (r: usize)
    requires
        node_byte_offset <= data@.len(),
        major_version == Some(4u32) ==> lines_offset < usize::MAX,
    ensures
        r == topic_offset(data@, node_byte_offset as int, lines_offset as int, major_version),
{
    let start = node_byte_offset;
    if major_version == Some(4u32) {
        return seek_lines_v4(data, start, lines_offset);
    }
    let mut pos = start;
    let mut k: usize = 0;
    while k < lines_offset
        invariant
            k <= lines_offset,
            start <= pos <= data@.len(),
            skip_lines(data@, start as int, lines_offset as int) == skip_lines(
                data@,
                pos as int,
                lines_offset - k,
            ),
        decreases lines_offset - k,
    {
        proof {
            lemma_skip_step(data@, pos as int);
        }
        pos = find_newline(data, pos);
        if pos < data.len() {
            pos += 1;
        }
        k += 1;
    }
    pos
}

fn seek_lines_v4(data: &[u8], start: usize, lines_offset: usize) -> (r: usize)
    requires
        start <= data@.len(),
        lines_offset < usize::MAX,
    ensures
        r == topic_offset(data@, start as int, lines_offset as int, Some(4u32)),
{
    let mut pos = start;
    let mut result: Option<usize> = None;
    let n = lines_offset + 1;
    let mut k: usize = 0;
    while k < n
        invariant
            k <= n == lines_offset + 1,
            start <= pos <= data@.len(),
            v4_scan(data@, start as int, n as int, None) == v4_scan(
                data@,
                pos as int,
                n - k,
                match result {
                    Some(x) => Some(x as int),
                    None => None,
                },
            ),
        decreases n - k,
    {
        proof {
            lemma_skip_step(data@, pos as int);
            lemma_next_byte(data@, 10u8, pos as int);
        }
        let line_start = pos;
        let line_end = find_newline(data, pos);
        let line = byte_slice(data, line_start, line_end);
        if is_deffn_line_start(line.as_slice()) {
            result = Some(line_start);
        }
        pos = if line_end < data.len() {
            line_end + 1
        } else {
            line_end
        };
        k += 1;
    }
    match result {
        Some(x) => x,
        None => if pos > start {
            pos - 1
        } else {
            start
        },
    }
}

/// The entries of `s` whose topic is `t`, in order.
pub open spec fn with_topic(s: Seq<DeffnV>, t: Seq<char>) -> Seq<DeffnV>
    decreases s.len(),
{
    if s.len() == 0 {
        Seq::empty()
    } else {
        with_topic(s.drop_last(), t) + if s.last().topic == t {
            seq![s.last()]
        } else {
            Seq::empty()
        }
    }
}

proof fn lemma_with_topic_append(a: Seq<DeffnV>, b: Seq<DeffnV>, t: Seq<char>)
    ensures
        with_topic(a + b, t) == with_topic(a, t) + with_topic(b, t),
    decreases b.len(),
{
    if b.len() == 0 {
        assert(a + b =~= a);
        assert(with_topic(a, t) + with_topic(b, t) =~= with_topic(a, t));
    } else {
        lemma_with_topic_append(a, b.drop_last(), t);
        assert((a + b).drop_last() =~= a + b.drop_last());
        assert((a + b).last() == b.last());
        assert(with_topic(a + b, t) =~= with_topic(a, t) + with_topic(b, t));
    }
}

proof fn lemma_with_topic_none(s: Seq<DeffnV>, t: Seq<char>)
    requires
        forall|k: int| 0 <= k < s.len() ==> (#[trigger] s[k]).topic != t,
    ensures
        with_topic(s, t) == Seq::<DeffnV>::empty(),
    decreases s.len(),
{
    if s.len() > 0 {
        assert(s[s.len() - 1] == s.last());
        lemma_with_topic_none(s.drop_last(), t);
    }
}

proof fn lemma_with_topic_insert(acc: Seq<DeffnV>, e: DeffnV, t: Seq<char>)
    requires
        crate::text::keys_sorted(deffn_topics(acc)),
    ensures
        with_topic(insert_deffn(acc, e), t) == with_topic(acc, t) + if e.topic == t {
            seq![e]
        } else {
            Seq::empty()
        },
{
    lemma_deffn_pos(acc, e, 0);
    let p = deffn_pos(acc, e, 0);
    lemma_insert_deffn(acc, e, p);
    let a = acc.take(p);
    let b = acc.skip(p);
    assert(a + b =~= acc);
    lemma_with_topic_append(a, b, t);
    lemma_with_topic_append(a + seq![e], b, t);
    lemma_with_topic_append(a, seq![e], t);
    let one = seq![e];
    assert(one.drop_last() =~= Seq::<DeffnV>::empty());
    assert(with_topic(one, t) == with_topic(Seq::<DeffnV>::empty(), t) + if e.topic == t {
        seq![e]
    } else {
        Seq::empty()
    });
    if e.topic == t {
        assert forall|k: int| 0 <= k < b.len() implies (#[trigger] b[k]).topic != t by {
            let ks = deffn_topics(acc);
            assert(b[k] == acc[p + k]);
            assert(seq_lt(e.topic, acc[p].topic));
            if k > 0 {
                assert(!seq_lt(ks[p + k], ks[p]));
                crate::text::lemma_seq_lt_total(acc[p].topic, acc[p + k].topic);
                if acc[p].topic != acc[p + k].topic {
                    crate::text::lemma_seq_lt_trans(e.topic, acc[p].topic, acc[p + k].topic);
                }
            }
            crate::text::lemma_seq_lt_irrefl(e.topic);
        }
        lemma_with_topic_none(b, t);
    }
    assert(with_topic(a, t) + with_topic(one, t) + with_topic(b, t) =~= with_topic(a, t) + with_topic(b, t)
        + with_topic(one, t)) by {
        if e.topic != t {
            assert(with_topic(one, t) =~= Seq::<DeffnV>::empty());
        } else {
            assert(with_topic(b, t) =~= Seq::<DeffnV>::empty());
        }
    }
}

/// Sorting the definition entries by topic is stable: the entries of any
/// one topic keep their order.
pub proof fn lemma_sorted_deffns_stable(v: Seq<DeffnV>, n: int, t: Seq<char>)
    requires
        0 <= n <= v.len(),
    ensures
        with_topic(sorted_deffns(v, n), t) == with_topic(v.take(n), t),
    decreases n,
{
    if n == 0 {
        assert(v.take(0) =~= Seq::<DeffnV>::empty());
    } else {
        lemma_sorted_deffns_stable(v, n - 1, t);
        lemma_sorted_deffns(v, n - 1);
        lemma_with_topic_insert(sorted_deffns(v, n - 1), v[n - 1], t);
        assert(v.take(n).drop_last() =~= v.take(n - 1));
        assert(v.take(n).last() == v[n - 1]);
    }
}

/// The sections of `s` whose title is `t`, in order.
pub open spec fn with_title(s: Seq<SectionV>, t: Seq<char>) -> Seq<SectionV>
    decreases s.len(),
{
    if s.len() == 0 {
        Seq::empty()
    } else {
        with_title(s.drop_last(), t) + if s.last().title == t {
            seq![s.last()]
        } else {
            Seq::empty()
        }
    }
}

proof fn lemma_with_title_append(a: Seq<SectionV>, b: Seq<SectionV>, t: Seq<char>)
    ensures
        with_title(a + b, t) == with_title(a, t) + with_title(b, t),
    decreases b.len(),
{
    if b.len() == 0 {
        assert(a + b =~= a);
        assert(with_title(a, t) + with_title(b, t) =~= with_title(a, t));
    } else {
        lemma_with_title_append(a, b.drop_last(), t);
        assert((a + b).drop_last() =~= a + b.drop_last());
        assert((a + b).last() == b.last());
        assert(with_title(a + b, t) =~= with_title(a, t) + with_title(b, t));
    }
}

proof fn lemma_with_title_none(s: Seq<SectionV>, t: Seq<char>)
    requires
        forall|k: int| 0 <= k < s.len() ==> (#[trigger] s[k]).title != t,
    ensures
        with_title(s, t) == Seq::<SectionV>::empty(),
    decreases s.len(),
{
    if s.len() > 0 {
        assert(s[s.len() - 1] == s.last());
        lemma_with_title_none(s.drop_last(), t);
    }
}

proof fn lemma_with_title_insert(acc: Seq<SectionV>, e: SectionV, t: Seq<char>)
    requires
        crate::text::keys_sorted(section_titles(acc)),
    ensures
        with_title(insert_section(acc, e), t) == with_title(acc, t) + if e.title == t {
            seq![e]
        } else {
            Seq::empty()
        },
{
    lemma_section_pos(acc, e, 0);
    let p = section_pos(acc, e, 0);
    lemma_insert_section(acc, e, p);
    let a = acc.take(p);
    let b = acc.skip(p);
    assert(a + b =~= acc);
    lemma_with_title_append(a, b, t);
    lemma_with_title_append(a + seq![e], b, t);
    lemma_with_title_append(a, seq![e], t);
    let one = seq![e];
    assert(one.drop_last() =~= Seq::<SectionV>::empty());
    assert(with_title(one, t) == with_title(Seq::<SectionV>::empty(), t) + if e.title == t {
        seq![e]
    } else {
        Seq::empty()
    });
    if e.title == t {
        assert forall|k: int| 0 <= k < b.len() implies (#[trigger] b[k]).title != t by {
            let ks = section_titles(acc);
            assert(b[k] == acc[p + k]);
            assert(seq_lt(e.title, acc[p].title));
            if k > 0 {
                assert(!seq_lt(ks[p + k], ks[p]));
                crate::text::lemma_seq_lt_total(acc[p].title, acc[p + k].title);
                if acc[p].title != acc[p + k].title {
                    crate::text::lemma_seq_lt_trans(e.title, acc[p].title, acc[p + k].title);
                }
            }
            crate::text::lemma_seq_lt_irrefl(e.title);
        }
        lemma_with_title_none(b, t);
    }
    assert(with_title(a, t) + with_title(one, t) + with_title(b, t) =~= with_title(a, t) + with_title(b, t)
        + with_title(one, t)) by {
        if e.title != t {
            assert(with_title(one, t) =~= Seq::<SectionV>::empty());
        } else {
            assert(with_title(b, t) =~= Seq::<SectionV>::empty());
        }
    }
}

/// Sorting the sections by title is stable: the sections of any one title
/// keep their order.
pub proof fn lemma_sorted_sections_stable(v: Seq<SectionV>, n: int, t: Seq<char>)
    requires
        0 <= n <= v.len(),
    ensures
        with_title(sorted_sections(v, n), t) == with_title(v.take(n), t),
    decreases n,
{
    if n == 0 {
        assert(v.take(0) =~= Seq::<SectionV>::empty());
    } else {
        lemma_sorted_sections_stable(v, n - 1, t);
        lemma_sorted_sections(v, n - 1);
        lemma_with_title_insert(sorted_sections(v, n - 1), v[n - 1], t);
        assert(v.take(n).drop_last() =~= v.take(n - 1));
        assert(v.take(n).last() == v[n - 1]);
    }
}

// ---------------------------------------------------------------------------
// Characters of an info file
// ---------------------------------------------------------------------------

/// The characters `String::from_utf8_lossy` decodes from `b`: ill-formed
/// sequences become U+FFFD.
pub uninterp spec fn utf8_lossy(b: Seq<u8>) -> Seq<char>;

/// `String::from_utf8_lossy`, taken as an owned `String`. The replacement
/// rules for ill-formed sequences are not restated here.
#[verifier::external_body]
fn lossy_string(b: &[u8]) -> (r: String)
    ensures
        r@ == utf8_lossy(b@),
{
    String::from_utf8_lossy(b).into_owned()
}

/// The characters that `String::from_utf8_lossy` decodes from `b`.
pub(crate) fn lossy_chars(b: &[u8]) -> (r: Vec<char>)
    ensures
        r@ == utf8_lossy(b@),
{
    let s = lossy_string(b);
    chars_of(s.as_str())
}

/// A definition's text ends at index `i`: at a unit separator, at a blank
/// line before ` -- `, or at a newline before a digit.
pub open spec fn deffn_stop(c: Seq<char>, i: int) -> bool {
    ||| c[i] == '\x1F'
    ||| (c[i] == '\n' && i + 5 < c.len() && c[i + 1] == '\n' && c[i + 2] == ' ' && c[i + 3] == '-'
        && c[i + 4] == '-' && c[i + 5] == ' ')
    ||| (c[i] == '\n' && i + 1 < c.len() && '0' <= c[i + 1] <= '9')
}

/// The first stop at or after `i`, or the length.
pub open spec fn deffn_end(c: Seq<char>, i: int) -> int
    decreases c.len() - i,
{
    if i < 0 || i >= c.len() {
        c.len() as int
    } else if deffn_stop(c, i) {
        i
    } else {
        deffn_end(c, i + 1)
    }
}

/// The length in characters of the definition text starting at byte
/// `byte_offset`: up to the next definition, section heading or node.
pub fn measure_deffn_length(data: &[u8], byte_offset: usize) -> (r: usize)
    requires
        byte_offset <= data@.len(),
    ensures
        r == deffn_end(utf8_lossy(data@.skip(byte_offset as int)), 0),
{
    let tail = byte_slice(data, byte_offset, data.len());
    assert(tail@ =~= data@.skip(byte_offset as int));
    let c = lossy_chars(tail.as_slice());
    let len = c.len();
    let mut i: usize = 0;
    while i < len
        invariant
            i <= len == c@.len(),
            c@ == utf8_lossy(data@.skip(byte_offset as int)),
            deffn_end(c@, 0) == deffn_end(c@, i as int),
        decreases len - i,
    {
        if c[i] == '\x1F' {
            assert(deffn_stop(c@, i as int));
            return i;
        }
        if c[i] == '\n' && len - i > 5 && c[i + 1] == '\n' && c[i + 2] == ' ' && c[i + 3] == '-'
            && c[i + 4] == '-' && c[i + 5] == ' ' {
            assert(deffn_stop(c@, i as int));
            return i;
        }
        if c[i] == '\n' && len - i > 1 && '0' <= c[i + 1] && c[i + 1] <= '9' {
            assert(deffn_stop(c@, i as int));
            return i;
        }
        assert(!deffn_stop(c@, i as int));
        i += 1;
    }
    len
}

/// The byte offset of each character of `c`, and one past the end.
pub open spec fn byte_offsets(c: Seq<char>) -> Seq<int> {
    Seq::new(c.len() + 1, |i: int| utf8_len(c.take(i)) as int)
}

/// The byte offset of each decoded character of `data`, and one past the end.
pub fn char_to_byte_offsets(data: &[u8]) -> (r: Vec<usize>)
    requires
        utf8_len(utf8_lossy(data@)) <= usize::MAX,
    ensures
        r@.len() == byte_offsets(utf8_lossy(data@)).len(),
        forall|i: int| 0 <= i < r@.len() ==> r@[i] == byte_offsets(utf8_lossy(data@))[i],
{
    let c = lossy_chars(data);
    let mut offsets: Vec<usize> = Vec::new();
    let mut byte_pos: usize = 0;
    let mut i: usize = 0;
    while i < c.len()
        invariant
            i <= c@.len(),
            c@ == utf8_lossy(data@),
            utf8_len(c@) <= usize::MAX,
            byte_pos == utf8_len(c@.take(i as int)),
            offsets@.len() == i,
            forall|k: int| 0 <= k < i ==> offsets@[k] == utf8_len(c@.take(k)),
        decreases c@.len() - i,
    {
        offsets.push(byte_pos);
        proof {
            lemma_utf8_len_take(c@, i as int);
            lemma_utf8_len_prefix_le(c@, i + 1);
        }
        byte_pos = byte_pos + utf8_width_exec(c[i]);
        i += 1;
    }
    assert(c@.take(i as int) =~= c@);
    offsets.push(byte_pos);
    offsets
}

proof fn lemma_utf8_len_prefix_le(s: Seq<char>, k: int)
    requires
        0 <= k <= s.len(),
    ensures
        utf8_len(s.take(k)) <= utf8_len(s),
    decreases s.len() - k,
{
    if k < s.len() {
        lemma_utf8_len_prefix_le(s, k + 1);
        lemma_utf8_len_take(s, k);
    } else {
        assert(s.take(k) =~= s);
    }
}

// ---------------------------------------------------------------------------
// Sections
// ---------------------------------------------------------------------------

/// The title of a section heading line `<digits>.<digits> <title>`, with
/// decimal digits of any script.
pub open spec fn section_title(l: Seq<char>) -> Option<Seq<char>> {
    let a = decimal_run_end(l, 0);
    if a > 0 && a < l.len() && l[a] == '.' {
        let b = decimal_run_end(l, a + 1);
        if b > a + 1 && b < l.len() && l[b] == ' ' {
            Some(l.skip(b + 1))
        } else {
            None
        }
    } else {
        None
    }
}

/// The headings among the first `n` lines, each with the position where it
/// starts, and the position after those lines. Positions count every line
/// by its length in UTF-8 bytes plus one for the newline.
pub open spec fn section_starts(ls: Seq<Seq<char>>, n: int) -> (Seq<(Seq<char>, int)>, int)
    decreases n,
{
    if n <= 0 {
        (Seq::empty(), 0)
    } else {
        let (v, off) = section_starts(ls, n - 1);
        let l = ls[n - 1];
        let v2 = match section_title(l) {
            Some(t) => v.push((t, off)),
            None => v,
        };
        (v2, off + utf8_len(l) + 1)
    }
}

/// The headings of a file's text with their start positions.
pub open spec fn headings(text: Seq<char>) -> Seq<(Seq<char>, int)> {
    let ls = pieces(text, '\n');
    section_starts(ls, ls.len() as int).0
}

/// The section entry of a heading found in `text` at position `start`: its
/// length runs to the next unit separator or the end of the text.
pub open spec fn section_entry(
    text: Seq<char>,
    data_len: int,
    filename: Seq<char>,
    h: (Seq<char>, int),
) -> SectionV {
    let start = h.1;
    let end = next_char(text, '\x1F', start);
    SectionV {
        title: h.0,
        filename,
        byte_offset: (if start <= text.len() {
            utf8_len(text.take(start)) as int
        } else {
            data_len
        }) as usize,
        char_length: (end - start) as usize,
    }
}

/// The section entries of a file, in the order of their headings.
pub open spec fn file_sections(data: Seq<u8>, filename: Seq<char>) -> Seq<SectionV> {
    let text = utf8_lossy(data);
    let hs = headings(text);
    Seq::new(hs.len(), |i: int| section_entry(text, data.len() as int, filename, hs[i]))
}

/// The file's positions fit the machine: the headings start within the
/// text, and the byte lengths fit in `usize`.
pub open spec fn sections_fit(data: Seq<u8>) -> bool {
    let text = utf8_lossy(data);
    let ls = pieces(text, '\n');
    &&& section_starts(ls, ls.len() as int).1 <= usize::MAX
    &&& utf8_len(text) <= usize::MAX
    &&& forall|i: int|
        0 <= i < headings(text).len() ==> #[trigger] headings(text)[i].1 <= text.len()
}

fn section_title_exec(l: &[char]) -> (r: Option<Vec<char>>)
    ensures
        match r {
            Some(t) => section_title(l@) == Some(t@),
            None => section_title(l@) is None,
        },
{
    let a = decimal_run_end_exec(l, 0);
    if a > 0 && a < l.len() && l[a] == '.' {
        let b = decimal_run_end_exec(l, a + 1);
        if b > a + 1 && b < l.len() && l[b] == ' ' {
            let t = slice_copy(l, b + 1, l.len());
            assert(t@ =~= l@.skip(b + 1));
            Some(t)
        } else {
            None
        }
    } else {
        None
    }
}

/// Whether `scan_sections` can take a file: its headings start within its
/// text, and its byte offsets fit in `usize`.
pub fn sections_fit_check(data: &[u8]) -> (r: bool)
    ensures
        r == sections_fit(data@),
{
    let text = lossy_chars(data);
    let total_bytes = utf8_len_exec(text.as_slice());
    if total_bytes > usize::MAX as u128 {
        return false;
    }
    let ls = split_at_char(text.as_slice(), '\n');
    let ghost lv = crate::text::views(ls@);
    let n_chars = text.len();
    let mut off: usize = 0;
    let mut i: usize = 0;
    while i < ls.len()
        invariant
            i <= ls@.len(),
            text@ == utf8_lossy(data@),
            lv == crate::text::views(ls@),
            lv == pieces(text@, '\n'),
            n_chars == text@.len(),
            utf8_len(text@) <= usize::MAX,
            off == section_starts(lv, i as int).1,
            forall|k: int|
                0 <= k < section_starts(lv, i as int).0.len() ==> #[trigger] section_starts(
                    lv,
                    i as int,
                ).0[k].1 <= text@.len(),
        decreases ls@.len() - i,
    {
        proof {
            lemma_section_starts_mono(lv, i + 1, lv.len() as int);
        }
        assert(lv[i as int] == ls@[i as int]@);
        let ghost prev = section_starts(lv, i as int).0;
        let heading = section_title_exec(ls[i].as_slice()).is_some();
        if heading && off > n_chars {
            proof {
                let j = prev.len() as int;
                assert(section_starts(lv, i + 1).0[j].1 == off);
                assert(headings(text@)[j] == section_starts(lv, i + 1).0[j]);
            }
            return false;
        }
        let w = utf8_len_exec(ls[i].as_slice());
        let line_len = ls[i].len();
        proof {
            crate::text::lemma_utf8_len_bound(ls@[i as int]@);
            assert(w <= 4 * line_len);
        }
        let next = (off as u128) + w + 1;
        if next > usize::MAX as u128 {
            return false;
        }
        off = next as usize;
        i += 1;
        assert forall|k: int|
            0 <= k < section_starts(lv, i as int).0.len() implies #[trigger] section_starts(
                lv,
                i as int,
            ).0[k].1 <= text@.len() by {
            if k < prev.len() {
                assert(section_starts(lv, i as int).0[k] == prev[k]);
            }
        }
    }
    true
}

/// Scans a file's sections as `scan_sections` does when the file fits its
/// bounds (`true`); otherwise leaves `entries` as they are (`false`).
pub fn scan_sections_checked(data: &[u8], filename: &str, entries: &mut Vec<SectionEntry>) -> (r: bool)
    ensures
        r == sections_fit(data@),
        r ==> section_views(final(entries)@) == section_views(old(entries)@) + file_sections(
            data@,
            filename@,
        ),
        !r ==> final(entries)@ == old(entries)@,
{
    if sections_fit_check(data) {
        scan_sections(data, filename, entries);
        true
    } else {
        false
    }
}

proof fn lemma_section_starts_mono(ls: Seq<Seq<char>>, i: int, n: int)
    requires
        0 <= i <= n,
    ensures
        section_starts(ls, i).1 <= section_starts(ls, n).1,
        section_starts(ls, i).0 == section_starts(ls, n).0.take(section_starts(ls, i).0.len() as int),
        section_starts(ls, i).0.len() <= section_starts(ls, n).0.len(),
    decreases n - i,
{
    if i < n {
        lemma_section_starts_mono(ls, i, n - 1);
        let p = section_starts(ls, n - 1).0;
        let q = section_starts(ls, n).0;
        assert(q.take(p.len() as int) =~= p);
        assert(q.take(section_starts(ls, i).0.len() as int) =~= p.take(
            section_starts(ls, i).0.len() as int,
        ));
    }
}

/// Appends the section entries of a file to `entries`: one per heading line
/// `<digits>.<digits> <title>`, with the byte offset where it starts and its
/// length in characters up to the next node.
pub fn scan_sections(data: &[u8], filename: &str, entries: &mut Vec<SectionEntry>)
    requires
        sections_fit(data@),
    ensures
        section_views(final(entries)@) == section_views(old(entries)@) + file_sections(
            data@,
            filename@,
        ),
{
    let text = lossy_chars(data);
    let ls = split_at_char(text.as_slice(), '\n');
    let ghost lv = crate::text::views(ls@);
    // headings with their start positions
    let mut titles: Vec<Vec<char>> = Vec::new();
    let mut starts: Vec<usize> = Vec::new();
    let mut char_offset: usize = 0;
    let mut i: usize = 0;
    while i < ls.len()
        invariant
            i <= ls@.len(),
            text@ == utf8_lossy(data@),
            lv == crate::text::views(ls@),
            lv == pieces(text@, '\n'),
            sections_fit(data@),
            titles@.len() == starts@.len(),
            section_starts(lv, i as int).1 == char_offset,
            section_starts(lv, i as int).0.len() == titles@.len(),
            forall|k: int|
                0 <= k < titles@.len() ==> section_starts(lv, i as int).0[k] == (
                    #[trigger] titles@[k]@,
                    starts@[k] as int,
                ),
        decreases ls@.len() - i,
    {
        proof {
            lemma_section_starts_mono(lv, i + 1, lv.len() as int);
        }
        assert(lv[i as int] == ls@[i as int]@);
        let ghost prev = section_starts(lv, i as int).0;
        match section_title_exec(ls[i].as_slice()) {
            Some(t) => {
                titles.push(t);
                starts.push(char_offset);
            },
            None => {},
        }
        let w = utf8_len_exec(ls[i].as_slice());
        char_offset = char_offset + (w as usize) + 1;
        i += 1;
        assert forall|k: int| 0 <= k < titles@.len() implies section_starts(lv, i as int).0[k] == (
            #[trigger] titles@[k]@,
            starts@[k] as int,
        ) by {
            if k < prev.len() {
            }
        }
    }
    let ghost hs = headings(text@);
    assert(section_starts(lv, lv.len() as int).0 == hs);
    let offsets = char_to_byte_offsets(data);
    let total = text.len();
    let ghost base = section_views(entries@);
    let mut k: usize = 0;
    while k < titles.len()
        invariant
            k <= titles@.len() == starts@.len() == hs.len(),
            text@ == utf8_lossy(data@),
            total == text@.len(),
            hs == headings(text@),
            sections_fit(data@),
            offsets@.len() == text@.len() + 1,
            forall|j: int| 0 <= j < offsets@.len() ==> offsets@[j] == byte_offsets(text@)[j],
            forall|j: int| 0 <= j < titles@.len() ==> hs[j] == (#[trigger] titles@[j]@, starts@[j] as int),
            section_views(entries@) == base + file_sections(data@, filename@).take(k as int),
        decreases titles@.len() - k,
    {
        let start = starts[k];
        assert(hs[k as int] == (titles@[k as int]@, start as int));
        assert(headings(text@)[k as int].1 <= text@.len());
        assert(start <= total);
        let mut end = start;
        while end < total && text[end] != '\x1F'
            invariant
                start <= end <= total == text@.len(),
                next_char(text@, '\x1F', start as int) == next_char(text@, '\x1F', end as int),
            decreases total - end,
        {
            end += 1;
        }
        proof {
            crate::text::lemma_next_char(text@, '\x1F', start as int);
        }
        let byte_off = if start < offsets.len() { offsets[start] } else { data.len() };
        let e = SectionEntry {
            title: string_of(titles[k].as_slice()),
            filename: filename.to_owned(),
            byte_offset: byte_off,
            char_length: end - start,
        };
        let ghost ev = e@;
        assert(ev.title == hs[k as int].0);
        assert(ev.char_length == (next_char(text@, '\x1F', start as int) - start) as usize);
        assert(ev.byte_offset == (utf8_len(text@.take(start as int)) as int) as usize);
        assert(ev == section_entry(text@, data@.len() as int, filename@, hs[k as int]));
        assert(file_sections(data@, filename@)[k as int] == ev);
        let ghost old_entries = entries@;
        entries.push(e);
        assert(section_views(entries@) =~= section_views(old_entries).push(ev));
        k += 1;
        assert(file_sections(data@, filename@).take(k as int) =~= file_sections(
            data@,
            filename@,
        ).take(k - 1).push(ev));
        assert(section_views(entries@) =~= base + file_sections(data@, filename@).take(k as int));
    }
    assert(file_sections(data@, filename@).take(k as int) =~= file_sections(data@, filename@));
}

} // verus!
