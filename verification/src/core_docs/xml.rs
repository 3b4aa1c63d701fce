//! What is read out of the text of Texinfo's XML: examples, labels, titles.
use vstd::prelude::*;
use super::markdown::{replace_chars, replaced};
use super::emit::{category_of, map_category, strip_title_prefix, title_prefix_stripped};
use crate::text::{
    chars_of, chars_of_string, eq_chars, find, find_chars, lemma_find_from, lines, lowercase,
    occurs_at, push_all, push_char, slice_copy, split_lines, string_of, trim, trimmed, views,
};

verus! {

// ---------------------------------------------------------------------------
// REPL examples
// ---------------------------------------------------------------------------

/// The text after a REPL marker `(<marker>N)` on a line, trimmed.
pub open spec fn repl_rest(line: Seq<char>, marker: Seq<char>) -> Option<Seq<char>> {
    let p = find(line, "("@ + marker);
    if p >= 0 {
        let q = find(line.skip(p), ")"@);
        if q >= 0 {
            Some(trim(line.skip(p + q + 1)))
        } else {
            None
        }
    } else {
        None
    }
}

/// The text after the first `(<marker>` on a line and the `)` after it,
/// trimmed; `None` when the line has no such marker.
pub fn strip_repl_marker(line: &str, marker: &str) -> (r: Option<String>)
    ensures
        match r {
            Some(s) => repl_rest(line@, marker@) == Some(s@),
            None => repl_rest(line@, marker@) is None,
        },
{
    let l = chars_of(line);
    let mut pat = chars_of("(");
    push_all(&mut pat, chars_of(marker).as_slice());
    proof {
        lemma_find_from(line@, "("@ + marker@, 0);
    }
    match find_chars(l.as_slice(), pat.as_slice()) {
        Some(p) => {
            let tail = slice_copy(l.as_slice(), p, l.len());
            assert(tail@ =~= line@.skip(p as int));
            let close = chars_of(")");
            proof {
                reveal_strlit(")");
                lemma_find_from(tail@, ")"@, 0);
            }
            match find_chars(tail.as_slice(), close.as_slice()) {
                Some(q) => {
                    assert(occurs_at(tail@, ")"@, q as int));
                    let n = tail.len();
                    assert(q < n);
                    let rest = slice_copy(tail.as_slice(), q + 1, n);
                    assert(rest@ =~= line@.skip(p + q + 1));
                    Some(string_of(trimmed(rest.as_slice()).as_slice()))
                },
                None => None,
            }
        },
        None => None,
    }
}

/// The state of the example scan: examples so far, the current input and
/// output, and whether output lines are being read.
pub struct ReplState {
    pub examples: Seq<(Seq<char>, Seq<char>)>,
    pub input: Seq<char>,
    pub output: Seq<char>,
    pub in_output: bool,
}

/// The examples with the current one added, when it has an input.
pub open spec fn repl_flushed(st: ReplState) -> Seq<(Seq<char>, Seq<char>)> {
    if st.input.len() > 0 {
        st.examples.push((trim(st.input), trim(st.output)))
    } else {
        st.examples
    }
}

/// One line of the scan: `(%iN)` starts an example, `(%oN)` its output,
/// other non-blank lines continue the output or the input.
pub open spec fn repl_step(st: ReplState, line: Seq<char>) -> ReplState {
    let t = trim(line);
    match repl_rest(t, "%i"@) {
        Some(rest) => ReplState {
            examples: repl_flushed(st),
            input: rest,
            output: Seq::empty(),
            in_output: false,
        },
        None => match repl_rest(t, "%o"@) {
            Some(rest) => ReplState { output: rest, in_output: true, ..st },
            None => if st.in_output && t.len() > 0 {
                ReplState { output: st.output + seq!['\n'] + t, ..st }
            } else if !st.in_output && st.input.len() > 0 && t.len() > 0 {
                ReplState { input: st.input + seq!['\n'] + t, ..st }
            } else {
                st
            },
        },
    }
}

pub open spec fn repl_run(ls: Seq<Seq<char>>, n: int) -> ReplState
    decreases n,
{
    if n <= 0 {
        ReplState {
            examples: Seq::empty(),
            input: Seq::empty(),
            output: Seq::empty(),
            in_output: false,
        }
    } else {
        repl_step(repl_run(ls, n - 1), ls[n - 1])
    }
}

/// The `(input, output)` pairs of a REPL transcript.
pub open spec fn repl_examples(text: Seq<char>) -> Seq<(Seq<char>, Seq<char>)> {
    let ls = lines(text);
    repl_flushed(repl_run(ls, ls.len() as int))
}

pub open spec fn pair_views(v: Seq<(String, String)>) -> Seq<(Seq<char>, Seq<char>)> {
    Seq::new(v.len(), |i: int| (v[i].0@, v[i].1@))
}

fn flush_example(examples: &mut Vec<(String, String)>, input: &Vec<char>, output: &Vec<char>)
    ensures
        pair_views(final(examples)@) == repl_flushed(
            ReplState {
                examples: pair_views(old(examples)@),
                input: input@,
                output: output@,
                in_output: false,
            },
        ),
{
    if input.len() > 0 {
        let e = (
            string_of(trimmed(input.as_slice()).as_slice()),
            string_of(trimmed(output.as_slice()).as_slice()),
        );
        let ghost o = examples@;
        let ghost ev = (e.0@, e.1@);
        examples.push(e);
        assert(pair_views(examples@) =~= pair_views(o).push(ev));
    }
}

/// Reads REPL-style examples: each `(%iN)` line starts an input, a
/// `(%oN)` line its output; further non-blank lines continue whichever is
/// being read. Inputs and outputs are trimmed.
pub fn parse_repl_examples(text: &str) -> (r: Vec<(String, String)>)
    ensures
        pair_views(r@) == repl_examples(text@),
{
    let ls = split_lines(chars_of(text).as_slice());
    let ghost lv = views(ls@);
    let mut examples: Vec<(String, String)> = Vec::new();
    let mut input: Vec<char> = Vec::new();
    let mut output: Vec<char> = Vec::new();
    let mut in_output = false;
    let mut i: usize = 0;
    assert(pair_views(examples@) =~= Seq::<(Seq<char>, Seq<char>)>::empty());
    assert(input@ =~= Seq::<char>::empty());
    assert(output@ =~= Seq::<char>::empty());
    assert(repl_run(lv, 0) =~= (ReplState {
        examples: pair_views(examples@),
        input: input@,
        output: output@,
        in_output,
    }));
    while i < ls.len()
        invariant
            i <= ls@.len(),
            lv == views(ls@),
            lv == lines(text@),
            repl_run(lv, i as int) == (ReplState {
                examples: pair_views(examples@),
                input: input@,
                output: output@,
                in_output,
            }),
        decreases ls@.len() - i,
    {
        assert(lv[i as int] == ls@[i as int]@);
        let ghost nxt = repl_step(repl_run(lv, i as int), lv[i as int]);
        let t = trimmed(ls[i].as_slice());
        let ts = string_of(t.as_slice());
        match strip_repl_marker(ts.as_str(), "%i") {
            Some(rest) => {
                flush_example(&mut examples, &input, &output);
                input = chars_of_string(&rest);
                output = Vec::new();
                in_output = false;
            },
            None => match strip_repl_marker(ts.as_str(), "%o") {
                Some(rest) => {
                    output = chars_of_string(&rest);
                    in_output = true;
                },
                None => {
                    if in_output && t.len() > 0 {
                        output.push('\n');
                        push_all(&mut output, t.as_slice());
                    } else if !in_output && input.len() > 0 && t.len() > 0 {
                        input.push('\n');
                        push_all(&mut input, t.as_slice());
                    }
                },
            },
        }
        i += 1;
        assert(nxt.examples =~= pair_views(examples@));
        assert(nxt.input =~= input@);
        assert(nxt.output =~= output@);
        assert(nxt.in_output == in_output);
        assert(repl_run(lv, i as int) =~= (ReplState {
            examples: pair_views(examples@),
            input: input@,
            output: output@,
            in_output,
        }));
    }
    flush_example(&mut examples, &input, &output);
    examples
}

// ---------------------------------------------------------------------------
// Labels
// ---------------------------------------------------------------------------

pub open spec fn hex_value(c: char) -> int {
    if '0' <= c <= '9' {
        c as int - '0' as int
    } else if 'a' <= c <= 'f' {
        c as int - 'a' as int + 10
    } else if 'A' <= c <= 'F' {
        c as int - 'A' as int + 10
    } else {
        -1
    }
}

/// `u32::from_str_radix(h, 16)` on four characters: four hex digits, or
/// `+` and three hex digits.
pub open spec fn hex4(h: Seq<char>) -> Option<int> {
    if h.len() != 4 {
        None
    } else if h[0] == '+' {
        if hex_value(h[1]) >= 0 && hex_value(h[2]) >= 0 && hex_value(h[3]) >= 0 {
            Some(hex_value(h[1]) * 256 + hex_value(h[2]) * 16 + hex_value(h[3]))
        } else {
            None
        }
    } else if hex_value(h[0]) >= 0 && hex_value(h[1]) >= 0 && hex_value(h[2]) >= 0
        && hex_value(h[3]) >= 0 {
        Some(hex_value(h[0]) * 4096 + hex_value(h[1]) * 256 + hex_value(h[2]) * 16 + hex_value(h[3]))
    } else {
        None
    }
}

/// A Unicode scalar value (what `char::from_u32` accepts).
pub open spec fn is_scalar(v: int) -> bool {
    0 <= v <= 0x10FFFF && !(0xD800 <= v <= 0xDFFF)
}

/// `label` from index `i` on, with each `_XXXX` (four hex digits naming a
/// character) replaced by that character; other text is kept.
pub open spec fn label_decoded(s: Seq<char>, i: int) -> Seq<char>
    decreases s.len() - i,
{
    if i < 0 || i >= s.len() {
        Seq::empty()
    } else if s[i] == '_' {
        let e = if i + 5 <= s.len() { i + 5 } else { s.len() as int };
        let h = s.subrange(i + 1, e);
        match hex4(h) {
            Some(v) => if is_scalar(v) {
                seq![v as char] + label_decoded(s, e)
            } else {
                seq!['_'] + h + label_decoded(s, e)
            },
            None => seq!['_'] + h + label_decoded(s, e),
        }
    } else {
        seq![s[i]] + label_decoded(s, i + 1)
    }
}

/// `char::from_u32`: the character of a Unicode scalar value; `None` for a
/// surrogate or a value past U+10FFFF.
#[verifier::external_body]
fn char_from_u32(code: u32) -> (r: Option<char>)
    ensures
        r is Some <==> is_scalar(code as int),
        r matches Some(c) ==> c == code as char,
{
    char::from_u32(code)
}

fn hex_value_exec(c: char) -> (r: i64)
    ensures
        r == hex_value(c),
{
    if '0' <= c && c <= '9' {
        (c as u32 - '0' as u32) as i64
    } else if 'a' <= c && c <= 'f' {
        (c as u32 - 'a' as u32) as i64 + 10
    } else if 'A' <= c && c <= 'F' {
        (c as u32 - 'A' as u32) as i64 + 10
    } else {
        -1
    }
}

fn hex4_exec(h: &[char]) -> (r: Option<u32>)
    ensures
        match r {
            Some(v) => hex4(h@) == Some(v as int),
            None => hex4(h@) is None,
        },
{
    if h.len() != 4 {
        return None;
    }
    if h[0] == '+' {
        let a = hex_value_exec(h[1]);
        let b = hex_value_exec(h[2]);
        let c = hex_value_exec(h[3]);
        if a >= 0 && b >= 0 && c >= 0 {
            Some((a * 256 + b * 16 + c) as u32)
        } else {
            None
        }
    } else {
        let a = hex_value_exec(h[0]);
        let b = hex_value_exec(h[1]);
        let c = hex_value_exec(h[2]);
        let d = hex_value_exec(h[3]);
        if a >= 0 && b >= 0 && c >= 0 && d >= 0 {
            Some((a * 4096 + b * 256 + c * 16 + d) as u32)
        } else {
            None
        }
    }
}

/// Decodes Texinfo's encoded labels: `_XXXX` (four hex digits) becomes the
/// character with that code (`_005f` is `_`, `_0025` is `%`).
pub fn decode_texinfo_label(label: &str) -> (r: String)
    ensures
        r@ == label_decoded(label@, 0),
{
    let s = chars_of(label);
    let n = s.len();
    let mut out: Vec<char> = Vec::new();
    let mut i: usize = 0;
    while i < n
        invariant
            i <= n == s@.len(),
            s@ == label@,
            out@ + label_decoded(s@, i as int) == label_decoded(s@, 0),
        decreases n - i,
    {
        let ghost o = out@;
        if s[i] == '_' {
            let e = if n - i >= 5 { i + 5 } else { n };
            let h = slice_copy(s.as_slice(), i + 1, e);
            let decoded = match hex4_exec(h.as_slice()) {
                Some(v) => char_from_u32(v),
                None => None,
            };
            match decoded {
                Some(c) => {
                    out.push(c);
                },
                None => {
                    out.push('_');
                    push_all(&mut out, h.as_slice());
                },
            }
            assert(o + label_decoded(s@, i as int) =~= out@ + label_decoded(s@, e as int));
            i = e;
        } else {
            out.push(s[i]);
            assert(o + label_decoded(s@, i as int) =~= out@ + label_decoded(s@, i + 1));
            i += 1;
        }
    }
    assert(out@ + label_decoded(s@, i as int) =~= out@);
    string_of(out.as_slice())
}

// ---------------------------------------------------------------------------
// Titles and categories
// ---------------------------------------------------------------------------

/// A chapter title without the common Maxima title prefixes.
pub fn clean_chapter_name(raw: &str) -> (r: String)
    ensures
        r@ == strip_title_prefix(raw@),
{
    string_of(title_prefix_stripped(raw).as_slice())
}

/// The category that `map_category` gives a title.
pub open spec fn mapped(title: Seq<char>) -> Seq<char> {
    category_of(lowercase(strip_title_prefix(title)))
}

/// The topical category of a definition: its section title's category
/// unless that is empty or `Other`, else its chapter title's.
pub fn extract_category(chapter_title: &str, section_title: &str) -> (r: String)
    ensures
        r@ == (if section_title@.len() > 0 && mapped(section_title@) != "Other"@ {
            mapped(section_title@)
        } else {
            mapped(chapter_title@)
        }),
{
    if !section_title.is_empty() {
        let m = map_category(section_title);
        if !eq_chars(chars_of_string(&m).as_slice(), chars_of("Other").as_slice()) {
            return m;
        }
    }
    map_category(chapter_title)
}

// ---------------------------------------------------------------------------
// The manual's version
// ---------------------------------------------------------------------------

/// The version in an `AC_INIT([name], [version], ...)` line: the text
/// between the second `[` and the `]` after it.
pub open spec fn ac_init_version(line: Seq<char>) -> Option<Seq<char>> {
    let a = crate::text::next_char(line, '[', 0);
    let b = crate::text::next_char(line, '[', a + 1);
    let c = crate::text::next_char(line, ']', b + 1);
    if crate::text::has_prefix(line, "AC_INIT"@) && a < line.len() && b < line.len() && c < line.len() {
        Some(line.subrange(b + 1, c))
    } else {
        None
    }
}

/// The version of the first `AC_INIT` line of `ls` that names one.
pub open spec fn first_ac_init(ls: Seq<Seq<char>>) -> Option<Seq<char>>
    decreases ls.len(),
{
    if ls.len() == 0 {
        None
    } else {
        match ac_init_version(ls[0]) {
            Some(v) => Some(v),
            None => first_ac_init(ls.drop_first()),
        }
    }
}

fn next_char_exec(s: &[char], c: char, i: usize) -> (r: usize)
    requires
        i <= s@.len(),
    ensures
        r == crate::text::next_char(s@, c, i as int),
        i <= r <= s@.len(),
{
    let mut k = i;
    while k < s.len() && s[k] != c
        invariant
            i <= k <= s@.len(),
            crate::text::next_char(s@, c, i as int) == crate::text::next_char(s@, c, k as int),
        decreases s@.len() - k,
    {
        k += 1;
    }
    k
}

/// The Maxima version named by `configure.ac`: that of its first
/// `AC_INIT([maxima], [version], ...)` line, else `5.47.0`.
pub fn configure_version(content: &str) -> (r: String)
    ensures
        r@ == match first_ac_init(lines(content@)) {
            Some(v) => v,
            None => "5.47.0"@,
        },
{
    let ls = split_lines(chars_of(content).as_slice());
    let ghost lv = views(ls@);
    let pre = chars_of("AC_INIT");
    let mut i: usize = 0;
    assert(lv.skip(0) =~= lv);
    while i < ls.len()
        invariant
            i <= ls.len(),
            lv == views(ls@),
            lv == lines(content@),
            pre@ == "AC_INIT"@,
            first_ac_init(lv) == first_ac_init(lv.skip(i as int)),
        decreases ls.len() - i,
    {
        let l = ls[i].as_slice();
        assert(lv.skip(i as int)[0] == l@);
        if crate::text::starts_with(l, pre.as_slice()) {
            let a = next_char_exec(l, '[', 0);
            if a < l.len() {
                let b = next_char_exec(l, '[', a + 1);
                if b < l.len() {
                    let c = next_char_exec(l, ']', b + 1);
                    if c < l.len() {
                        return string_of(slice_copy(l, b + 1, c).as_slice());
                    }
                }
            }
        }
        assert(lv.skip(i as int).drop_first() =~= lv.skip(i + 1));
        i += 1;
    }
    "5.47.0".to_string()
}

/// A `.texi.in` template filled in: every `@manual_version@` replaced by
/// the version, then every `@abs_srcdir@` by the source directory.
pub fn texi_in_content(content: &str, version: &str, srcdir: &str) -> (r: String)
    ensures
        r@ == replaced(replaced(content@, "@manual_version@"@, version@), "@abs_srcdir@"@, srcdir@),
{
    let c = chars_of(content);
    let once = replace_chars(c.as_slice(), chars_of("@manual_version@").as_slice(), chars_of(version).as_slice());
    let twice = replace_chars(once.as_slice(), chars_of("@abs_srcdir@").as_slice(), chars_of(srcdir).as_slice());
    string_of(twice.as_slice())
}

} // verus!
