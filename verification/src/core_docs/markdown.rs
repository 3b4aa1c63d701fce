//! Texinfo text turned into markdown: entities, inline commands, math and
//! figures.
use vstd::prelude::*;
use crate::text::{
    chars_of, ends_with, has_prefix, has_suffix, matches_at, next_char, occurs_at, push_all,
    push_char, push_str, slice_copy, starts_with, string_of, trim, trimmed, chars_of_string,
};

verus! {

// ---------------------------------------------------------------------------
// Replacement
// ---------------------------------------------------------------------------

/// `s` from index `i` on with every occurrence of `p`, scanning from the
/// left without overlaps, replaced by `r` (`str::replace`; a text without
/// a pattern stays as it is).
pub open spec fn replaced_from(s: Seq<char>, p: Seq<char>, r: Seq<char>, i: int) -> Seq<char>
    decreases s.len() - i,
{
    if i < 0 || i >= s.len() {
        Seq::empty()
    } else if p.len() > 0 && occurs_at(s, p, i) {
        r + replaced_from(s, p, r, i + p.len())
    } else {
        seq![s[i]] + replaced_from(s, p, r, i + 1)
    }
}

pub open spec fn replaced(s: Seq<char>, p: Seq<char>, r: Seq<char>) -> Seq<char> {
    replaced_from(s, p, r, 0)
}

/// `s` with every occurrence of `p` replaced by `r`.
pub fn replace_chars(s: &[char], p: &[char], r: &[char]) -> (out: Vec<char>)
    ensures
        out@ == replaced(s@, p@, r@),
{
    let mut out: Vec<char> = Vec::new();
    let n = s.len();
    let mut i: usize = 0;
    while i < n
        invariant
            i <= n == s@.len(),
            out@ + replaced_from(s@, p@, r@, i as int) == replaced(s@, p@, r@),
        decreases n - i,
    {
        let ghost o = out@;
        if p.len() > 0 && matches_at(s, p, i) {
            push_all(&mut out, r);
            assert(o + replaced_from(s@, p@, r@, i as int) =~= out@ + replaced_from(
                s@,
                p@,
                r@,
                i + p@.len(),
            ));
            i = i + p.len();
        } else {
            out.push(s[i]);
            assert(o + replaced_from(s@, p@, r@, i as int) =~= out@ + replaced_from(
                s@,
                p@,
                r@,
                i + 1,
            ));
            i = i + 1;
        }
    }
    assert(out@ + replaced_from(s@, p@, r@, i as int) =~= out@);
    out
}

/// The entities of Texinfo's XML output and their text.
pub open spec fn texinfo_entities() -> Seq<(&'static str, &'static str)> {
    seq![
        ("&arobase;", "@"),
        ("&lbrace;", "{"),
        ("&rbrace;", "}"),
        ("&lbracechar;", "{"),
        ("&rbracechar;", "}"),
        ("&atchar;", "@"),
        ("&bsol;", "\\"),
        ("&dots;", "..."),
        ("&enddots;", "..."),
        ("&comma;", ","),
        ("&linebreak;", "\n"),
        ("&hyphenbreak;", "\u{00AD}"),
        ("&szlig;", "\u{00DF}"),
        ("&tex;", "TeX"),
        ("&textldquo;", "\u{201c}"),
        ("&textrdquo;", "\u{201d}"),
        ("&textlsquo;", "\u{2018}"),
        ("&textrsquo;", "\u{2019}"),
        ("&textmdash;", "\u{2014}"),
        ("&textndash;", "\u{2013}"),
        ("&rarr;", "->"),
        ("&rArr;", "=>"),
        ("&euro;", "EUR"),
        ("&pound;", "GBP"),
        ("&bullet;", "*"),
        ("&minus;", "-"),
        ("&nbsp;", " "),
        ("&period;", "."),
    ]
}

/// `s` after the first `n` entity replacements, applied one after another.
pub open spec fn entities_replaced(s: Seq<char>, es: Seq<(&str, &str)>, n: int) -> Seq<char>
    decreases n,
{
    if n <= 0 {
        s
    } else {
        replaced(entities_replaced(s, es, n - 1), es[n - 1].0@, es[n - 1].1@)
    }
}

/// Replaces the Texinfo-specific XML entities, one kind after another in a
/// fixed order, with the text they stand for.
pub fn replace_texinfo_entities(xml: &str) -> (r: String)
    ensures
        r@ == entities_replaced(xml@, texinfo_entities(), texinfo_entities().len() as int),
{
    let es = [
        ("&arobase;", "@"),
        ("&lbrace;", "{"),
        ("&rbrace;", "}"),
        ("&lbracechar;", "{"),
        ("&rbracechar;", "}"),
        ("&atchar;", "@"),
        ("&bsol;", "\\"),
        ("&dots;", "..."),
        ("&enddots;", "..."),
        ("&comma;", ","),
        ("&linebreak;", "\n"),
        ("&hyphenbreak;", "\u{00AD}"),
        ("&szlig;", "\u{00DF}"),
        ("&tex;", "TeX"),
        ("&textldquo;", "\u{201c}"),
        ("&textrdquo;", "\u{201d}"),
        ("&textlsquo;", "\u{2018}"),
        ("&textrsquo;", "\u{2019}"),
        ("&textmdash;", "\u{2014}"),
        ("&textndash;", "\u{2013}"),
        ("&rarr;", "->"),
        ("&rArr;", "=>"),
        ("&euro;", "EUR"),
        ("&pound;", "GBP"),
        ("&bullet;", "*"),
        ("&minus;", "-"),
        ("&nbsp;", " "),
        ("&period;", "."),
    ];
    assert(es@ == texinfo_entities());
    let mut cur = chars_of(xml);
    let mut i: usize = 0;
    while i < es.len()
        invariant
            i <= es@.len(),
            es@ == texinfo_entities(),
            cur@ == entities_replaced(xml@, texinfo_entities(), i as int),
        decreases es@.len() - i,
    {
        let (from, to) = es[i];
        cur = replace_chars(cur.as_slice(), chars_of(from).as_slice(), chars_of(to).as_slice());
        i += 1;
    }
    string_of(cur.as_slice())
}

// ---------------------------------------------------------------------------
// Inline commands
// ---------------------------------------------------------------------------

pub open spec fn is_word_char(c: char) -> bool {
    ('a' <= c <= 'z') || ('A' <= c <= 'Z') || ('0' <= c <= '9') || c == '_'
}

/// End of the run of word characters starting at `i`.
pub open spec fn word_end(s: Seq<char>, i: int) -> int
    decreases s.len() - i,
{
    if 0 <= i < s.len() && is_word_char(s[i]) {
        word_end(s, i + 1)
    } else {
        i
    }
}

pub proof fn lemma_word_end(s: Seq<char>, i: int)
    requires
        0 <= i <= s.len(),
    ensures
        i <= word_end(s, i) <= s.len(),
    decreases s.len() - i,
{
    if i < s.len() && is_word_char(s[i]) {
        lemma_word_end(s, i + 1);
    }
}

/// A command `@name{content}` starts at `i`: the bounds of its content,
/// which runs to the first `}`.
pub open spec fn command_at(s: Seq<char>, i: int) -> Option<(int, int)> {
    if 0 <= i < s.len() && s[i] == '@' {
        let e = word_end(s, i + 1);
        if e > i + 1 && e < s.len() && s[e] == '{' {
            let j = next_char(s, '}', e + 1);
            if j < s.len() {
                Some((e + 1, j))
            } else {
                None
            }
        } else {
            None
        }
    } else {
        None
    }
}

/// One pass over `s` from `i` on: each command, leftmost first and without
/// overlaps, is replaced by its content.
pub open spec fn commands_stripped(s: Seq<char>, i: int) -> Seq<char>
    decreases s.len() - i,
{
    if i < 0 || i >= s.len() {
        Seq::empty()
    } else {
        match command_at(s, i) {
            Some((a, j)) => if i < a <= j < s.len() {
                s.subrange(a, j) + commands_stripped(s, j + 1)
            } else {
                Seq::empty()
            },
            None => seq![s[i]] + commands_stripped(s, i + 1),
        }
    }
}

pub proof fn lemma_command_at(s: Seq<char>, i: int)
    requires
        0 <= i < s.len(),
    ensures
        command_at(s, i) matches Some((a, j)) ==> i + 2 <= a <= j < s.len(),
{
    if s[i] == '@' {
        lemma_word_end(s, i + 1);
        let e = word_end(s, i + 1);
        if e > i + 1 && e < s.len() && s[e] == '{' {
            crate::text::lemma_next_char(s, '}', e + 1);
        }
    }
}

/// A pass leaves the text as it is, or makes it shorter.
pub proof fn lemma_stripped_len(s: Seq<char>, i: int)
    requires
        0 <= i <= s.len(),
    ensures
        commands_stripped(s, i).len() <= s.len() - i,
        commands_stripped(s, i) != s.skip(i) ==> commands_stripped(s, i).len() < s.len() - i,
    decreases s.len() - i,
{
    if i < s.len() {
        lemma_command_at(s, i);
        match command_at(s, i) {
            Some((a, j)) => {
                lemma_stripped_len(s, j + 1);
            },
            None => {
                lemma_stripped_len(s, i + 1);
                if commands_stripped(s, i) != s.skip(i) {
                    assert(s.skip(i) =~= seq![s[i]] + s.skip(i + 1));
                }
            },
        }
    } else {
        assert(s.skip(i) =~= Seq::<char>::empty());
    }
}

/// Passes repeated until one changes nothing.
pub open spec fn commands_removed(s: Seq<char>) -> Seq<char>
    decreases s.len(),
{
    let t = commands_stripped(s, 0);
    if t == s {
        s
    } else {
        proof {
            lemma_stripped_len(s, 0);
            assert(s.skip(0) =~= s);
        }
        commands_removed(t)
    }
}

/// A pass that leaves the text from `i` on unchanged found no command there.
proof fn lemma_unchanged_no_command(t: Seq<char>, i: int)
    requires
        0 <= i <= t.len(),
        commands_stripped(t, i) == t.skip(i),
    ensures
        forall|k: int| i <= k < t.len() ==> command_at(t, k) is None,
    decreases t.len() - i,
{
    if i < t.len() {
        lemma_command_at(t, i);
        match command_at(t, i) {
            Some((a, j)) => {
                lemma_stripped_len(t, j + 1);
                assert(commands_stripped(t, i).len() < t.skip(i).len());
            },
            None => {
                assert(t.skip(i) =~= seq![t[i]] + t.skip(i + 1));
                assert(commands_stripped(t, i) == seq![t[i]] + commands_stripped(t, i + 1));
                let x = commands_stripped(t, i + 1);
                assert((seq![t[i]] + x).skip(1) =~= x);
                assert((seq![t[i]] + t.skip(i + 1)).skip(1) =~= t.skip(i + 1));
                assert(x == t.skip(i + 1));
                lemma_unchanged_no_command(t, i + 1);
            },
        }
    }
}

/// Removing commands until none is found leaves no `@name{content}`
/// command anywhere in the text.
pub proof fn lemma_no_command_left(s: Seq<char>)
    ensures
        forall|k: int| 0 <= k < commands_removed(s).len() ==> command_at(commands_removed(s), k) is None,
    decreases s.len(),
{
    let t = commands_stripped(s, 0);
    if t == s {
        assert(s.skip(0) =~= s);
        lemma_unchanged_no_command(s, 0);
    } else {
        lemma_stripped_len(s, 0);
        assert(s.skip(0) =~= s);
        lemma_no_command_left(t);
    }
}

/// `text` with every inline command `@name{content}` replaced by its
/// content until none is left, then `@@` turned into `@`.
pub open spec fn markup_cleaned(text: Seq<char>) -> Seq<char> {
    replaced(commands_removed(text), "@@"@, "@"@)
}

fn strip_pass(s: &[char]) -> (r: Vec<char>)
    ensures
        r@ == commands_stripped(s@, 0),
{
    let mut out: Vec<char> = Vec::new();
    let n = s.len();
    let mut i: usize = 0;
    while i < n
        invariant
            i <= n == s@.len(),
            out@ + commands_stripped(s@, i as int) == commands_stripped(s@, 0),
        decreases n - i,
    {
        proof {
            lemma_command_at(s@, i as int);
        }
        let ghost o = out@;
        let mut found = false;
        if s[i] == '@' {
            let mut e = i + 1;
            while e < n && (('a' <= s[e] && s[e] <= 'z') || ('A' <= s[e] && s[e] <= 'Z') || ('0'
                <= s[e] && s[e] <= '9') || s[e] == '_')
                invariant
                    i < e <= n == s@.len(),
                    word_end(s@, e as int) == word_end(s@, i + 1),
                decreases n - e,
            {
                e += 1;
            }
            if e > i + 1 && e < n && s[e] == '{' {
                let mut j = e + 1;
                while j < n && s[j] != '}'
                    invariant
                        e < j <= n == s@.len(),
                        next_char(s@, '}', j as int) == next_char(s@, '}', e + 1),
                    decreases n - j,
                {
                    j += 1;
                }
                if j < n {
                    let content = slice_copy(s, e + 1, j);
                    push_all(&mut out, content.as_slice());
                    assert(command_at(s@, i as int) == Some((e + 1, j as int)));
                    assert(o + commands_stripped(s@, i as int) =~= out@ + commands_stripped(
                        s@,
                        j + 1,
                    ));
                    i = j + 1;
                    found = true;
                }
            }
        }
        if !found {
            assert(command_at(s@, i as int) is None);
            out.push(s[i]);
            assert(o + commands_stripped(s@, i as int) =~= out@ + commands_stripped(
                s@,
                i + 1,
            ));
            i += 1;
        }
    }
    assert(out@ + commands_stripped(s@, i as int) =~= out@);
    out
}

fn eq_vec(a: &Vec<char>, b: &Vec<char>) -> (r: bool)
    ensures
        r == (a@ == b@),
{
    crate::text::eq_chars(a.as_slice(), b.as_slice())
}

/// Replaces inline Texinfo commands `@name{content}` by their content until
/// none is left, then `@@` by `@`.
pub fn clean_texinfo_markup(text: &str) -> (r: String)
    ensures
        r@ == markup_cleaned(text@),
{
    let mut cur = chars_of(text);
    loop
        invariant
            commands_removed(cur@) == commands_removed(text@),
        ensures
            commands_removed(cur@) == commands_removed(text@),
            commands_stripped(cur@, 0) == cur@,
        decreases cur@.len(),
    {
        let next = strip_pass(cur.as_slice());
        proof {
            lemma_stripped_len(cur@, 0);
            assert(cur@.skip(0) =~= cur@);
        }
        if eq_vec(&next, &cur) {
            break;
        }
        cur = next;
    }
    let out = replace_chars(cur.as_slice(), chars_of("@@").as_slice(), chars_of("@").as_slice());
    assert(commands_removed(cur@) == cur@);
    string_of(out.as_slice())
}

// ---------------------------------------------------------------------------
// Raw Texinfo
// ---------------------------------------------------------------------------

/// The markdown of a raw Texinfo fragment (already trimmed): inline math,
/// display math, a figure reference, or the text with its commands removed.
pub open spec fn raw_markdown(t: Seq<char>) -> Seq<char> {
    let math = t.skip(6);
    let fig = t.skip(8);
    if has_prefix(t, "@math{"@) && math.len() > 0 && math.last() == '}' {
        "$"@ + math.drop_last() + "$"@
    } else if has_prefix(t, "@displaymath"@) {
        let a = t.skip(12);
        let b = if has_suffix(a, "@end displaymath"@) { a.take(a.len() - 16) } else { t };
        "\n$$"@ + trim(b) + "$$\n"@
    } else if has_prefix(t, "(Figure "@) && fig.len() > 0 && fig.last() == ')' {
        let name = fig.drop_last();
        let k = next_char(name, ':', 0);
        let file = if k < name.len() { trim(name.take(k)) } else { trim(name) };
        let desc = if k < name.len() { trim(name.skip(k + 1)) } else { trim(name) };
        "!["@ + desc + "](figures/"@ + file + ".png)"@
    } else {
        markup_cleaned(t)
    }
}

/// Appends the markdown of a raw Texinfo fragment: `@math{..}` as `$..$`,
/// `@displaymath` as a `$$` block, `(Figure name: desc)` as an image, and
/// anything else with its inline commands removed.
pub fn convert_raw_texinfo(text: &str, out: &mut String)
    ensures
        final(out)@ == old(out)@ + raw_markdown(trim(text@)),
{
    let t = trimmed(chars_of(text).as_slice());
    let mut o = chars_of_string(out);
    let math = chars_of("@math{");
    let disp = chars_of("@displaymath");
    let fig = chars_of("(Figure ");
    proof {
        reveal_strlit("@math{");
        reveal_strlit("@displaymath");
        reveal_strlit("(Figure ");
        reveal_strlit("@end displaymath");
    }
    if starts_with(t.as_slice(), math.as_slice()) && t.len() > 6 && t[t.len() - 1] == '}' {
        push_str(&mut o, "$");
        push_all(&mut o, slice_copy(t.as_slice(), 6, t.len() - 1).as_slice());
        push_str(&mut o, "$");
        assert(t@.skip(6).drop_last() =~= t@.subrange(6, t@.len() - 1));
        assert(t@.skip(6).last() == t@[t@.len() - 1]);
        assert(o@ =~= old(out)@ + raw_markdown(t@));
    } else if starts_with(t.as_slice(), disp.as_slice()) {
        let a = slice_copy(t.as_slice(), 12, t.len());
        assert(a@ =~= t@.skip(12));
        let end = chars_of("@end displaymath");
        let b = if ends_with(a.as_slice(), end.as_slice()) {
            let v = slice_copy(a.as_slice(), 0, a.len() - 16);
            assert(v@ =~= a@.take(a@.len() - 16));
            v
        } else {
            slice_copy(t.as_slice(), 0, t.len())
        };
        proof {
            assert(t@.subrange(0, t@.len() as int) =~= t@);
        }
        push_str(&mut o, "\n$$");
        push_all(&mut o, trimmed(b.as_slice()).as_slice());
        push_str(&mut o, "$$\n");
        assert(o@ =~= old(out)@ + raw_markdown(t@));
    } else if starts_with(t.as_slice(), fig.as_slice()) && t.len() > 8 && t[t.len() - 1] == ')' {
        let name = slice_copy(t.as_slice(), 8, t.len() - 1);
        assert(name@ =~= t@.skip(8).drop_last());
        let mut k: usize = 0;
        while k < name.len() && name[k] != ':'
            invariant
                k <= name@.len(),
                next_char(name@, ':', k as int) == next_char(name@, ':', 0),
            decreases name@.len() - k,
        {
            k += 1;
        }
        let (file, desc) = if k < name.len() {
            let f = trimmed(slice_copy(name.as_slice(), 0, k).as_slice());
            let d = trimmed(slice_copy(name.as_slice(), k + 1, name.len()).as_slice());
            assert(name@.subrange(0, k as int) =~= name@.take(k as int));
            assert(name@.subrange(k + 1, name@.len() as int) =~= name@.skip(k + 1));
            (f, d)
        } else {
            (trimmed(name.as_slice()), trimmed(name.as_slice()))
        };
        push_str(&mut o, "![");
        push_all(&mut o, desc.as_slice());
        push_str(&mut o, "](figures/");
        push_all(&mut o, file.as_slice());
        push_str(&mut o, ".png)");
        assert(t@.skip(8).last() == t@[t@.len() - 1]);
        assert(o@ =~= old(out)@ + raw_markdown(t@));
    } else {
        let cleaned = clean_texinfo_markup(string_of(t.as_slice()).as_str());
        push_str(&mut o, cleaned.as_str());
        assert(o@ =~= old(out)@ + raw_markdown(t@));
    }
    *out = string_of(o.as_slice());
}

} // verus!
