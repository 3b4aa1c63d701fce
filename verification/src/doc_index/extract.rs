//! What is read out of a definition's body: summary, examples, cross-references.
use vstd::prelude::*;
use crate::info_scan::{decimal_run_end, decimal_run_end_exec};
use crate::text::{
    chars_of, contains, contains_chars, has_prefix, join, join_chars, lemma_next_char,
    lemma_views_push, lemma_ws_skip_bounds, lines, next_char, push_all, skip_ws, slice_copy,
    split_lines, starts_with, string_of, trim, trim_start, trimmed, trimmed_start, views, ws_skip,
};

verus! {

// ---------------------------------------------------------------------------
// Inline markup
// ---------------------------------------------------------------------------

/// `d` (1 or 2) copies of `c` start at `i`.
pub open spec fn delim_at(s: Seq<char>, c: char, d: int, i: int) -> bool {
    &&& 0 <= i < s.len()
    &&& s[i] == c
    &&& (d == 1 || (i + 1 < s.len() && s[i + 1] == c))
}

/// Replacing every `D text D` (`D` being `d` copies of `c`, `text` a non-empty
/// run without `c`) by `text`, scanning left to right from `i`.
pub open spec fn unwrap_from(s: Seq<char>, c: char, d: int, i: int) -> Seq<char>
    decreases s.len() - i,
{
    if i < 0 || i >= s.len() || d < 1 || d > 2 {
        Seq::empty()
    } else {
        let j = next_char(s, c, i + d);
        if delim_at(s, c, d, i) && j < s.len() && j > i + d && delim_at(s, c, d, j) {
            s.subrange(i + d, j) + unwrap_from(s, c, d, j + d)
        } else {
            seq![s[i]] + unwrap_from(s, c, d, i + 1)
        }
    }
}

/// Inline code, bold and italic markers removed, in that order.
pub open spec fn strip_inline(s: Seq<char>) -> Seq<char> {
    let a = unwrap_from(s, '`', 1, 0);
    let b = unwrap_from(a, '*', 2, 0);
    unwrap_from(b, '*', 1, 0)
}

/// No `*` and no backtick: text that inline markup leaves alone.
pub open spec fn plain_text(s: Seq<char>) -> bool {
    forall|k: int| 0 <= k < s.len() ==> #[trigger] s[k] != '*' && s[k] != '`'
}

proof fn lemma_next_char_after(x: Seq<char>, y: Seq<char>, c: char, k: int)
    requires
        0 <= k <= y.len(),
    ensures
        next_char(x + y, c, x.len() + k) == x.len() + next_char(y, c, k),
    decreases y.len() - k,
{
    if k < y.len() {
        assert((x + y)[x.len() + k] == y[k]);
        lemma_next_char_after(x, y, c, k + 1);
    }
}

proof fn lemma_unwrap_after(x: Seq<char>, y: Seq<char>, c: char, d: int, k: int)
    requires
        1 <= d <= 2,
        0 <= k <= y.len(),
    ensures
        unwrap_from(x + y, c, d, x.len() + k) == unwrap_from(y, c, d, k),
    decreases y.len() - k,
{
    let s = x + y;
    if k < y.len() {
        let i = x.len() + k;
        assert(s[i] == y[k]);
        if k + 1 < y.len() {
            assert(s[i + 1] == y[k + 1]);
        }
        assert(delim_at(s, c, d, i) == delim_at(y, c, d, k));
        if k + d <= y.len() {
            lemma_next_char_after(x, y, c, k + d);
        } else {
            assert(next_char(s, c, i + d) == s.len());
            assert(next_char(y, c, k + d) == y.len());
        }
        let j = next_char(y, c, k + d);
        lemma_unwrap_after(x, y, c, d, k + 1);
        if delim_at(y, c, d, k) && j < y.len() && j > k + d && delim_at(y, c, d, j) {
            assert(s[x.len() + j] == y[j]);
            if j + 1 < y.len() {
                assert(s[x.len() + j + 1] == y[j + 1]);
            }
            assert(delim_at(s, c, d, x.len() + j));
            if j + d <= y.len() {
                lemma_unwrap_after(x, y, c, d, j + d);
            }
            assert(s.subrange(i + d, x.len() + j) =~= y.subrange(k + d, j));
        }
    }
}

/// Markup removal copies a stretch without the delimiter and goes on with
/// what follows as on its own.
proof fn lemma_unwrap_prefix(x: Seq<char>, y: Seq<char>, c: char, d: int, i: int)
    requires
        1 <= d <= 2,
        0 <= i <= x.len(),
        forall|k: int| 0 <= k < x.len() ==> #[trigger] x[k] != c,
    ensures
        unwrap_from(x + y, c, d, i) == x.skip(i) + unwrap_from(y, c, d, 0),
    decreases x.len() - i,
{
    let s = x + y;
    if i < x.len() {
        assert(s[i] == x[i]);
        lemma_unwrap_prefix(x, y, c, d, i + 1);
        assert(x.skip(i) =~= seq![x[i]] + x.skip(i + 1));
    } else {
        lemma_unwrap_after(x, y, c, d, 0);
        assert(x.skip(i) =~= Seq::<char>::empty());
    }
}

proof fn lemma_no_c(s: Seq<char>, c: char)
    requires
        plain_text(s),
        c == '*' || c == '`',
    ensures
        forall|k: int| 0 <= k < s.len() ==> #[trigger] s[k] != c,
{
}

/// One delimited run `D t D` (`D` being `d` copies of `c`) right after a
/// stretch `a` without `c`: the run gives `t`, and what follows is treated
/// as on its own.
proof fn lemma_unwrap_pair(a: Seq<char>, t: Seq<char>, y: Seq<char>, c: char, d: int)
    requires
        1 <= d <= 2,
        t.len() > 0,
        forall|k: int| 0 <= k < a.len() ==> #[trigger] a[k] != c,
        forall|k: int| 0 <= k < t.len() ==> #[trigger] t[k] != c,
    ensures
        unwrap_from(a + Seq::new(d as nat, |k: int| c) + t + Seq::new(d as nat, |k: int| c) + y, c, d, 0)
            == a + t + unwrap_from(y, c, d, 0),
{
    let dd = Seq::new(d as nat, |k: int| c);
    let w = dd + t + dd + y;
    let s = a + w;
    assert(a + dd + t + dd + y =~= s);
    lemma_unwrap_prefix(a, w, c, d, 0);
    assert(a.skip(0) =~= a);
    // the run at the start of `w`
    assert(delim_at(w, c, d, 0)) by {
        assert(w[0] == c);
        if d == 2 {
            assert(w[1] == c);
        }
    }
    let j = d + t.len();
    assert forall|k: int| d <= k < j implies w[k] != c by {
        assert(w[k] == t[k - d]);
    }
    lemma_next_char(w, c, d);
    assert(w[j] == c);
    assert(next_char(w, c, d) == j);
    assert(delim_at(w, c, d, j)) by {
        if d == 2 {
            assert(w[j + 1] == c);
        }
    }
    assert(w.subrange(d, j) =~= t);
    let p = dd + t + dd;
    assert(w =~= p + y);
    lemma_unwrap_after(p, y, c, d, 0);
    assert(j + d == p.len());
}

/// Plain text (no `*`, no backtick) is kept as it is, and the markup after
/// it is removed as from that text alone.
pub proof fn lemma_strip_plain_prefix(a: Seq<char>, b: Seq<char>)
    requires
        plain_text(a),
    ensures
        strip_inline(a + b) == a + strip_inline(b),
{
    lemma_no_c(a, '`');
    lemma_no_c(a, '*');
    lemma_unwrap_prefix(a, b, '`', 1, 0);
    assert(a.skip(0) =~= a);
    let b1 = unwrap_from(b, '`', 1, 0);
    lemma_unwrap_prefix(a, b1, '*', 2, 0);
    let b2 = unwrap_from(b1, '*', 2, 0);
    lemma_unwrap_prefix(a, b2, '*', 1, 0);
}

/// Bold text `**t**` after plain text `a` (`t` non-empty and plain) becomes
/// `t`, whatever follows.
pub proof fn lemma_strip_bold(a: Seq<char>, t: Seq<char>, b: Seq<char>)
    requires
        plain_text(a),
        plain_text(t),
        t.len() > 0,
    ensures
        strip_inline(a + seq!['*', '*'] + t + seq!['*', '*'] + b) == a + t + strip_inline(b),
{
    let dd = seq!['*', '*'];
    assert(Seq::new(2nat, |k: int| '*') =~= dd);
    lemma_no_c(a, '`');
    lemma_no_c(a, '*');
    lemma_no_c(t, '`');
    lemma_no_c(t, '*');
    let x = a + dd + t + dd;
    assert forall|k: int| 0 <= k < x.len() implies #[trigger] x[k] != '`' by {
        if k < a.len() {
            assert(x[k] == a[k]);
        } else if a.len() + 2 <= k < a.len() + 2 + t.len() {
            assert(x[k] == t[k - a.len() - 2]);
        }
    }
    assert(a + dd + t + dd + b =~= x + b);
    lemma_unwrap_prefix(x, b, '`', 1, 0);
    assert(x.skip(0) =~= x);
    let b1 = unwrap_from(b, '`', 1, 0);
    assert(x + b1 =~= a + dd + t + dd + b1);
    lemma_unwrap_pair(a, t, b1, '*', 2);
    let b2 = unwrap_from(b1, '*', 2, 0);
    let at = a + t;
    assert forall|k: int| 0 <= k < at.len() implies #[trigger] at[k] != '*' by {
        if k < a.len() {
            assert(at[k] == a[k]);
        } else {
            assert(at[k] == t[k - a.len()]);
        }
    }
    lemma_unwrap_prefix(at, b2, '*', 1, 0);
    assert(at.skip(0) =~= at);
}

/// Inline code `` `t` `` after plain text `a` (`t` non-empty and plain)
/// becomes `t`, whatever follows.
pub proof fn lemma_strip_code(a: Seq<char>, t: Seq<char>, b: Seq<char>)
    requires
        plain_text(a),
        plain_text(t),
        t.len() > 0,
    ensures
        strip_inline(a + seq!['`'] + t + seq!['`'] + b) == a + t + strip_inline(b),
{
    let d1 = seq!['`'];
    assert(Seq::new(1nat, |k: int| '`') =~= d1);
    lemma_no_c(a, '`');
    lemma_no_c(t, '`');
    lemma_unwrap_pair(a, t, b, '`', 1);
    let b1 = unwrap_from(b, '`', 1, 0);
    let at = a + t;
    assert(plain_text(at)) by {
        assert forall|k: int| 0 <= k < at.len() implies #[trigger] at[k] != '*' && at[k] != '`' by {
            if k < a.len() {
                assert(at[k] == a[k]);
            } else {
                assert(at[k] == t[k - a.len()]);
            }
        }
    }
    lemma_no_c(at, '*');
    lemma_unwrap_prefix(at, b1, '*', 2, 0);
    assert(at.skip(0) =~= at);
    let b2 = unwrap_from(b1, '*', 2, 0);
    lemma_unwrap_prefix(at, b2, '*', 1, 0);
}

proof fn lemma_unwrap_no_double(s: Seq<char>, i: int)
    requires
        0 <= i <= s.len(),
        forall|k: int| 0 <= k && k + 1 < s.len() ==> !(#[trigger] s[k] == '*' && s[k + 1] == '*'),
    ensures
        unwrap_from(s, '*', 2, i) == s.skip(i),
    decreases s.len() - i,
{
    if i < s.len() {
        lemma_unwrap_no_double(s, i + 1);
        assert(!delim_at(s, '*', 2, i));
        assert(s.skip(i) =~= seq![s[i]] + s.skip(i + 1));
    } else {
        assert(s.skip(i) =~= Seq::<char>::empty());
    }
}

/// Italic text `*t*` between plain texts `a` and `b` (`t` non-empty and
/// plain) becomes `t`.
pub proof fn lemma_strip_italic(a: Seq<char>, t: Seq<char>, b: Seq<char>)
    requires
        plain_text(a),
        plain_text(t),
        plain_text(b),
        t.len() > 0,
    ensures
        strip_inline(a + seq!['*'] + t + seq!['*'] + b) == a + t + b,
{
    let d1 = seq!['*'];
    assert(Seq::new(1nat, |k: int| '*') =~= d1);
    let s = a + d1 + t + d1 + b;
    lemma_no_c(a, '*');
    lemma_no_c(t, '*');
    lemma_no_c(b, '*');
    assert forall|k: int| 0 <= k < s.len() implies #[trigger] s[k] != '`' by {
        if k < a.len() {
            assert(s[k] == a[k]);
        } else if a.len() < k < a.len() + 1 + t.len() {
            assert(s[k] == t[k - a.len() - 1]);
        } else if k > a.len() + 1 + t.len() {
            assert(s[k] == b[k - a.len() - 2 - t.len()]);
        }
    }
    lemma_unwrap_prefix(s, Seq::<char>::empty(), '`', 1, 0);
    assert(s + Seq::<char>::empty() =~= s);
    assert(s.skip(0) =~= s);
    assert(unwrap_from(Seq::<char>::empty(), '`', 1, 0) =~= Seq::<char>::empty());
    assert forall|k: int| 0 <= k && k + 1 < s.len() implies !(#[trigger] s[k] == '*' && s[k + 1] == '*') by {
        if k < a.len() {
            assert(s[k] == a[k]);
        } else if k == a.len() {
            assert(s[k + 1] == t[0]);
        } else if k < a.len() + 1 + t.len() {
            assert(s[k] == t[k - a.len() - 1]);
        } else if k == a.len() + 1 + t.len() {
            assert(s[k + 1] == b[0]);
        } else {
            assert(s[k] == b[k - a.len() - 2 - t.len()]);
        }
    }
    lemma_unwrap_no_double(s, 0);
    lemma_unwrap_pair(a, t, b, '*', 1);
    lemma_unwrap_prefix(b, Seq::<char>::empty(), '*', 1, 0);
    assert(b + Seq::<char>::empty() =~= b);
    assert(b.skip(0) =~= b);
    assert(unwrap_from(Seq::<char>::empty(), '*', 1, 0) =~= Seq::<char>::empty());
}

fn delim_at_exec(s: &[char], c: char, d: usize, i: usize) -> (r: bool)
    requires
        d == 1 || d == 2,
    ensures
        r == delim_at(s@, c, d as int, i as int),
{
    i < s.len() && s[i] == c && (d == 1 || (i + 1 < s.len() && s[i + 1] == c))
}

fn next_char_exec(s: &[char], c: char, i: usize) -> (r: usize)
    requires
        i <= s@.len(),
    ensures
        r == next_char(s@, c, i as int),
        i <= r <= s@.len(),
{
    proof {
        lemma_next_char(s@, c, i as int);
    }
    let n = s.len();
    let mut k = i;
    while k < n && s[k] != c
        invariant
            i <= k <= n == s@.len(),
            next_char(s@, c, k as int) == next_char(s@, c, i as int),
        decreases n - k,
    {
        k += 1;
    }
    k
}

fn unwrap_delims(s: &[char], c: char, d: usize) -> (r: Vec<char>)
    requires
        d == 1 || d == 2,
    ensures
        r@ == unwrap_from(s@, c, d as int, 0),
{
    let n = s.len();
    let mut out: Vec<char> = Vec::new();
    let mut i: usize = 0;
    while i < n
        invariant
            d == 1 || d == 2,
            i <= n == s@.len(),
            unwrap_from(s@, c, d as int, 0) == out@ + unwrap_from(s@, c, d as int, i as int),
        decreases n - i,
    {
        let ghost gi = i as int;
        let ghost o = out@;
        if delim_at_exec(s, c, d, i) && i + d <= n {
            let j = next_char_exec(s, c, i + d);
            if j < n && j > i + d && delim_at_exec(s, c, d, j) {
                let inner = slice_copy(s, i + d, j);
                push_all(&mut out, inner.as_slice());
                i = j + d;
                assert(o + unwrap_from(s@, c, d as int, gi) =~= out@ + unwrap_from(
                    s@,
                    c,
                    d as int,
                    i as int,
                ));
                if i > n {
                    i = n;
                    assert(unwrap_from(s@, c, d as int, (j + d) as int) =~= Seq::<char>::empty());
                }
                continue;
            }
        }
        out.push(s[i]);
        i += 1;
        assert(o + unwrap_from(s@, c, d as int, gi) =~= out@ + unwrap_from(s@, c, d as int, i as int));
    }
    assert(unwrap_from(s@, c, d as int, i as int) =~= Seq::<char>::empty());
    assert(out@ + Seq::<char>::empty() =~= out@);
    out
}

pub fn strip_inline_markdown(s: &[char]) -> (r: Vec<char>)
    ensures
        r@ == strip_inline(s@),
{
    let a = unwrap_delims(s, '`', 1);
    let b = unwrap_delims(a.as_slice(), '*', 2);
    unwrap_delims(b.as_slice(), '*', 1)
}

// ---------------------------------------------------------------------------
// Summary
// ---------------------------------------------------------------------------

/// Trimmed lines of the first paragraph, from line `i` on; a fenced code block
/// before the paragraph leaves it empty.
pub open spec fn summary_lines(ls: Seq<Seq<char>>, i: int, started: bool) -> Seq<Seq<char>>
    decreases ls.len() - i,
{
    if i < 0 || i >= ls.len() {
        Seq::empty()
    } else {
        let t = trim(ls[i]);
        if !started {
            if t.len() == 0 {
                summary_lines(ls, i + 1, false)
            } else if has_prefix(t, "```"@) {
                Seq::empty()
            } else {
                seq![t] + summary_lines(ls, i + 1, true)
            }
        } else if t.len() == 0 {
            Seq::empty()
        } else {
            seq![t] + summary_lines(ls, i + 1, true)
        }
    }
}

/// The first paragraph of a body as one line of plain text.
pub open spec fn summary_text(body: Seq<char>) -> Seq<char> {
    strip_inline(join(summary_lines(lines(body), 0, false), " "@))
}

pub fn summary_chars(body: &[char]) -> (r: Vec<char>)
    ensures
        r@ == summary_text(body@),
{
    let ls = split_lines(body);
    let fence = chars_of("```");
    let mut picked: Vec<Vec<char>> = Vec::new();
    let mut started = false;
    let mut i: usize = 0;
    while i < ls.len()
        invariant
            i <= ls@.len(),
            fence@ == "```"@,
            summary_lines(views(ls@), 0, false) == views(picked@) + summary_lines(
                views(ls@),
                i as int,
                started,
            ),
        ensures
            summary_lines(views(ls@), 0, false) == views(picked@),
        decreases ls@.len() - i,
    {
        let t = trimmed(ls[i].as_slice());
        assert(t@ == trim(views(ls@)[i as int]));
        if !started {
            if t.len() == 0 {
                i += 1;
                continue;
            }
            if starts_with(t.as_slice(), fence.as_slice()) {
                assert(summary_lines(views(ls@), i as int, started) =~= Seq::<Seq<char>>::empty());
                assert(views(picked@) + Seq::<Seq<char>>::empty() =~= views(picked@));
                break;
            }
            started = true;
        } else if t.len() == 0 {
            assert(summary_lines(views(ls@), i as int, started) =~= Seq::<Seq<char>>::empty());
            assert(views(picked@) + Seq::<Seq<char>>::empty() =~= views(picked@));
            break;
        }
        let ghost o = picked@;
        let ghost tv = t;
        let ghost gi = i as int;
        picked.push(t);
        proof {
            lemma_views_push(o, tv);
            assert(views(o) + summary_lines(views(ls@), gi, !started || true) =~= views(picked@)
                + summary_lines(views(ls@), gi + 1, true));
        }
        i += 1;
    }
    assert(summary_lines(views(ls@), 0, false) == views(picked@));
    let sp = chars_of(" ");
    let joined = join_chars(&picked, sp.as_slice());
    strip_inline_markdown(joined.as_slice())
}

} // verus!

verus! {

// ---------------------------------------------------------------------------
// Examples
// ---------------------------------------------------------------------------

/// An example: input and (possibly empty) output.
pub struct ExPair {
    pub input: Vec<char>,
    pub output: Vec<char>,
}

pub struct ExV {
    pub input: Seq<char>,
    pub output: Seq<char>,
}

impl View for ExPair {
    type V = ExV;

    open spec fn view(&self) -> ExV {
        ExV { input: self.input@, output: self.output@ }
    }
}

pub open spec fn ex_views(v: Seq<ExPair>) -> Seq<ExV> {
    Seq::new(v.len(), |i: int| v[i]@)
}

pub proof fn lemma_ex_views_push(v: Seq<ExPair>, x: ExPair)
    ensures
        ex_views(v.push(x)) == ex_views(v).push(x@),
{
    assert(ex_views(v.push(x)) =~= ex_views(v).push(x@));
}

/// `(%<m><digits>) text`, with decimal digits of any script: the text after
/// the marker, leading whitespace removed.
pub open spec fn io_marker(l: Seq<char>, m: char) -> Option<Seq<char>> {
    if l.len() >= 3 && l[0] == '(' && l[1] == '%' && l[2] == m {
        let k = decimal_run_end(l, 3);
        if k > 3 && k < l.len() && l[k] == ')' {
            Some(trim_start(l.subrange(k + 1, l.len() as int)))
        } else {
            None
        }
    } else {
        None
    }
}

pub fn io_marker_exec(l: &[char], m: char) -> (r: Option<Vec<char>>)
    ensures
        match r {
            Some(t) => io_marker(l@, m) == Some(t@),
            None => io_marker(l@, m) is None,
        },
{
    if l.len() >= 3 && l[0] == '(' && l[1] == '%' && l[2] == m {
        let k = decimal_run_end_exec(l, 3);
        if k > 3 && k < l.len() && l[k] == ')' {
            let rest = slice_copy(l, k + 1, l.len());
            return Some(trimmed_start(rest.as_slice()));
        }
    }
    None
}

/// State of the `(%i)`/`(%o)` reader between lines.
pub struct IoV {
    pub cur_in: Seq<char>,
    pub cur_out: Seq<char>,
    pub in_input: bool,
    pub in_output: bool,
    pub examples: Seq<ExV>,
}

/// The pending example, if its input is not empty.
pub open spec fn io_flush(st: IoV) -> Seq<ExV> {
    if st.cur_in.len() > 0 {
        st.examples.push(ExV { input: trim(st.cur_in), output: trim(st.cur_out) })
    } else {
        st.examples
    }
}

pub open spec fn io_step(st: IoV, l: Seq<char>) -> IoV {
    if io_marker(l, 'i') is Some {
        IoV {
            cur_in: io_marker(l, 'i')->0,
            cur_out: Seq::empty(),
            in_input: true,
            in_output: false,
            examples: io_flush(st),
        }
    } else if io_marker(l, 'o') is Some {
        IoV { cur_out: io_marker(l, 'o')->0, in_input: false, in_output: true, ..st }
    } else if st.in_output {
        IoV { cur_out: st.cur_out + seq!['\n'] + l, ..st }
    } else if st.in_input {
        IoV { cur_in: st.cur_in + seq!['\n'] + l, ..st }
    } else {
        st
    }
}

pub open spec fn io_run(ls: Seq<Seq<char>>, n: int) -> IoV
    decreases n,
{
    if n <= 0 {
        IoV {
            cur_in: Seq::empty(),
            cur_out: Seq::empty(),
            in_input: false,
            in_output: false,
            examples: Seq::empty(),
        }
    } else {
        io_step(io_run(ls, n - 1), ls[n - 1])
    }
}

/// Input/output pairs of a REPL transcript.
pub open spec fn io_examples(content: Seq<char>) -> Seq<ExV> {
    let ls = lines(content);
    io_flush(io_run(ls, ls.len() as int))
}

fn push_pending(cur_in: &Vec<char>, cur_out: &Vec<char>, out: &mut Vec<ExPair>)
    ensures
        ex_views(final(out)@) == io_flush(
            IoV {
                cur_in: cur_in@,
                cur_out: cur_out@,
                in_input: false,
                in_output: false,
                examples: ex_views(old(out)@),
            },
        ),
{
    if cur_in.len() > 0 {
        let e = ExPair { input: trimmed(cur_in.as_slice()), output: trimmed(cur_out.as_slice()) };
        let ghost o = out@;
        let ghost ev = e;
        out.push(e);
        proof {
            lemma_ex_views_push(o, ev);
        }
    }
}

pub fn parse_io_examples(content: &[char]) -> (r: Vec<ExPair>)
    ensures
        ex_views(r@) == io_examples(content@),
{
    let ls = split_lines(content);
    let mut examples: Vec<ExPair> = Vec::new();
    let mut cur_in: Vec<char> = Vec::new();
    let mut cur_out: Vec<char> = Vec::new();
    let mut in_input = false;
    let mut in_output = false;
    assert(ex_views(examples@) =~= Seq::<ExV>::empty());
    let mut i: usize = 0;
    while i < ls.len()
        invariant
            i <= ls@.len(),
            views(ls@) == lines(content@),
            io_run(views(ls@), i as int) == (IoV {
                cur_in: cur_in@,
                cur_out: cur_out@,
                in_input,
                in_output,
                examples: ex_views(examples@),
            }),
        decreases ls@.len() - i,
    {
        let line = ls[i].as_slice();
        assert(line@ == views(ls@)[i as int]);
        if let Some(rest) = io_marker_exec(line, 'i') {
            push_pending(&cur_in, &cur_out, &mut examples);
            cur_in = rest;
            cur_out = Vec::new();
            in_input = true;
            in_output = false;
        } else if let Some(rest) = io_marker_exec(line, 'o') {
            cur_out = rest;
            in_input = false;
            in_output = true;
        } else if in_output {
            cur_out.push('\n');
            push_all(&mut cur_out, line);
        } else if in_input {
            cur_in.push('\n');
            push_all(&mut cur_in, line);
        }
        proof {
            assert(cur_out@ =~= io_run(views(ls@), i + 1).cur_out);
            assert(cur_in@ =~= io_run(views(ls@), i + 1).cur_in);
        }
        i += 1;
    }
    push_pending(&cur_in, &cur_out, &mut examples);
    examples
}

/// Language tag of an opening fence: backticks and surrounding whitespace removed.
pub open spec fn skip_backticks(s: Seq<char>, i: int) -> int
    decreases s.len() - i,
{
    if 0 <= i < s.len() && s[i] == '`' {
        skip_backticks(s, i + 1)
    } else {
        i
    }
}

pub open spec fn fence_lang(l: Seq<char>) -> Seq<char> {
    let t = trim(l);
    trim(t.subrange(skip_backticks(t, 0), t.len() as int))
}

/// Code point of `c` with ASCII upper-case letters mapped to lower case.
pub open spec fn ascii_lower(c: char) -> u32 {
    if 'A' <= c <= 'Z' {
        ((c as u32) + 32) as u32
    } else {
        c as u32
    }
}

/// `eq_ignore_ascii_case`.
pub open spec fn ascii_ci_eq(a: Seq<char>, b: Seq<char>) -> bool {
    a.len() == b.len() && forall|k: int| 0 <= k < a.len() ==> ascii_lower(a[k]) == ascii_lower(b[k])
}

pub open spec fn is_maxima_lang(lang: Seq<char>) -> bool {
    ascii_ci_eq(lang, "maxima"@) || lang.len() == 0
}

pub fn ascii_lower_exec(c: char) -> (r: u32)
    ensures
        r == ascii_lower(c),
{
    if 'A' <= c && c <= 'Z' {
        (c as u32) + 32
    } else {
        c as u32
    }
}

pub fn ascii_ci_eq_exec(a: &[char], b: &[char]) -> (r: bool)
    ensures
        r == ascii_ci_eq(a@, b@),
{
    if a.len() != b.len() {
        return false;
    }
    let mut k: usize = 0;
    while k < a.len()
        invariant
            k <= a@.len() == b@.len(),
            forall|t: int| 0 <= t < k ==> ascii_lower(a@[t]) == ascii_lower(b@[t]),
        decreases a@.len() - k,
    {
        if ascii_lower_exec(a[k]) != ascii_lower_exec(b[k]) {
            return false;
        }
        k += 1;
    }
    true
}

fn fence_lang_exec(l: &[char]) -> (r: Vec<char>)
    ensures
        r@ == fence_lang(l@),
{
    let t = trimmed(l);
    let n = t.len();
    let mut k: usize = 0;
    while k < n && t[k] == '`'
        invariant
            k <= n == t@.len(),
            skip_backticks(t@, k as int) == skip_backticks(t@, 0),
        decreases n - k,
    {
        k += 1;
    }
    let rest = slice_copy(t.as_slice(), k, n);
    trimmed(rest.as_slice())
}

/// State of the fenced-block reader between lines.
pub struct ExState {
    pub in_block: bool,
    pub is_maxima: bool,
    pub block: Seq<Seq<char>>,
    pub examples: Seq<ExV>,
}

/// Examples contributed by a closed fenced block.
pub open spec fn block_examples(st: ExState) -> Seq<ExV> {
    if st.is_maxima && st.block.len() > 0 {
        let content = join(st.block, "\n"@);
        if contains(content, "(%i"@) {
            st.examples + io_examples(content)
        } else if trim(content).len() > 0 {
            st.examples.push(ExV { input: trim(content), output: Seq::empty() })
        } else {
            st.examples
        }
    } else {
        st.examples
    }
}

pub open spec fn ex_step(st: ExState, l: Seq<char>) -> ExState {
    if !st.in_block {
        if has_prefix(trim(l), "```"@) {
            ExState {
                in_block: true,
                is_maxima: is_maxima_lang(fence_lang(l)),
                block: Seq::empty(),
                examples: st.examples,
            }
        } else {
            st
        }
    } else if trim(l) == "```"@ {
        ExState { in_block: false, examples: block_examples(st), ..st }
    } else {
        ExState { block: st.block.push(l), ..st }
    }
}

pub open spec fn ex_run(ls: Seq<Seq<char>>, n: int) -> ExState
    decreases n,
{
    if n <= 0 {
        ExState { in_block: false, is_maxima: false, block: Seq::empty(), examples: Seq::empty() }
    } else {
        ex_step(ex_run(ls, n - 1), ls[n - 1])
    }
}

/// Examples of a definition body: one per `(%i)` prompt of a `maxima` (or
/// untagged) fenced block, or the whole block when it has no prompt.
pub open spec fn body_examples(body: Seq<char>) -> Seq<ExV> {
    let ls = lines(body);
    ex_run(ls, ls.len() as int).examples
}

pub fn extract_examples_chars(body: &[char]) -> (r: Vec<ExPair>)
    ensures
        ex_views(r@) == body_examples(body@),
{
    let ls = split_lines(body);
    let fence = chars_of("```");
    let maxima = chars_of("maxima");
    let nl = chars_of("\n");
    let prompt = chars_of("(%i");
    proof {
        reveal_strlit("```");
    }
    let mut examples: Vec<ExPair> = Vec::new();
    let mut in_block = false;
    let mut is_maxima = false;
    let mut block: Vec<Vec<char>> = Vec::new();
    assert(ex_views(examples@) =~= Seq::<ExV>::empty());
    assert(views(block@) =~= Seq::<Seq<char>>::empty());
    let mut i: usize = 0;
    while i < ls.len()
        invariant
            i <= ls@.len(),
            views(ls@) == lines(body@),
            fence@ == "```"@,
            fence@.len() == 3,
            maxima@ == "maxima"@,
            nl@ == "\n"@,
            prompt@ == "(%i"@,
            ex_run(views(ls@), i as int) == (ExState {
                in_block,
                is_maxima,
                block: views(block@),
                examples: ex_views(examples@),
            }),
        decreases ls@.len() - i,
    {
        let line = ls[i].as_slice();
        assert(line@ == views(ls@)[i as int]);
        let t = trimmed(line);
        if !in_block {
            if starts_with(t.as_slice(), fence.as_slice()) {
                let lang = fence_lang_exec(line);
                is_maxima = ascii_ci_eq_exec(lang.as_slice(), maxima.as_slice()) || lang.len() == 0;
                in_block = true;
                block = Vec::new();
                assert(views(block@) =~= Seq::<Seq<char>>::empty());
            }
        } else if t.len() == 3 && starts_with(t.as_slice(), fence.as_slice()) {
            assert(t@.subrange(0, 3) =~= t@);
            in_block = false;
            let ghost st = ex_run(views(ls@), i as int);
            if is_maxima && block.len() > 0 {
                let content = join_chars(&block, nl.as_slice());
                if contains_chars(content.as_slice(), prompt.as_slice()) {
                    let mut found = parse_io_examples(content.as_slice());
                    let ghost o = examples@;
                    let ghost f = found@;
                    examples.append(&mut found);
                    assert(ex_views(examples@) =~= ex_views(o) + ex_views(f));
                } else {
                    let tc = trimmed(content.as_slice());
                    if tc.len() > 0 {
                        let e = ExPair { input: tc, output: Vec::new() };
                        let ghost o = examples@;
                        let ghost ev = e;
                        examples.push(e);
                        proof {
                            lemma_ex_views_push(o, ev);
                            assert(ev@.output =~= Seq::<char>::empty());
                        }
                    }
                }
            }
            assert(ex_views(examples@) == block_examples(st));
        } else {
            proof {
                if t@ == "```"@ {
                    assert(t@.len() == 3);
                    assert(t@.subrange(0, 3) =~= t@);
                }
            }
            let c = slice_copy(line, 0, line.len());
            let ghost o = block@;
            let ghost cv = c;
            block.push(c);
            proof {
                lemma_views_push(o, cv);
                assert(line@.subrange(0, line@.len() as int) =~= line@);
            }
        }
        i += 1;
    }
    examples
}

// ---------------------------------------------------------------------------
// See also
// ---------------------------------------------------------------------------

/// Index of the last line at or before `j - 1` whose trim is not empty, or -1.
pub open spec fn last_nonblank(ls: Seq<Seq<char>>, j: int) -> int
    decreases j,
{
    if j <= 0 || j > ls.len() {
        -1
    } else if trim(ls[j - 1]).len() > 0 {
        j - 1
    } else {
        last_nonblank(ls, j - 1)
    }
}

/// Case-insensitive match of a character against a lower-case ASCII letter of
/// `see also:` (`s` also matches U+017F, its Unicode case variant).
pub open spec fn ci_char(c: char, p: char) -> bool {
    c == p || (('a' <= p <= 'z') && (c as u32) + 32 == (p as u32)) || (p == 's' && c
        == '\u{17f}')
}

pub open spec fn see_also_prefix(t: Seq<char>) -> bool {
    t.len() >= 9 && forall|k: int| 0 <= k < 9 ==> ci_char(t[k], "see also:"@[k])
}

/// Text after `See also:` on a trimmed line, if it is not empty.
pub open spec fn see_also_rest(t: Seq<char>) -> Option<Seq<char>> {
    if see_also_prefix(t) && ws_skip(t, 9) < t.len() {
        Some(t.subrange(ws_skip(t, 9), t.len() as int))
    } else {
        None
    }
}

/// The non-empty backtick-quoted names of `s`, from index `i` on.
pub open spec fn quoted_from(s: Seq<char>, i: int) -> Seq<Seq<char>>
    decreases s.len() - i,
{
    if i < 0 || i >= s.len() {
        Seq::empty()
    } else {
        let j = next_char(s, '`', i + 1);
        if s[i] == '`' && j < s.len() && j > i + 1 {
            seq![s.subrange(i + 1, j)] + quoted_from(s, j + 1)
        } else {
            quoted_from(s, i + 1)
        }
    }
}

/// Cross-references of a body: the quoted names of its last non-blank line,
/// when that line is a `See also:` line.
pub open spec fn see_also_names(body: Seq<char>) -> Seq<Seq<char>> {
    let ls = lines(body);
    let k = last_nonblank(ls, ls.len() as int);
    if k == -1 {
        Seq::empty()
    } else {
        match see_also_rest(trim(ls[k])) {
            Some(r) => quoted_from(r, 0),
            None => Seq::empty(),
        }
    }
}

fn ci_char_exec(c: char, p: char) -> (r: bool)
    requires
        'a' <= p <= 'z' || p == ' ' || p == ':',
    ensures
        r == ci_char(c, p),
{
    c == p || ('a' <= p && p <= 'z' && (c as u32) + 32 == (p as u32)) || (p == 's' && c
        == '\u{17f}')
}

fn see_also_rest_exec(t: &[char]) -> (r: Option<Vec<char>>)
    ensures
        match r {
            Some(x) => see_also_rest(t@) == Some(x@),
            None => see_also_rest(t@) is None,
        },
{
    let pat = chars_of("see also:");
    proof {
        reveal_strlit("see also:");
    }
    if t.len() < 9 {
        return None;
    }
    let mut k: usize = 0;
    while k < 9
        invariant
            k <= 9 <= t@.len(),
            pat@ == "see also:"@,
            pat@.len() == 9,
            forall|j: int|
                0 <= j < 9 ==> ('a' <= #[trigger] pat@[j] <= 'z' || pat@[j] == ' ' || pat@[j]
                    == ':'),
            forall|j: int| 0 <= j < k ==> ci_char(t@[j], "see also:"@[j]),
        decreases 9 - k,
    {
        if !ci_char_exec(t[k], pat[k]) {
            return None;
        }
        k += 1;
    }
    let a = skip_ws(t, 9);
    if a < t.len() {
        Some(slice_copy(t, a, t.len()))
    } else {
        None
    }
}

fn quoted_names(s: &[char]) -> (r: Vec<Vec<char>>)
    ensures
        views(r@) == quoted_from(s@, 0),
{
    let n = s.len();
    let mut out: Vec<Vec<char>> = Vec::new();
    let mut i: usize = 0;
    while i < n
        invariant
            i <= n == s@.len(),
            quoted_from(s@, 0) == views(out@) + quoted_from(s@, i as int),
        decreases n - i,
    {
        let ghost gi = i as int;
        let ghost o = out@;
        if s[i] == '`' {
            let j = next_char_exec(s, '`', i + 1);
            if j < n && j > i + 1 {
                let name = slice_copy(s, i + 1, j);
                let ghost nv = name;
                out.push(name);
                i = j + 1;
                proof {
                    lemma_views_push(o, nv);
                    assert(views(o) + quoted_from(s@, gi) =~= views(out@) + quoted_from(
                        s@,
                        i as int,
                    ));
                }
                continue;
            }
        }
        i += 1;
    }
    assert(views(out@) + quoted_from(s@, i as int) =~= views(out@));
    out
}

pub fn see_also_chars(body: &[char]) -> (r: Vec<Vec<char>>)
    ensures
        views(r@) == see_also_names(body@),
{
    let ls = split_lines(body);
    let mut j = ls.len();
    while j > 0
        invariant
            j <= ls@.len(),
            views(ls@) == lines(body@),
            last_nonblank(views(ls@), j as int) == last_nonblank(views(ls@), ls@.len() as int),
        decreases j,
    {
        let t = trimmed(ls[j - 1].as_slice());
        assert(t@ == trim(views(ls@)[j - 1]));
        if t.len() > 0 {
            return match see_also_rest_exec(t.as_slice()) {
                Some(rest) => quoted_names(rest.as_slice()),
                None => {
                    let r: Vec<Vec<char>> = Vec::new();
                    assert(views(r@) =~= Seq::<Seq<char>>::empty());
                    r
                },
            };
        }
        j -= 1;
    }
    let r: Vec<Vec<char>> = Vec::new();
    assert(views(r@) =~= Seq::<Seq<char>>::empty());
    r
}

} // verus!
