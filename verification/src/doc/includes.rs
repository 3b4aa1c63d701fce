//! `<!-- include: path -->` directives in markdown sources.
use vstd::prelude::*;
use crate::text::{
    chars_of, has_prefix, has_suffix, lines, occurs_at, push_all, push_char, skip_ws, slice_copy,
    split_lines, starts_with, string_of, tok_end, token_end, views, ws_skip,
};

verus! {

/// The path named by an include directive line
/// `<!-- include: path -->` (blanks around the parts optional).
pub open spec fn include_target(l: Seq<char>) -> Option<Seq<char>> {
    if !has_prefix(l, "<!--"@) {
        None
    } else {
        let a = ws_skip(l, 4);
        if !occurs_at(l, "include:"@, a) {
            None
        } else {
            let b = ws_skip(l, a + 8);
            let e = tok_end(l, b);
            if e == b {
                None
            } else if e == l.len() {
                if e - b > 3 && has_suffix(l.subrange(b, e), "-->"@) {
                    Some(l.subrange(b, e - 3))
                } else {
                    None
                }
            } else if l.skip(ws_skip(l, e)) == "-->"@ {
                Some(l.subrange(b, e))
            } else {
                None
            }
        }
    }
}

/// The path named by an include directive line, if the line is one.
pub fn include_target_exec(l: &[char]) -> (r: Option<Vec<char>>)
    ensures
        match r {
            Some(t) => include_target(l@) == Some(t@),
            None => include_target(l@) is None,
        },
{
    proof {
        reveal_strlit("<!--");
        reveal_strlit("include:");
        reveal_strlit("-->");
    }
    if !starts_with(l, chars_of("<!--").as_slice()) {
        return None;
    }
    let a = skip_ws(l, 4);
    if !crate::text::matches_at(l, chars_of("include:").as_slice(), a) {
        return None;
    }
    assert(occurs_at(l@, "include:"@, a as int));
    let n = l.len();
    assert(a + 8 <= n);
    let b = skip_ws(l, a + 8);
    let e = token_end(l, b);
    if e == b {
        return None;
    }
    if e == l.len() {
        let run = slice_copy(l, b, e);
        if e - b > 3 && crate::text::ends_with(run.as_slice(), chars_of("-->").as_slice()) {
            Some(slice_copy(l, b, e - 3))
        } else {
            None
        }
    } else {
        let c = skip_ws(l, e);
        let tail = slice_copy(l, c, l.len());
        assert(tail@ =~= l@.skip(c as int));
        if crate::text::eq_chars(tail.as_slice(), chars_of("-->").as_slice()) {
            Some(slice_copy(l, b, e))
        } else {
            None
        }
    }
}

/// The include targets of the first `n` lines, in order.
pub open spec fn targets_of(ls: Seq<Seq<char>>, n: int) -> Seq<Seq<char>>
    decreases n,
{
    if n <= 0 {
        Seq::empty()
    } else {
        match include_target(ls[n - 1]) {
            Some(t) => targets_of(ls, n - 1).push(t),
            None => targets_of(ls, n - 1),
        }
    }
}

/// The include targets of a source, in order.
pub open spec fn include_targets(content: Seq<char>) -> Seq<Seq<char>> {
    let ls = lines(content);
    targets_of(ls, ls.len() as int)
}

/// The paths named by the include directives of a source, in order,
/// relative to the source's directory.
pub fn parse_includes(content: &str) -> (r: Vec<String>)
    ensures
        crate::text::strs(r@) == include_targets(content@),
{
    let ls = split_lines(chars_of(content).as_slice());
    let ghost lv = views(ls@);
    let mut out: Vec<String> = Vec::new();
    let mut i: usize = 0;
    while i < ls.len()
        invariant
            i <= ls@.len(),
            lv == views(ls@),
            lv == lines(content@),
            crate::text::strs(out@) == targets_of(lv, i as int),
        decreases ls@.len() - i,
    {
        assert(lv[i as int] == ls@[i as int]@);
        match include_target_exec(ls[i].as_slice()) {
            Some(t) => {
                let s = string_of(t.as_slice());
                proof {
                    crate::text::lemma_strs_push(out@, s);
                }
                out.push(s);
            },
            None => {},
        }
        i += 1;
    }
    out
}

/// The first `n` lines with the `k` first include directives among them
/// replaced by the files' texts (each ending in a newline), every other
/// line followed by a newline.
pub open spec fn expanded(ls: Seq<Seq<char>>, files: Seq<Seq<char>>, n: int) -> Seq<char>
    decreases n,
{
    if n <= 0 {
        Seq::empty()
    } else {
        let prev = expanded(ls, files, n - 1);
        match include_target(ls[n - 1]) {
            Some(_) => {
                let f = files[targets_of(ls, n - 1).len() as int];
                prev + f + if f.len() > 0 && f.last() == '\n' {
                    Seq::empty()
                } else {
                    seq!['\n']
                }
            },
            None => prev + ls[n - 1] + seq!['\n'],
        }
    }
}

/// The source with its include directives replaced by the included texts,
/// `files` holding those texts in the order of the directives.
pub fn expand_includes(content: &str, files: &Vec<String>) -> (r: String)
    requires
        files@.len() == include_targets(content@).len(),
    ensures
        r@ == expanded(lines(content@), crate::text::strs(files@), lines(content@).len() as int),
{
    let ls = split_lines(chars_of(content).as_slice());
    let ghost lv = views(ls@);
    let mut out: Vec<char> = Vec::new();
    let mut k: usize = 0;
    let mut i: usize = 0;
    proof {
        lemma_targets_len(lv, 0, lv.len() as int);
    }
    while i < ls.len()
        invariant
            i <= ls@.len(),
            lv == views(ls@),
            lv == lines(content@),
            files@.len() == targets_of(lv, lv.len() as int).len(),
            k == targets_of(lv, i as int).len(),
            out@ == expanded(lv, crate::text::strs(files@), i as int),
        decreases ls@.len() - i,
    {
        assert(lv[i as int] == ls@[i as int]@);
        proof {
            lemma_targets_len(lv, i + 1, lv.len() as int);
        }
        match include_target_exec(ls[i].as_slice()) {
            Some(_) => {
                assert(targets_of(lv, i + 1).len() == k + 1);
                assert(k < files.len());
                let f = chars_of(files[k].as_str());
                assert(crate::text::strs(files@)[k as int] == f@);
                push_all(&mut out, f.as_slice());
                if !(f.len() > 0 && f[f.len() - 1] == '\n') {
                    push_char(&mut out, '\n');
                }
                k += 1;
            },
            None => {
                push_all(&mut out, ls[i].as_slice());
                push_char(&mut out, '\n');
            },
        }
        i += 1;
    }
    string_of(out.as_slice())
}

proof fn lemma_targets_len(ls: Seq<Seq<char>>, i: int, n: int)
    requires
        0 <= i <= n,
    ensures
        targets_of(ls, i).len() <= targets_of(ls, n).len(),
    decreases n - i,
{
    if i < n {
        lemma_targets_len(ls, i, n - 1);
    }
}

} // verus!
