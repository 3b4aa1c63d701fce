//! Rewriting Pandoc's Texinfo output into definition blocks that makeinfo
//! indexes.
use vstd::prelude::*;
use crate::text::{
    back_ws, chars_of, contains, contains_chars, has_prefix, join, join_chars, lemma_rfind_char,
    lines, pieces, push_all, push_str, rfind_char, rfind_char_exec, skip_ws, slice_copy,
    split_at_char, split_lines, starts_with, string_of, tok_end, token_end, trim, trimmed, views,
    ws_back, ws_skip,
};

verus! {

// ---------------------------------------------------------------------------
// Headings
// ---------------------------------------------------------------------------

/// `<p> name (args)`: the name and the text between the parentheses. The
/// name runs to the whitespace before `(`, or else to the last `(` inside
/// it; the closing `)` is the line's last non-blank character.
pub open spec fn call_heading(l: Seq<char>, p: Seq<char>) -> Option<(Seq<char>, Seq<char>)> {
    if !has_prefix(l, p) {
        None
    } else {
        let b = ws_skip(l, p.len() as int);
        let e = tok_end(l, b);
        let z = ws_back(l, b, l.len() as int);
        if b == p.len() || e == b || z <= b || l[z - 1] != ')' {
            None
        } else {
            let c1 = ws_skip(l, e);
            if c1 < l.len() && l[c1] == '(' {
                Some((l.subrange(b, e), l.subrange(c1 + 1, z - 1)))
            } else {
                let q = rfind_char(l, '(', b + 1, e);
                if q != -1 && q < z - 1 {
                    Some((l.subrange(b, q), l.subrange(q + 1, z - 1)))
                } else {
                    None
                }
            }
        }
    }
}

/// `@subsection Function: name (args)`.
pub open spec fn function_heading(l: Seq<char>) -> Option<(Seq<char>, Seq<char>)> {
    call_heading(l, "@subsection Function:"@)
}

/// `<p> name`: the name, a run of non-blank characters with nothing but
/// whitespace after it.
pub open spec fn name_heading(l: Seq<char>, p: Seq<char>) -> Option<Seq<char>> {
    if !has_prefix(l, p) {
        None
    } else {
        let b = ws_skip(l, p.len() as int);
        let e = tok_end(l, b);
        if b == p.len() || e == b || ws_skip(l, e) != l.len() {
            None
        } else {
            Some(l.subrange(b, e))
        }
    }
}

/// `@subsection Variable: name`.
pub open spec fn variable_heading(l: Seq<char>) -> Option<Seq<char>> {
    name_heading(l, "@subsection Variable:"@)
}

pub fn call_heading_exec(l: &[char], p: &[char]) -> (r: Option<(Vec<char>, Vec<char>)>)
    ensures
        match r {
            Some((n, a)) => call_heading(l@, p@) == Some((n@, a@)),
            None => call_heading(l@, p@) is None,
        },
{
    if !starts_with(l, p) {
        return None;
    }
    let b = skip_ws(l, p.len());
    let e = token_end(l, b);
    let z = back_ws(l, b, l.len());
    assert(p@.len() == p.len());
    if b == p.len() || e == b || z <= b || l[z - 1] != ')' {
        return None;
    }
    let c1 = skip_ws(l, e);
    if c1 < l.len() && l[c1] == '(' {
        proof {
            crate::text::lemma_ws_skip_bounds(l@, e as int);
            lemma_ws_back_tail(l@, b as int, l@.len() as int);
            crate::text::lemma_tok_end(l@, b as int);
            assert(c1 < z);
        }
        Some((slice_copy(l, b, e), slice_copy(l, c1 + 1, z - 1)))
    } else {
        proof {
            lemma_rfind_char(l@, '(', b + 1, e as int);
            crate::text::lemma_tok_end(l@, b as int);
        }
        match rfind_char_exec(l, '(', b + 1, e) {
            Some(q) => if q < z - 1 {
                Some((slice_copy(l, b, q), slice_copy(l, q + 1, z - 1)))
            } else {
                None
            },
            None => None,
        }
    }
}

/// Everything between the end `ws_back` finds and `j` is whitespace.
pub proof fn lemma_ws_back_tail(s: Seq<char>, lo: int, j: int)
    requires
        0 <= lo <= j <= s.len(),
    ensures
        forall|k: int| ws_back(s, lo, j) <= k < j ==> crate::text::is_ws(#[trigger] s[k]),
    decreases j - lo,
{
    if lo < j && crate::text::is_ws(s[j - 1]) {
        lemma_ws_back_tail(s, lo, j - 1);
    }
}

pub fn name_heading_exec(l: &[char], p: &[char]) -> (r: Option<Vec<char>>)
    ensures
        match r {
            Some(n) => name_heading(l@, p@) == Some(n@),
            None => name_heading(l@, p@) is None,
        },
{
    if !starts_with(l, p) {
        return None;
    }
    let b = skip_ws(l, p.len());
    let e = token_end(l, b);
    if b == p.len() || e == b || skip_ws(l, e) != l.len() {
        return None;
    }
    Some(slice_copy(l, b, e))
}

// ---------------------------------------------------------------------------
// The rewrite
// ---------------------------------------------------------------------------

/// The first line, from index `i` on, that starts with `p`, or the count.
pub open spec fn first_prefixed(ls: Seq<Seq<char>>, p: Seq<char>, i: int) -> int
    decreases ls.len() - i,
{
    if i < 0 || i >= ls.len() {
        ls.len() as int
    } else if has_prefix(ls[i], p) {
        i
    } else {
        first_prefixed(ls, p, i + 1)
    }
}

pub proof fn lemma_first_prefixed(ls: Seq<Seq<char>>, p: Seq<char>, i: int)
    requires
        0 <= i <= ls.len(),
    ensures
        i <= first_prefixed(ls, p, i) <= ls.len(),
    decreases ls.len() - i,
{
    if i < ls.len() && !has_prefix(ls[i], p) {
        lemma_first_prefixed(ls, p, i + 1);
    }
}

/// The lines with `@setfilename <stem>.info` added after the
/// `\input texinfo` line, unless the text already names its file.
pub open spec fn with_setfilename(ls: Seq<Seq<char>>, content: Seq<char>, stem: Seq<char>) -> Seq<
    Seq<char>,
> {
    if contains(content, "@setfilename"@) {
        ls
    } else {
        let i = first_prefixed(ls, "\\input texinfo"@, 0);
        if i < ls.len() {
            ls.insert(i + 1, "@setfilename "@ + stem + ".info"@)
        } else {
            ls
        }
    }
}

/// The arguments of a heading, each wrapped in `@var{..}`, blank ones dropped.
pub open spec fn var_args(ps: Seq<Seq<char>>, n: int) -> Seq<Seq<char>>
    decreases n,
{
    if n <= 0 {
        Seq::empty()
    } else {
        let a = trim(ps[n - 1]);
        if a.len() == 0 {
            var_args(ps, n - 1)
        } else {
            var_args(ps, n - 1).push("@var{"@ + a + "}"@)
        }
    }
}

/// `@deffn {Function} name (@var{a}, @var{b})`
pub open spec fn deffn_heading(name: Seq<char>, args: Seq<char>) -> Seq<char> {
    let ps = pieces(args, ',');
    "@deffn {Function} "@ + name + " ("@ + join(var_args(ps, ps.len() as int), ", "@) + ")"@
}

pub open spec fn end_deffn() -> Seq<Seq<char>> {
    seq!["@end deffn"@, Seq::empty()]
}

/// One line of the first pass: function headings open `@deffn` blocks,
/// which close before the next heading or `@node`; variable headings become
/// `@defvr` lines followed by a marker line for the second pass.
pub open spec fn deffn_step(st: (Seq<Seq<char>>, bool), l: Seq<char>) -> (Seq<Seq<char>>, bool) {
    let (out0, d0) = if st.1 && has_prefix(l, "@node "@) {
        (st.0 + end_deffn(), false)
    } else {
        st
    };
    match function_heading(l) {
        Some((name, args)) => {
            let out1 = if d0 { out0 + end_deffn() } else { out0 };
            (out1.push(deffn_heading(name, args)), true)
        },
        None => match variable_heading(l) {
            Some(name) => {
                let out1 = if d0 { out0 + end_deffn() } else { out0 };
                (out1 + seq!["@defvr {Variable} "@ + name, "@defvrx"@], false)
            },
            None => (out0.push(l), d0),
        },
    }
}

pub open spec fn deffn_run(ls: Seq<Seq<char>>, n: int) -> (Seq<Seq<char>>, bool)
    decreases n,
{
    if n <= 0 {
        (Seq::empty(), false)
    } else {
        deffn_step(deffn_run(ls, n - 1), ls[n - 1])
    }
}

/// The first pass, with a trailing `@deffn` closed.
pub open spec fn first_pass(ls: Seq<Seq<char>>) -> Seq<Seq<char>> {
    let st = deffn_run(ls, ls.len() as int);
    if st.1 {
        st.0.push("@end deffn"@)
    } else {
        st.0
    }
}

/// The lines that end a `@defvr` block.
pub open spec fn defvr_end_triggers() -> Seq<&'static str> {
    seq![
        "@deffn",
        "@defvr",
        "@section",
        "@subsection",
        "@node",
        "@bye",
        "@chapter",
        "@appendix",
        "@printindex",
    ]
}

pub open spec fn ends_defvr(l: Seq<char>) -> bool {
    exists|i: int|
        0 <= i < defvr_end_triggers().len() && has_prefix(l, #[trigger] defvr_end_triggers()[i]@)
}

/// One line of the second pass: a marker opens a `@defvr` block, which is
/// closed before the next line that starts another block.
pub open spec fn defvr_step(st: (Seq<Seq<char>>, bool), l: Seq<char>) -> (Seq<Seq<char>>, bool) {
    if l == "@defvrx"@ {
        (st.0, true)
    } else if st.1 && ends_defvr(l) {
        (st.0 + seq!["@end defvr"@, Seq::empty()] + seq![l], false)
    } else {
        (st.0.push(l), st.1)
    }
}

pub open spec fn defvr_run(ls: Seq<Seq<char>>, n: int) -> (Seq<Seq<char>>, bool)
    decreases n,
{
    if n <= 0 {
        (Seq::empty(), false)
    } else {
        defvr_step(defvr_run(ls, n - 1), ls[n - 1])
    }
}

/// The second pass, with a trailing `@defvr` closed before `@bye`.
pub open spec fn second_pass(ls: Seq<Seq<char>>) -> Seq<Seq<char>> {
    let (fl, v) = defvr_run(ls, ls.len() as int);
    if v {
        let b = first_prefixed(fl, "@bye"@, 0);
        if b < fl.len() {
            fl.take(b) + seq!["@end defvr"@, Seq::empty()] + fl.skip(b)
        } else {
            fl.push("@end defvr"@)
        }
    } else {
        fl
    }
}

pub open spec fn index_node_lines() -> Seq<Seq<char>> {
    seq![
        Seq::empty(),
        "@node Function and variable index"@,
        "@appendix Function and variable index"@,
        "@printindex fn"@,
        "@printindex vr"@,
        Seq::empty(),
    ]
}

/// The lines with an index node added before `@bye`, unless the text
/// already prints an index.
pub open spec fn with_index(ls: Seq<Seq<char>>, content: Seq<char>) -> Seq<Seq<char>> {
    if contains(content, "@printindex"@) {
        ls
    } else {
        let b = first_prefixed(ls, "@bye"@, 0);
        if b < ls.len() {
            ls.take(b) + index_node_lines() + ls.skip(b)
        } else {
            ls
        }
    }
}

/// Pandoc's Texinfo output rewritten with definition blocks and an index.
pub open spec fn postprocessed(content: Seq<char>, stem: Seq<char>) -> Seq<char> {
    let ls = with_setfilename(lines(content), content, stem);
    join(with_index(second_pass(first_pass(ls)), content), "\n"@)
}

fn first_prefixed_exec(ls: &Vec<Vec<char>>, p: &[char]) -> (r: usize)
    ensures
        r == first_prefixed(views(ls@), p@, 0),
        r <= ls@.len(),
{
    proof {
        lemma_first_prefixed(views(ls@), p@, 0);
    }
    let mut i: usize = 0;
    while i < ls.len() && !starts_with(ls[i].as_slice(), p)
        invariant
            i <= ls@.len(),
            first_prefixed(views(ls@), p@, i as int) == first_prefixed(views(ls@), p@, 0),
        decreases ls@.len() - i,
    {
        assert(views(ls@)[i as int] == ls@[i as int]@);
        i += 1;
    }
    if i < ls.len() {
        assert(views(ls@)[i as int] == ls@[i as int]@);
    }
    i
}

fn push_line(ls: &mut Vec<Vec<char>>, l: Vec<char>)
    ensures
        views(final(ls)@) == views(old(ls)@).push(l@),
{
    proof {
        crate::text::lemma_views_push(ls@, l);
    }
    ls.push(l);
}

fn push_end_deffn(out: &mut Vec<Vec<char>>)
    ensures
        views(final(out)@) == views(old(out)@) + end_deffn(),
{
    let ghost o = views(out@);
    push_line(out, chars_of("@end deffn"));
    push_line(out, Vec::new());
    assert(views(out@) =~= o + end_deffn());
}

fn var_args_exec(args: &[char]) -> (r: Vec<Vec<char>>)
    ensures
        views(r@) == var_args(pieces(args@, ','), pieces(args@, ',').len() as int),
{
    let ps = split_at_char(args, ',');
    let ghost pv = views(ps@);
    let mut out: Vec<Vec<char>> = Vec::new();
    let mut i: usize = 0;
    while i < ps.len()
        invariant
            i <= ps@.len(),
            pv == views(ps@),
            views(out@) == var_args(pv, i as int),
        decreases ps@.len() - i,
    {
        assert(pv[i as int] == ps@[i as int]@);
        let a = trimmed(ps[i].as_slice());
        if a.len() > 0 {
            let mut v = chars_of("@var{");
            push_all(&mut v, a.as_slice());
            push_str(&mut v, "}");
            push_line(&mut out, v);
        }
        i += 1;
    }
    out
}

fn deffn_heading_exec(name: &[char], args: &[char]) -> (r: Vec<char>)
    ensures
        r@ == deffn_heading(name@, args@),
{
    let vars = var_args_exec(args);
    let mut h = chars_of("@deffn {Function} ");
    push_all(&mut h, name);
    push_str(&mut h, " (");
    let j = join_chars(&vars, chars_of(", ").as_slice());
    push_all(&mut h, j.as_slice());
    push_str(&mut h, ")");
    h
}

fn first_pass_exec(ls: &Vec<Vec<char>>) -> (r: Vec<Vec<char>>)
    ensures
        views(r@) == first_pass(views(ls@)),
{
    let ghost lv = views(ls@);
    let mut out: Vec<Vec<char>> = Vec::new();
    let mut in_deffn = false;
    let node = chars_of("@node ");
    let fh = chars_of("@subsection Function:");
    let vh = chars_of("@subsection Variable:");
    proof {
        reveal_strlit("@node ");
    }
    let mut i: usize = 0;
    while i < ls.len()
        invariant
            i <= ls@.len(),
            lv == views(ls@),
            node@ == "@node "@,
            fh@ == "@subsection Function:"@,
            vh@ == "@subsection Variable:"@,
            deffn_run(lv, i as int) == (views(out@), in_deffn),
        decreases ls@.len() - i,
    {
        let line = &ls[i];
        assert(lv[i as int] == line@);
        let ghost st = deffn_run(lv, i as int);
        if in_deffn && starts_with(line.as_slice(), node.as_slice()) {
            push_end_deffn(&mut out);
            in_deffn = false;
        }
        match call_heading_exec(line.as_slice(), fh.as_slice()) {
            Some((name, args)) => {
                if in_deffn {
                    push_end_deffn(&mut out);
                }
                push_line(&mut out, deffn_heading_exec(name.as_slice(), args.as_slice()));
                in_deffn = true;
            },
            None => match name_heading_exec(line.as_slice(), vh.as_slice()) {
                Some(name) => {
                    if in_deffn {
                        push_end_deffn(&mut out);
                    }
                    let ghost o = views(out@);
                    let mut h = chars_of("@defvr {Variable} ");
                    push_all(&mut h, name.as_slice());
                    push_line(&mut out, h);
                    push_line(&mut out, chars_of("@defvrx"));
                    assert(views(out@) =~= o + seq!["@defvr {Variable} "@ + name@, "@defvrx"@]);
                    in_deffn = false;
                },
                None => {
                    push_line(&mut out, slice_copy(line.as_slice(), 0, line.len()));
                    assert(line@.subrange(0, line@.len() as int) =~= line@);
                },
            },
        }
        i += 1;
        assert(deffn_run(lv, i as int) == (views(out@), in_deffn));
    }
    if in_deffn {
        push_line(&mut out, chars_of("@end deffn"));
    }
    out
}

fn ends_defvr_exec(l: &[char]) -> (r: bool)
    ensures
        r == ends_defvr(l@),
{
    let ts = [
        "@deffn",
        "@defvr",
        "@section",
        "@subsection",
        "@node",
        "@bye",
        "@chapter",
        "@appendix",
        "@printindex",
    ];
    assert(ts@ == defvr_end_triggers());
    let mut i: usize = 0;
    while i < 9
        invariant
            i <= 9,
            ts@ == defvr_end_triggers(),
            forall|k: int| 0 <= k < i ==> !has_prefix(l@, #[trigger] defvr_end_triggers()[k]@),
        decreases 9 - i,
    {
        if starts_with(l, chars_of(ts[i]).as_slice()) {
            return true;
        }
        i += 1;
    }
    false
}

fn insert_lines(ls: &mut Vec<Vec<char>>, at: usize, new: Vec<Vec<char>>)
    requires
        at <= old(ls)@.len(),
    ensures
        views(final(ls)@) == views(old(ls)@).take(at as int) + views(new@) + views(
            old(ls)@,
        ).skip(at as int),
{
    let ghost o = views(ls@);
    let mut new = new;
    let ghost nv = views(new@);
    let mut k: usize = 0;
    let n = new.len();
    let mut rest: Vec<Vec<char>> = Vec::new();
    // move the tail out, append the new lines, put the tail back
    while ls.len() > at
        invariant
            at <= ls@.len(),
            views(ls@) + views(rest@).reverse() == o,
        decreases ls@.len(),
    {
        let ghost before = views(ls@);
        let ghost rb = views(rest@);
        let l = ls.pop().unwrap();
        proof {
            crate::text::lemma_views_push(rest@, l);
        }
        rest.push(l);
        assert(views(ls@) =~= before.drop_last());
        assert(views(rest@).reverse() =~= seq![l@] + rb.reverse());
        assert(views(ls@) + views(rest@).reverse() =~= before.drop_last() + seq![before.last()] + rb.reverse());
        assert(before.drop_last() + seq![before.last()] =~= before);
    }
    assert(views(ls@) =~= o.take(at as int));
    assert(views(rest@).reverse() =~= o.skip(at as int));
    while k < n
        invariant
            k <= n == new@.len(),
            nv == views(new@),
            views(ls@) == o.take(at as int) + nv.take(k as int),
        decreases n - k,
    {
        let l = slice_copy(new[k].as_slice(), 0, new[k].len());
        assert(l@ =~= nv[k as int]);
        push_line(ls, l);
        k += 1;
        assert(nv.take(k as int) =~= nv.take(k - 1).push(nv[k - 1]));
        assert(views(ls@) =~= o.take(at as int) + nv.take(k as int));
    }
    assert(nv.take(n as int) =~= nv);
    let ghost mid = views(ls@);
    while rest.len() > 0
        invariant
            views(ls@) + views(rest@).reverse() == mid + o.skip(at as int),
        decreases rest@.len(),
    {
        let ghost before = views(ls@);
        let ghost rb = views(rest@);
        let l = rest.pop().unwrap();
        push_line(ls, l);
        assert(views(rest@) =~= rb.drop_last());
        assert(rb.reverse() =~= seq![rb.last()] + rb.drop_last().reverse());
        assert(views(ls@) + views(rest@).reverse() =~= before + rb.reverse());
    }
    assert(views(rest@).reverse() =~= Seq::<Seq<char>>::empty());
    assert(views(ls@) =~= mid + o.skip(at as int));
}

fn second_pass_exec(ls: &Vec<Vec<char>>) -> (r: Vec<Vec<char>>)
    ensures
        views(r@) == second_pass(views(ls@)),
{
    let ghost lv = views(ls@);
    let mut out: Vec<Vec<char>> = Vec::new();
    let mut in_defvr = false;
    let marker = chars_of("@defvrx");
    let mut i: usize = 0;
    while i < ls.len()
        invariant
            i <= ls@.len(),
            lv == views(ls@),
            marker@ == "@defvrx"@,
            defvr_run(lv, i as int) == (views(out@), in_defvr),
        decreases ls@.len() - i,
    {
        let line = &ls[i];
        assert(lv[i as int] == line@);
        if crate::text::eq_chars(line.as_slice(), marker.as_slice()) {
            in_defvr = true;
        } else {
            let ghost o = views(out@);
            if in_defvr && ends_defvr_exec(line.as_slice()) {
                push_line(&mut out, chars_of("@end defvr"));
                push_line(&mut out, Vec::new());
                in_defvr = false;
            }
            push_line(&mut out, slice_copy(line.as_slice(), 0, line.len()));
            assert(line@.subrange(0, line@.len() as int) =~= line@);
            assert(views(out@) == defvr_run(lv, i + 1).0);
        }
        i += 1;
    }
    if in_defvr {
        let b = first_prefixed_exec(&out, chars_of("@bye").as_slice());
        if b < out.len() {
            let mut new: Vec<Vec<char>> = Vec::new();
            push_line(&mut new, chars_of("@end defvr"));
            push_line(&mut new, Vec::new());
            assert(views(new@) =~= seq!["@end defvr"@, Seq::<char>::empty()]);
            insert_lines(&mut out, b, new);
        } else {
            push_line(&mut out, chars_of("@end defvr"));
        }
    }
    out
}

/// Rewrites Pandoc's Texinfo output: `@subsection Function: name (args)`
/// headings become `@deffn {Function} name (@var{args})` blocks,
/// `@subsection Variable: name` headings `@defvr {Variable} name` blocks,
/// each closed before the next block; `@setfilename <stem>.info` and an
/// index node before `@bye` are added when missing.
pub fn postprocess_texi_content(content: &str, stem: &str) -> (r: String)
    ensures
        r@ == postprocessed(content@, stem@),
{
    let c = chars_of(content);
    let mut ls = split_lines(c.as_slice());
    if !contains_chars(c.as_slice(), chars_of("@setfilename").as_slice()) {
        let i = first_prefixed_exec(&ls, chars_of("\\input texinfo").as_slice());
        if i < ls.len() {
            let mut l = chars_of("@setfilename ");
            push_str(&mut l, stem);
            push_str(&mut l, ".info");
            let ghost o = views(ls@);
            let mut new: Vec<Vec<char>> = Vec::new();
            push_line(&mut new, l);
            insert_lines(&mut ls, i + 1, new);
            assert(views(ls@) =~= o.insert(i + 1, "@setfilename "@ + stem@ + ".info"@));
        }
    }
    let r1 = first_pass_exec(&ls);
    let mut r2 = second_pass_exec(&r1);
    if !contains_chars(c.as_slice(), chars_of("@printindex").as_slice()) {
        let b = first_prefixed_exec(&r2, chars_of("@bye").as_slice());
        if b < r2.len() {
            let mut new: Vec<Vec<char>> = Vec::new();
            push_line(&mut new, Vec::new());
            push_line(&mut new, chars_of("@node Function and variable index"));
            push_line(&mut new, chars_of("@appendix Function and variable index"));
            push_line(&mut new, chars_of("@printindex fn"));
            push_line(&mut new, chars_of("@printindex vr"));
            push_line(&mut new, Vec::new());
            assert(views(new@) =~= index_node_lines());
            insert_lines(&mut r2, b, new);
        }
    }
    string_of(join_chars(&r2, chars_of("\n").as_slice()).as_slice())
}

/// The output name that the first `@setfilename ` line gives, trimmed.
pub open spec fn setfilename_of(ls: Seq<Seq<char>>) -> Option<Seq<char>>
    decreases ls.len(),
{
    if ls.len() == 0 {
        None
    } else if has_prefix(ls[0], "@setfilename "@) {
        Some(trim(ls[0].skip("@setfilename "@.len() as int)))
    } else {
        setfilename_of(ls.drop_first())
    }
}

/// The info file name that a Texinfo source sets with `@setfilename`.
pub fn setfilename(content: &str) -> (r: Option<String>)
    ensures
        match r {
            Some(n) => setfilename_of(lines(content@)) == Some(n@),
            None => setfilename_of(lines(content@)) is None,
        },
{
    let ls = split_lines(chars_of(content).as_slice());
    let ghost lv = views(ls@);
    let pre = chars_of("@setfilename ");
    let mut i: usize = 0;
    assert(lv.skip(0) =~= lv);
    while i < ls.len()
        invariant
            i <= ls.len(),
            lv == views(ls@),
            lv == lines(content@),
            pre@ == "@setfilename "@,
            setfilename_of(lv) == setfilename_of(lv.skip(i as int)),
        decreases ls.len() - i,
    {
        assert(lv.skip(i as int)[0] == ls@[i as int]@);
        let l = ls[i].as_slice();
        if starts_with(l, pre.as_slice()) {
            let rest = slice_copy(l, pre.len(), l.len());
            assert(rest@ =~= l@.skip(pre@.len() as int));
            return Some(string_of(trimmed(rest.as_slice()).as_slice()));
        }
        assert(lv.skip(i as int).drop_first() =~= lv.skip(i + 1));
        i += 1;
    }
    None
}

} // verus!
