//! Line grammar of documentation markdown: section and definition headings
//! and metadata comments.
use vstd::prelude::*;
use crate::text::{
    back_ws, chars_of, ends_with, has_prefix, has_suffix, is_whitespace, is_ws, lemma_rfind_char,
    lemma_tok_end, lemma_views_push, lemma_ws_back_bounds, lemma_ws_skip_bounds, push_all,
    rfind_char, rfind_char_exec, skip_ws, slice_copy, starts_with, tok_end, token_end, trim,
    trimmed, views, ws_back, ws_skip,
};

verus! {

/// `## <title>`: the title, trimmed.
pub open spec fn section_heading(l: Seq<char>) -> Option<Seq<char>> {
    if has_prefix(l, "## "@) && l.len() > 3 {
        Some(trim(l.subrange(3, l.len() as int)))
    } else {
        None
    }
}

/// `### Function: <name> (<args>)`, possibly with whitespace around the
/// parentheses: the name and the raw argument text.
///
/// The name is the longest run of non-whitespace characters for which an
/// opening parenthesis follows; the arguments run to the last `)` of the line.
pub open spec fn func_heading(l: Seq<char>) -> Option<(Seq<char>, Seq<char>)> {
    let p = 13int;
    if !has_prefix(l, "### Function:"@) || !(p < l.len() && is_ws(l[p])) {
        None
    } else {
        let a = ws_skip(l, p);
        let t = tok_end(l, a);
        let e = ws_back(l, 0, l.len() as int);
        if t == a || !(e > 0 && l[e - 1] == ')') {
            None
        } else {
            let q = ws_skip(l, t);
            if q < l.len() && l[q] == '(' {
                Some((l.subrange(a, t), l.subrange(q + 1, e - 1)))
            } else {
                let k = rfind_char(l, '(', a + 1, t);
                if k == -1 {
                    None
                } else {
                    Some((l.subrange(a, k), l.subrange(k + 1, e - 1)))
                }
            }
        }
    }
}

/// `### Variable: <name>`: the name, a single run of non-whitespace characters.
pub open spec fn var_heading(l: Seq<char>) -> Option<Seq<char>> {
    let p = 13int;
    if !has_prefix(l, "### Variable:"@) || !(p < l.len() && is_ws(l[p])) {
        None
    } else {
        let a = ws_skip(l, p);
        let t = tok_end(l, a);
        if t > a && ws_skip(l, t) == l.len() {
            Some(l.subrange(a, t))
        } else {
            None
        }
    }
}

/// Signature text of a function heading: `name()` or `name(args)`.
pub open spec fn func_signature(name: Seq<char>, args: Seq<char>) -> Seq<char> {
    name + seq!['('] + args + seq![')']
}

/// Which metadata key a comment carries.
pub enum MetaKey {
    Category,
    Keywords,
    Signatures,
}

/// `<!-- category: ... -->`, `<!-- keywords: ... -->` or `<!-- signatures: ... -->`:
/// the key and the trimmed value.
pub open spec fn meta_line(l: Seq<char>) -> Option<(MetaKey, Seq<char>)> {
    let t = trim(l);
    if !(t.len() >= 7 && has_prefix(t, "<!--"@) && has_suffix(t, "-->"@)) {
        None
    } else {
        let inner = trim(t.subrange(4, t.len() - 3));
        if has_prefix(inner, "category:"@) {
            Some((MetaKey::Category, trim(inner.subrange(9, inner.len() as int))))
        } else if has_prefix(inner, "keywords:"@) {
            Some((MetaKey::Keywords, trim(inner.subrange(9, inner.len() as int))))
        } else if has_prefix(inner, "signatures:"@) {
            Some((MetaKey::Signatures, trim(inner.subrange(11, inner.len() as int))))
        } else {
            None
        }
    }
}

/// Bracket depth after reading `c` at depth `d`.
pub open spec fn depth_after(d: nat, c: char) -> nat {
    if c == '(' || c == '[' {
        d + 1
    } else if (c == ')' || c == ']') && d > 0 {
        (d - 1) as nat
    } else {
        d
    }
}

/// Splitting a comma-separated list at commas outside brackets, from index `i`
/// with bracket depth `d` and the current item `cur` so far: the items, trimmed,
/// empty ones left out.
pub open spec fn items_from(s: Seq<char>, i: int, d: nat, cur: Seq<char>) -> Seq<Seq<char>>
    decreases s.len() - i,
{
    if i < 0 || i >= s.len() {
        keep_item(cur)
    } else if s[i] == ',' && d == 0 {
        keep_item(cur) + items_from(s, i + 1, d, Seq::empty())
    } else {
        items_from(s, i + 1, depth_after(d, s[i]), cur.push(s[i]))
    }
}

pub open spec fn keep_item(cur: Seq<char>) -> Seq<Seq<char>> {
    if trim(cur).len() == 0 {
        Seq::empty()
    } else {
        seq![trim(cur)]
    }
}

pub open spec fn list_items(s: Seq<char>) -> Seq<Seq<char>> {
    items_from(s, 0, 0, Seq::empty())
}

// ---------------------------------------------------------------------------
// Executable matchers
// ---------------------------------------------------------------------------

pub fn match_section_heading(l: &[char]) -> (r: Option<Vec<char>>)
    ensures
        match r {
            Some(t) => section_heading(l@) == Some(t@),
            None => section_heading(l@) is None,
        },
{
    let pre = chars_of("## ");
    if starts_with(l, pre.as_slice()) && l.len() > 3 {
        let rest = slice_copy(l, 3, l.len());
        Some(trimmed(rest.as_slice()))
    } else {
        None
    }
}

pub fn match_func_heading(l: &[char]) -> (r: Option<(Vec<char>, Vec<char>)>)
    ensures
        match r {
            Some((n, a)) => func_heading(l@) == Some((n@, a@)),
            None => func_heading(l@) is None,
        },
{
    let pre = chars_of("### Function:");
    proof {
        reveal_strlit("### Function:");
    }
    let n = l.len();
    if !starts_with(l, pre.as_slice()) || !(13 < n && is_whitespace(l[13])) {
        return None;
    }
    let a = skip_ws(l, 13);
    let t = token_end(l, a);
    let e = back_ws(l, 0, n);
    if t == a || !(e > 0 && l[e - 1] == ')') {
        return None;
    }
    proof {
        lemma_ws_back_bounds(l@, 0, n as int);
        lemma_tok_end(l@, a as int);
    }
    let q = skip_ws(l, t);
    proof {
        lemma_ws_skip_bounds(l@, t as int);
    }
    if q < n && l[q] == '(' {
        // `q` holds a non-whitespace character, so it lies before the trimmed end.
        assert(q < e - 1) by {
            if q >= e {
                lemma_ws_back_nonws(l@, 0, n as int, q as int);
            }
        }
        return Some((slice_copy(l, a, t), slice_copy(l, q + 1, e - 1)));
    }
    match rfind_char_exec(l, '(', a + 1, t) {
        None => None,
        Some(k) => {
            proof {
                lemma_rfind_char(l@, '(', a + 1, t as int);
                if k >= e {
                    lemma_ws_back_nonws(l@, 0, n as int, k as int);
                }
            }
            Some((slice_copy(l, a, k), slice_copy(l, k + 1, e - 1)))
        },
    }
}

/// A non-whitespace character at `q` lies before the end found by `ws_back`.
pub proof fn lemma_ws_back_nonws(s: Seq<char>, lo: int, j: int, q: int)
    requires
        0 <= lo <= q < j <= s.len(),
        !is_ws(s[q]),
    ensures
        q < ws_back(s, lo, j),
    decreases j - lo,
{
    if lo < j && is_ws(s[j - 1]) {
        lemma_ws_back_nonws(s, lo, j - 1, q);
    }
}

pub fn match_var_heading(l: &[char]) -> (r: Option<Vec<char>>)
    ensures
        match r {
            Some(n) => var_heading(l@) == Some(n@),
            None => var_heading(l@) is None,
        },
{
    let pre = chars_of("### Variable:");
    proof {
        reveal_strlit("### Variable:");
    }
    let n = l.len();
    if !starts_with(l, pre.as_slice()) || !(13 < n && is_whitespace(l[13])) {
        return None;
    }
    let a = skip_ws(l, 13);
    let t = token_end(l, a);
    if t > a && skip_ws(l, t) == n {
        Some(slice_copy(l, a, t))
    } else {
        None
    }
}

pub fn func_signature_exec(name: &[char], args: &[char]) -> (r: Vec<char>)
    ensures
        r@ == func_signature(name@, args@),
{
    let mut s: Vec<char> = Vec::new();
    push_all(&mut s, name);
    s.push('(');
    push_all(&mut s, args);
    s.push(')');
    s
}

pub fn match_meta_line(l: &[char]) -> (r: Option<(MetaKey, Vec<char>)>)
    ensures
        match r {
            Some((k, v)) => meta_line(l@) == Some((k, v@)),
            None => meta_line(l@) is None,
        },
{
    let t = trimmed(l);
    let open = chars_of("<!--");
    let close = chars_of("-->");
    proof {
        reveal_strlit("<!--");
        reveal_strlit("-->");
    }
    if !(t.len() >= 7 && starts_with(t.as_slice(), open.as_slice()) && ends_with(
        t.as_slice(),
        close.as_slice(),
    )) {
        return None;
    }
    let mid = slice_copy(t.as_slice(), 4, t.len() - 3);
    let inner = trimmed(mid.as_slice());
    let cat = chars_of("category:");
    let kw = chars_of("keywords:");
    let sig = chars_of("signatures:");
    proof {
        reveal_strlit("category:");
        reveal_strlit("keywords:");
        reveal_strlit("signatures:");
    }
    if starts_with(inner.as_slice(), cat.as_slice()) {
        let v = slice_copy(inner.as_slice(), 9, inner.len());
        Some((MetaKey::Category, trimmed(v.as_slice())))
    } else if starts_with(inner.as_slice(), kw.as_slice()) {
        let v = slice_copy(inner.as_slice(), 9, inner.len());
        Some((MetaKey::Keywords, trimmed(v.as_slice())))
    } else if starts_with(inner.as_slice(), sig.as_slice()) {
        let v = slice_copy(inner.as_slice(), 11, inner.len());
        Some((MetaKey::Signatures, trimmed(v.as_slice())))
    } else {
        None
    }
}

pub fn keep_item_exec(cur: &[char], out: &mut Vec<Vec<char>>)
    ensures
        views(final(out)@) == views(old(out)@) + keep_item(cur@),
{
    let t = trimmed(cur);
    if t.len() > 0 {
        let ghost o = out@;
        let ghost tv = t;
        out.push(t);
        proof {
            lemma_views_push(o, tv);
        }
    } else {
        assert(views(out@) + Seq::<Seq<char>>::empty() =~= views(out@));
    }
}

/// The items of a comma-separated metadata value.
pub fn split_list(s: &[char]) -> (r: Vec<Vec<char>>)
    ensures
        views(r@) == list_items(s@),
{
    let mut out: Vec<Vec<char>> = Vec::new();
    let mut cur: Vec<char> = Vec::new();
    let mut d: usize = 0;
    let mut i: usize = 0;
    let n = s.len();
    while i < n
        invariant
            i <= n == s@.len(),
            d <= i,
            list_items(s@) == views(out@) + items_from(s@, i as int, d as nat, cur@),
        decreases n - i,
    {
        let c = s[i];
        if c == ',' && d == 0 {
            let ghost o = views(out@);
            keep_item_exec(cur.as_slice(), &mut out);
            proof {
                assert(o + items_from(s@, i as int, d as nat, cur@) == o + (keep_item(cur@)
                    + items_from(s@, i + 1, d as nat, Seq::empty())));
                assert(o + (keep_item(cur@) + items_from(s@, i + 1, d as nat, Seq::empty())) =~= (o
                    + keep_item(cur@)) + items_from(s@, i + 1, d as nat, Seq::empty()));
            }
            cur = Vec::new();
        } else {
            cur.push(c);
            if c == '(' || c == '[' {
                d = d + 1;
            } else if (c == ')' || c == ']') && d > 0 {
                d = d - 1;
            }
        }
        i += 1;
    }
    let ghost o = views(out@);
    keep_item_exec(cur.as_slice(), &mut out);
    out
}

} // verus!
