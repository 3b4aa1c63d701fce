//! Which markdown files the extracted symbols go to, and what each holds.
use vstd::prelude::*;
use super::emit::{emit_symbols, slug, slugify, sym_views, symbols_md, ExtractedSymbol, ExtractedV};
use crate::info_index::{decimal, push_decimal};
use crate::text::{
    chars_of, chars_of_string, eq_chars, lemma_seq_lt_irrefl, lemma_seq_lt_total,
    lemma_seq_lt_trans, lowercase, lt_chars, push_all, push_str, seq_lt, string_of, views,
};

verus! {

// ---------------------------------------------------------------------------
// Sorted sets of keys
// ---------------------------------------------------------------------------

/// `k` put into `acc` before the first key greater than it, unless it is
/// already there.
pub open spec fn insert_key(acc: Seq<Seq<char>>, k: Seq<char>) -> Seq<Seq<char>>
    decreases acc.len(),
{
    if acc.len() == 0 {
        seq![k]
    } else if acc[0] == k {
        acc
    } else if seq_lt(k, acc[0]) {
        seq![k] + acc
    } else {
        seq![acc[0]] + insert_key(acc.skip(1), k)
    }
}

/// The distinct keys of `ks`, in order.
pub open spec fn key_set(ks: Seq<Seq<char>>) -> Seq<Seq<char>>
    decreases ks.len(),
{
    if ks.len() == 0 {
        Seq::empty()
    } else {
        insert_key(key_set(ks.drop_last()), ks.last())
    }
}

/// The categories of the symbols, each once, in order.
pub open spec fn categories_of(ss: Seq<ExtractedV>) -> Seq<Seq<char>> {
    key_set(Seq::new(ss.len(), |i: int| ss[i].category))
}

/// The chapters of the symbols of category `cat`, each once, in order.
pub open spec fn chapters_in(ss: Seq<ExtractedV>, cat: Seq<char>) -> Seq<Seq<char>>
    decreases ss.len(),
{
    if ss.len() == 0 {
        Seq::empty()
    } else {
        let r = chapters_in(ss.drop_last(), cat);
        if ss.last().category == cat {
            insert_key(r, ss.last().chapter)
        } else {
            r
        }
    }
}

/// The symbols of category `cat` and chapter `ch`, in their order.
pub open spec fn members(ss: Seq<ExtractedV>, cat: Seq<char>, ch: Seq<char>) -> Seq<ExtractedV>
    decreases ss.len(),
{
    if ss.len() == 0 {
        Seq::empty()
    } else {
        let r = members(ss.drop_last(), cat, ch);
        if ss.last().category == cat && ss.last().chapter == ch {
            r.push(ss.last())
        } else {
            r
        }
    }
}

// ---------------------------------------------------------------------------
// File names
// ---------------------------------------------------------------------------

/// `base-n.md`.
pub open spec fn numbered_name(base: Seq<char>, n: nat) -> Seq<char> {
    base + "-"@ + decimal(n) + ".md"@
}

/// The first of `base-n.md`, `base-(n+1).md`, ... that is not in `files`
/// (the search stops at the number of names in `files`).
pub open spec fn free_name(files: Seq<Seq<char>>, base: Seq<char>, n: nat) -> Seq<char>
    decreases files.len() + 1 - n,
{
    if n > files.len() || !files.contains(numbered_name(base, n)) {
        numbered_name(base, n)
    } else {
        free_name(files, base, n + 1)
    }
}

/// The file of chapter `ch` of category `cat`: the category's file when it
/// is a single file or the chapter's slug is empty; else
/// `category-chapter.md`, numbered from 2 when that is taken in `files`.
pub open spec fn file_name(files: Seq<Seq<char>>, cat: Seq<char>, ch: Seq<char>, single: bool) -> Seq<
    char,
> {
    let cs = slug(lowercase(cat));
    let hs = slug(lowercase(ch));
    if single || hs.len() == 0 {
        cs + ".md"@
    } else {
        let cand = cs + "-"@ + hs;
        if files.contains(cand + ".md"@) {
            free_name(files, cand, 2)
        } else {
            cand + ".md"@
        }
    }
}

/// The heading of a file: the category's for a single file or an unnamed
/// chapter, else the chapter's.
pub open spec fn file_heading(cat: Seq<char>, ch: Seq<char>, single: bool) -> Seq<char> {
    if single || ch.len() == 0 {
        cat
    } else {
        ch
    }
}

/// A category is one file when it has one chapter, unnamed or named as the
/// category.
pub open spec fn single_file(cat: Seq<char>, chs: Seq<Seq<char>>) -> bool {
    chs.len() == 1 && (chs[0].len() == 0 || chs[0] == cat)
}

/// The files of category `cat` for chapters `chs`: name, content (a
/// heading and the markdown of the chapter's symbols) and number of
/// symbols.
pub open spec fn category_files(
    ss: Seq<ExtractedV>,
    cat: Seq<char>,
    chs: Seq<Seq<char>>,
    single: bool,
) -> Seq<(Seq<char>, Seq<char>, nat)>
    decreases chs.len(),
{
    if chs.len() == 0 {
        Seq::empty()
    } else {
        let prev = category_files(ss, cat, chs.drop_last(), single);
        let ch = chs.last();
        let names = Seq::new(prev.len(), |i: int| prev[i].0);
        let ms = members(ss, cat, ch);
        prev.push(
            (
                file_name(names, cat, ch, single),
                "## "@ + file_heading(cat, ch, single) + "\n\n"@ + symbols_md(ms, ms.len() as int),
                ms.len(),
            ),
        )
    }
}

/// Every category, in order, with its files.
pub open spec fn markdown_plan(ss: Seq<ExtractedV>) -> Seq<(Seq<char>, Seq<(Seq<char>, Seq<char>, nat)>)> {
    let cats = categories_of(ss);
    Seq::new(
        cats.len(),
        |i: int|
            {
                let chs = chapters_in(ss, cats[i]);
                (cats[i], category_files(ss, cats[i], chs, single_file(cats[i], chs)))
            },
    )
}

// ---------------------------------------------------------------------------
// Executable
// ---------------------------------------------------------------------------

/// A markdown file of the generated documentation.
pub struct MarkdownFile {
    pub filename: String,
    pub content: String,
    pub symbols: usize,
}

pub open spec fn file_views(v: Seq<MarkdownFile>) -> Seq<(Seq<char>, Seq<char>, nat)> {
    Seq::new(v.len(), |i: int| (v[i].filename@, v[i].content@, v[i].symbols as nat))
}

pub open spec fn plan_views(v: Seq<(String, Vec<MarkdownFile>)>) -> Seq<
    (Seq<char>, Seq<(Seq<char>, Seq<char>, nat)>),
> {
    Seq::new(v.len(), |i: int| (v[i].0@, file_views(v[i].1@)))
}

pub open spec fn symbol_seq(v: Seq<ExtractedSymbol>) -> Seq<ExtractedV> {
    Seq::new(v.len(), |i: int| v[i]@)
}

proof fn lemma_insert_key(acc: Seq<Seq<char>>, k: Seq<char>, p: int)
    requires
        0 <= p <= acc.len(),
        forall|q: int| 0 <= q < p ==> #[trigger] acc[q] != k && !seq_lt(k, acc[q]),
        p < acc.len() ==> (acc[p] == k || seq_lt(k, acc[p])),
    ensures
        insert_key(acc, k) == if p < acc.len() && acc[p] == k {
            acc
        } else {
            acc.take(p) + seq![k] + acc.skip(p)
        },
    decreases acc.len(),
{
    if acc.len() == 0 {
        assert(acc.take(p) + seq![k] + acc.skip(p) =~= seq![k]);
    } else if p == 0 {
        assert(acc.take(p) + seq![k] + acc.skip(p) =~= seq![k] + acc);
    } else {
        let t = acc.skip(1);
        assert forall|q: int| 0 <= q < p - 1 implies #[trigger] t[q] != k && !seq_lt(k, t[q]) by {
            assert(t[q] == acc[q + 1]);
        }
        if p - 1 < t.len() {
            assert(t[p - 1] == acc[p]);
        }
        lemma_insert_key(t, k, p - 1);
        if p < acc.len() && acc[p] == k {
            assert(seq![acc[0]] + t =~= acc);
        } else {
            assert(acc.take(p) + seq![k] + acc.skip(p) =~= seq![acc[0]] + (t.take(p - 1) + seq![k]
                + t.skip(p - 1)));
        }
    }
}

fn insert_key_exec(acc: &mut Vec<Vec<char>>, k: &[char])
    ensures
        views(final(acc)@) == insert_key(views(old(acc)@), k@),
{
    let ghost a = views(acc@);
    let mut p: usize = 0;
    while p < acc.len() && !eq_chars(acc[p].as_slice(), k) && !lt_chars(k, acc[p].as_slice())
        invariant
            p <= acc.len(),
            a == views(acc@),
            forall|q: int| 0 <= q < p ==> #[trigger] a[q] != k@ && !seq_lt(k@, a[q]),
        decreases acc.len() - p,
    {
        assert(a[p as int] == acc@[p as int]@);
        p += 1;
    }
    if p < acc.len() {
        assert(a[p as int] == acc@[p as int]@);
    }
    proof {
        lemma_insert_key(a, k@, p as int);
    }
    if p < acc.len() && eq_chars(acc[p].as_slice(), k) {
        return;
    }
    let v = copy_chars(k);
    acc.insert(p, v);
    assert(views(acc@) =~= a.take(p as int) + seq![k@] + a.skip(p as int));
}

fn copy_chars(k: &[char]) -> (r: Vec<char>)
    ensures
        r@ == k@,
{
    let mut r: Vec<char> = Vec::new();
    push_all(&mut r, k);
    assert(r@ =~= k@);
    r
}

fn categories_exec(ss: &[ExtractedSymbol]) -> (r: Vec<Vec<char>>)
    ensures
        views(r@) == categories_of(symbol_seq(ss@)),
{
    let ghost ks = Seq::new(ss@.len(), |i: int| ss@[i]@.category);
    let mut r: Vec<Vec<char>> = Vec::new();
    let mut i: usize = 0;
    assert(ks.take(0) =~= Seq::<Seq<char>>::empty());
    assert(views(r@) =~= Seq::<Seq<char>>::empty());
    while i < ss.len()
        invariant
            i <= ss.len(),
            ks == Seq::new(ss@.len(), |i: int| ss@[i]@.category),
            views(r@) == key_set(ks.take(i as int)),
        decreases ss.len() - i,
    {
        assert(ks.take(i + 1).drop_last() =~= ks.take(i as int));
        assert(ks.take(i + 1).last() == ss@[i as int].category@);
        insert_key_exec(&mut r, chars_of_string(&ss[i].category).as_slice());
        i += 1;
    }
    assert(ks.take(ss.len() as int) =~= ks);
    assert(Seq::new(symbol_seq(ss@).len(), |i: int| symbol_seq(ss@)[i].category) =~= ks);
    r
}

fn chapters_exec(ss: &[ExtractedSymbol], cat: &[char]) -> (r: Vec<Vec<char>>)
    ensures
        views(r@) == chapters_in(symbol_seq(ss@), cat@),
{
    let ghost sv = symbol_seq(ss@);
    let mut r: Vec<Vec<char>> = Vec::new();
    let mut i: usize = 0;
    assert(sv.take(0) =~= Seq::<ExtractedV>::empty());
    assert(views(r@) =~= Seq::<Seq<char>>::empty());
    while i < ss.len()
        invariant
            i <= ss.len(),
            sv == symbol_seq(ss@),
            views(r@) == chapters_in(sv.take(i as int), cat@),
        decreases ss.len() - i,
    {
        assert(sv.take(i + 1).drop_last() =~= sv.take(i as int));
        assert(sv.take(i + 1).last() == ss@[i as int]@);
        if eq_chars(chars_of_string(&ss[i].category).as_slice(), cat) {
            insert_key_exec(&mut r, chars_of_string(&ss[i].chapter).as_slice());
        }
        i += 1;
    }
    assert(sv.take(ss.len() as int) =~= sv);
    r
}

fn members_exec<'a>(ss: &'a [ExtractedSymbol], cat: &[char], ch: &[char]) -> (r: Vec<
    &'a ExtractedSymbol,
>)
    ensures
        sym_views(r@) == members(symbol_seq(ss@), cat@, ch@),
{
    let ghost sv = symbol_seq(ss@);
    let mut r: Vec<&ExtractedSymbol> = Vec::new();
    let mut i: usize = 0;
    assert(sv.take(0) =~= Seq::<ExtractedV>::empty());
    assert(sym_views(r@) =~= Seq::<ExtractedV>::empty());
    while i < ss.len()
        invariant
            i <= ss.len(),
            sv == symbol_seq(ss@),
            sym_views(r@) == members(sv.take(i as int), cat@, ch@),
        decreases ss.len() - i,
    {
        assert(sv.take(i + 1).drop_last() =~= sv.take(i as int));
        assert(sv.take(i + 1).last() == ss@[i as int]@);
        let s = &ss[i];
        if eq_chars(chars_of_string(&s.category).as_slice(), cat) && eq_chars(
            chars_of_string(&s.chapter).as_slice(),
            ch,
        ) {
            let ghost before = r@;
            r.push(s);
            assert(sym_views(r@) =~= sym_views(before).push(s@));
        }
        i += 1;
    }
    assert(sv.take(ss.len() as int) =~= sv);
    r
}

fn name_taken(files: &Vec<MarkdownFile>, name: &[char]) -> (r: bool)
    ensures
        r == Seq::new(file_views(files@).len(), |i: int| file_views(files@)[i].0).contains(name@),
{
    let ghost names = Seq::new(file_views(files@).len(), |i: int| file_views(files@)[i].0);
    let mut i: usize = 0;
    while i < files.len()
        invariant
            i <= files.len(),
            names == Seq::new(file_views(files@).len(), |i: int| file_views(files@)[i].0),
            forall|q: int| 0 <= q < i ==> #[trigger] names[q] != name@,
        decreases files.len() - i,
    {
        if eq_chars(chars_of_string(&files[i].filename).as_slice(), name) {
            assert(names[i as int] == name@);
            return true;
        }
        i += 1;
    }
    false
}

fn numbered_exec(base: &[char], n: usize) -> (r: Vec<char>)
    ensures
        r@ == numbered_name(base@, n as nat),
{
    let mut r = copy_chars(base);
    push_str(&mut r, "-");
    push_decimal(&mut r, n);
    push_str(&mut r, ".md");
    r
}

fn file_name_exec(files: &Vec<MarkdownFile>, cat: &[char], ch: &[char], single: bool) -> (r: Vec<
    char,
>)
    requires
        files.len() < usize::MAX,
    ensures
        r@ == file_name(
            Seq::new(file_views(files@).len(), |i: int| file_views(files@)[i].0),
            cat@,
            ch@,
            single,
        ),
{
    let ghost names = Seq::new(file_views(files@).len(), |i: int| file_views(files@)[i].0);
    let cs = chars_of_string(&slugify(string_of(cat).as_str()));
    let hs = chars_of_string(&slugify(string_of(ch).as_str()));
    if single || hs.len() == 0 {
        let mut r = cs;
        push_str(&mut r, ".md");
        return r;
    }
    let mut cand = cs;
    push_str(&mut cand, "-");
    push_all(&mut cand, hs.as_slice());
    let mut first = copy_chars(cand.as_slice());
    push_str(&mut first, ".md");
    if !name_taken(files, first.as_slice()) {
        return first;
    }
    let mut n: usize = 2;
    assert(free_name(names, cand@, 2) == free_name(names, cand@, n as nat));
    while n <= files.len() && name_taken(files, numbered_exec(cand.as_slice(), n).as_slice())
        invariant
            2 <= n,
            n <= files.len() + 1 || n == 2,
            files.len() < usize::MAX,
            names == Seq::new(file_views(files@).len(), |i: int| file_views(files@)[i].0),
            names.len() == files.len(),
            free_name(names, cand@, 2) == free_name(names, cand@, n as nat),
        decreases files.len() + 1 - n,
    {
        n += 1;
    }
    numbered_exec(cand.as_slice(), n)
}

fn heading_exec(cat: &[char], ch: &[char], single: bool) -> (r: Vec<char>)
    ensures
        r@ == file_heading(cat@, ch@, single),
{
    if single || ch.len() == 0 {
        copy_chars(cat)
    } else {
        copy_chars(ch)
    }
}

fn category_files_exec(ss: &[ExtractedSymbol], cat: &[char], chs: &Vec<Vec<char>>, single: bool) -> (r:
    Vec<MarkdownFile>)
    ensures
        file_views(r@) == category_files(symbol_seq(ss@), cat@, views(chs@), single),
{
    let ghost cv = views(chs@);
    let mut files: Vec<MarkdownFile> = Vec::new();
    let mut j: usize = 0;
    assert(cv.take(0) =~= Seq::<Seq<char>>::empty());
    assert(file_views(files@) =~= Seq::<(Seq<char>, Seq<char>, nat)>::empty());
    while j < chs.len()
        invariant
            j <= chs.len(),
            files.len() == j,
            cv == views(chs@),
            file_views(files@) == category_files(symbol_seq(ss@), cat@, cv.take(j as int), single),
        decreases chs.len() - j,
    {
        assert(cv.take(j + 1).drop_last() =~= cv.take(j as int));
        assert(cv.take(j + 1).last() == chs@[j as int]@);
        let ch = chs[j].as_slice();
        let name = file_name_exec(&files, cat, ch, single);
        let ms = members_exec(ss, cat, ch);
        let mut content: Vec<char> = Vec::new();
        push_str(&mut content, "## ");
        push_all(&mut content, heading_exec(cat, ch, single).as_slice());
        push_str(&mut content, "\n\n");
        let mut text = string_of(content.as_slice());
        emit_symbols(&mut text, ms.as_slice());
        let f = MarkdownFile { filename: string_of(name.as_slice()), content: text, symbols: ms.len() };
        let ghost before = files@;
        files.push(f);
        assert(file_views(files@) =~= file_views(before).push((f.filename@, f.content@, f.symbols as nat)));
        j += 1;
    }
    assert(cv.take(chs.len() as int) =~= cv);
    files
}

/// The markdown files for the symbols: one group per category, in order of
/// category; within it one file per chapter, in order of chapter, holding
/// a heading and the chapter's symbols in their order. A category whose
/// only chapter is unnamed or named as the category is a single file.
pub fn markdown_files(symbols: &[ExtractedSymbol]) -> (r: Vec<(String, Vec<MarkdownFile>)>)
    ensures
        plan_views(r@) == markdown_plan(symbol_seq(symbols@)),
{
    let ghost sv = symbol_seq(symbols@);
    let cats = categories_exec(symbols);
    let ghost cv = views(cats@);
    let mut out: Vec<(String, Vec<MarkdownFile>)> = Vec::new();
    let mut i: usize = 0;
    while i < cats.len()
        invariant
            i <= cats.len(),
            sv == symbol_seq(symbols@),
            cv == views(cats@),
            cv == categories_of(sv),
            plan_views(out@) == markdown_plan(sv).take(i as int),
        decreases cats.len() - i,
    {
        let cat = cats[i].as_slice();
        let chs = chapters_exec(symbols, cat);
        let single = chs.len() == 1 && (chs[0].len() == 0 || eq_chars(chs[0].as_slice(), cat));
        if chs.len() == 1 {
            assert(views(chs@)[0] == chs@[0]@);
        }
        assert(single == single_file(cat@, views(chs@)));
        assert(cv[i as int] == cat@);
        let files = category_files_exec(symbols, cat, &chs, single);
        let ghost before = out@;
        let ghost fv = file_views(files@);
        let name = string_of(cat);
        out.push((name, files));
        assert(markdown_plan(sv)[i as int] == (cat@, fv));
        assert(plan_views(out@) =~= plan_views(before).push((cat@, fv)));
        assert(plan_views(out@) =~= markdown_plan(sv).take(i + 1));
        i += 1;
    }
    assert(markdown_plan(sv).take(cats.len() as int) =~= markdown_plan(sv));
    out
}

// ---------------------------------------------------------------------------
// Order of the groups
// ---------------------------------------------------------------------------

/// Each key comes before every later one.
pub open spec fn strictly_sorted(ks: Seq<Seq<char>>) -> bool {
    forall|i: int, j: int| 0 <= i < j < ks.len() ==> seq_lt(#[trigger] ks[i], #[trigger] ks[j])
}

proof fn lemma_insert_key_sorted(acc: Seq<Seq<char>>, k: Seq<char>)
    requires
        strictly_sorted(acc),
    ensures
        strictly_sorted(insert_key(acc, k)),
        forall|x: Seq<char>| #[trigger] insert_key(acc, k).contains(x) <==> (acc.contains(x) || x == k),
    decreases acc.len(),
{
    let r = insert_key(acc, k);
    if acc.len() == 0 {
        assert forall|x: Seq<char>| #[trigger] r.contains(x) <==> (acc.contains(x) || x == k) by {
            if x == k {
                assert(r[0] == x);
            }
        }
    } else if acc[0] == k {
        assert forall|x: Seq<char>| #[trigger] r.contains(x) <==> (acc.contains(x) || x == k) by {
            if x == k {
                assert(acc[0] == x);
            }
        }
    } else if seq_lt(k, acc[0]) {
        assert(r == seq![k] + acc);
        assert forall|i: int, j: int| 0 <= i < j < r.len() implies seq_lt(#[trigger] r[i], #[trigger] r[j]) by {
            if i == 0 {
                if j > 1 {
                    lemma_seq_lt_trans(k, acc[0], acc[j - 1]);
                }
            } else {
                assert(r[i] == acc[i - 1] && r[j] == acc[j - 1]);
            }
        }
        assert forall|x: Seq<char>| #[trigger] r.contains(x) <==> (acc.contains(x) || x == k) by {
            if acc.contains(x) {
                let m = choose|m: int| 0 <= m < acc.len() && acc[m] == x;
                assert(r[m + 1] == x);
            }
            if r.contains(x) && x != k {
                let m = choose|m: int| 0 <= m < r.len() && r[m] == x;
                assert(acc[m - 1] == x);
            }
            if x == k {
                assert(r[0] == x);
            }
        }
    } else {
        let t = acc.skip(1);
        assert forall|i: int, j: int| 0 <= i < j < t.len() implies seq_lt(#[trigger] t[i], #[trigger] t[j]) by {
            assert(t[i] == acc[i + 1] && t[j] == acc[j + 1]);
        }
        lemma_insert_key_sorted(t, k);
        let rt = insert_key(t, k);
        assert(r == seq![acc[0]] + rt);
        lemma_seq_lt_total(k, acc[0]);
        assert forall|j: int| 0 <= j < rt.len() implies seq_lt(acc[0], #[trigger] rt[j]) by {
            assert(rt.contains(rt[j]));
            if t.contains(rt[j]) {
                let m = choose|m: int| 0 <= m < t.len() && t[m] == rt[j];
                assert(t[m] == acc[m + 1]);
            }
        }
        assert forall|i: int, j: int| 0 <= i < j < r.len() implies seq_lt(#[trigger] r[i], #[trigger] r[j]) by {
            if i == 0 {
                assert(r[j] == rt[j - 1]);
            } else {
                assert(r[i] == rt[i - 1] && r[j] == rt[j - 1]);
            }
        }
        assert forall|x: Seq<char>| #[trigger] r.contains(x) <==> (acc.contains(x) || x == k) by {
            if acc.contains(x) {
                let m = choose|m: int| 0 <= m < acc.len() && acc[m] == x;
                if m == 0 {
                    assert(r[0] == x);
                } else {
                    assert(t[m - 1] == x);
                    assert(t.contains(x));
                    assert(rt.contains(x));
                    let q = choose|q: int| 0 <= q < rt.len() && rt[q] == x;
                    assert(r[q + 1] == x);
                }
            }
            if x == k {
                assert(rt.contains(x));
                let q = choose|q: int| 0 <= q < rt.len() && rt[q] == x;
                assert(r[q + 1] == x);
            }
            if r.contains(x) {
                let m = choose|m: int| 0 <= m < r.len() && r[m] == x;
                if m == 0 {
                    assert(acc[0] == x);
                } else {
                    assert(rt[m - 1] == x);
                    assert(rt.contains(x));
                    if t.contains(x) {
                        let q = choose|q: int| 0 <= q < t.len() && t[q] == x;
                        assert(acc[q + 1] == x);
                    }
                }
            }
        }
    }
}

proof fn lemma_key_set(ks: Seq<Seq<char>>)
    ensures
        strictly_sorted(key_set(ks)),
        forall|x: Seq<char>| #[trigger] key_set(ks).contains(x) <==> ks.contains(x),
    decreases ks.len(),
{
    if ks.len() > 0 {
        let d = ks.drop_last();
        lemma_key_set(d);
        lemma_insert_key_sorted(key_set(d), ks.last());
        assert forall|x: Seq<char>| #[trigger] key_set(ks).contains(x) <==> ks.contains(x) by {
            if d.contains(x) {
                let m = choose|m: int| 0 <= m < d.len() && d[m] == x;
                assert(ks[m] == x);
            }
            if x == ks.last() {
                assert(ks[ks.len() - 1] == x);
            }
            if ks.contains(x) && x != ks.last() {
                let m = choose|m: int| 0 <= m < ks.len() && ks[m] == x;
                assert(d[m] == x);
            }
        }
    }
}

/// The markdown files are grouped by category in strictly increasing
/// order, so no category has two groups; the symbols of every group are of
/// its category, and every symbol's category has its group.
pub proof fn lemma_markdown_plan_categories(ss: Seq<ExtractedV>)
    ensures
        forall|i: int, j: int|
            0 <= i < j < markdown_plan(ss).len() ==> seq_lt(
                #[trigger] markdown_plan(ss)[i].0,
                #[trigger] markdown_plan(ss)[j].0,
            ),
        forall|k: int|
            #![trigger ss[k]]
            0 <= k < ss.len() ==> exists|i: int|
                0 <= i < markdown_plan(ss).len() && #[trigger] markdown_plan(ss)[i].0 == ss[k].category,
        forall|i: int|
            #![trigger markdown_plan(ss)[i]]
            0 <= i < markdown_plan(ss).len() ==> exists|k: int|
                0 <= k < ss.len() && #[trigger] ss[k].category == markdown_plan(ss)[i].0,
{
    let cs = Seq::new(ss.len(), |i: int| ss[i].category);
    lemma_key_set(cs);
    let cats = categories_of(ss);
    let plan = markdown_plan(ss);
    assert forall|i: int| 0 <= i < plan.len() implies #[trigger] plan[i].0 == cats[i] by {}
    assert forall|k: int| #![trigger ss[k]] 0 <= k < ss.len() implies exists|i: int|
        0 <= i < plan.len() && #[trigger] plan[i].0 == ss[k].category by {
        assert(cs[k] == ss[k].category);
        assert(cs.contains(ss[k].category));
        assert(cats.contains(ss[k].category));
        let i = choose|i: int| 0 <= i < cats.len() && cats[i] == ss[k].category;
        assert(plan[i].0 == cats[i]);
    }
    assert forall|i: int| #![trigger plan[i]] 0 <= i < plan.len() implies exists|k: int|
        0 <= k < ss.len() && #[trigger] ss[k].category == plan[i].0 by {
        assert(plan[i].0 == cats[i]);
        assert(cats.contains(cats[i]));
        assert(cs.contains(cats[i]));
        let k = choose|k: int| 0 <= k < cs.len() && cs[k] == cats[i];
        assert(ss[k].category == cs[k]);
    }
}

// ---------------------------------------------------------------------------
// Every symbol in one file
// ---------------------------------------------------------------------------

/// How many times `x` occurs in `ks`.
pub open spec fn occurrences(ks: Seq<Seq<char>>, x: Seq<char>) -> nat
    decreases ks.len(),
{
    if ks.len() == 0 {
        0
    } else {
        occurrences(ks.drop_last(), x) + if ks.last() == x {
            1nat
        } else {
            0nat
        }
    }
}

/// The occurrences in `ks` of each of `keys`, added up.
pub open spec fn key_total(keys: Seq<Seq<char>>, ks: Seq<Seq<char>>) -> nat
    decreases keys.len(),
{
    if keys.len() == 0 {
        0
    } else {
        key_total(keys.drop_last(), ks) + occurrences(ks, keys.last())
    }
}

/// The chapters of the symbols of category `cat`, in their order.
pub open spec fn chapters_of(ss: Seq<ExtractedV>, cat: Seq<char>) -> Seq<Seq<char>>
    decreases ss.len(),
{
    if ss.len() == 0 {
        Seq::empty()
    } else if ss.last().category == cat {
        chapters_of(ss.drop_last(), cat).push(ss.last().chapter)
    } else {
        chapters_of(ss.drop_last(), cat)
    }
}

/// The symbols written to the files of a group, added up.
pub open spec fn file_total(fs: Seq<(Seq<char>, Seq<char>, nat)>) -> nat
    decreases fs.len(),
{
    if fs.len() == 0 {
        0
    } else {
        file_total(fs.drop_last()) + fs.last().2
    }
}

/// The symbols written to all the files of a plan, added up.
pub open spec fn plan_total(p: Seq<(Seq<char>, Seq<(Seq<char>, Seq<char>, nat)>)>) -> nat
    decreases p.len(),
{
    if p.len() == 0 {
        0
    } else {
        plan_total(p.drop_last()) + file_total(p.last().1)
    }
}

/// The number of symbols of category `cat`.
pub open spec fn category_count(ss: Seq<ExtractedV>, cat: Seq<char>) -> nat {
    chapters_of(ss, cat).len()
}

proof fn lemma_key_total_append(a: Seq<Seq<char>>, b: Seq<Seq<char>>, ks: Seq<Seq<char>>)
    ensures
        key_total(a + b, ks) == key_total(a, ks) + key_total(b, ks),
    decreases b.len(),
{
    if b.len() == 0 {
        assert(a + b =~= a);
    } else {
        assert((a + b).drop_last() =~= a + b.drop_last());
        assert((a + b).last() == b.last());
        lemma_key_total_append(a, b.drop_last(), ks);
    }
}

proof fn lemma_key_total_push(keys: Seq<Seq<char>>, ks: Seq<Seq<char>>, y: Seq<char>)
    ensures
        key_total(keys, ks.push(y)) == key_total(keys, ks) + occurrences(keys, y),
    decreases keys.len(),
{
    if keys.len() > 0 {
        lemma_key_total_push(keys.drop_last(), ks, y);
        assert(ks.push(y).drop_last() =~= ks);
        assert(occurrences(ks.push(y), keys.last()) == occurrences(ks, keys.last()) + if y
            == keys.last() {
            1nat
        } else {
            0nat
        });
    }
}

proof fn lemma_occurrences_absent(ks: Seq<Seq<char>>, x: Seq<char>)
    requires
        !ks.contains(x),
    ensures
        occurrences(ks, x) == 0,
    decreases ks.len(),
{
    if ks.len() > 0 {
        let d = ks.drop_last();
        assert(ks[ks.len() - 1] == ks.last());
        assert(!d.contains(x)) by {
            if d.contains(x) {
                let m = choose|m: int| 0 <= m < d.len() && d[m] == x;
                assert(ks[m] == x);
            }
        }
        lemma_occurrences_absent(d, x);
    }
}

proof fn lemma_occurrences_sorted(keys: Seq<Seq<char>>, y: Seq<char>)
    requires
        strictly_sorted(keys),
        keys.contains(y),
    ensures
        occurrences(keys, y) == 1,
    decreases keys.len(),
{
    let d = keys.drop_last();
    assert forall|i: int, j: int| 0 <= i < j < d.len() implies seq_lt(#[trigger] d[i], #[trigger] d[j]) by {
        assert(d[i] == keys[i] && d[j] == keys[j]);
    }
    if keys.last() == y {
        assert(!d.contains(y)) by {
            if d.contains(y) {
                let m = choose|m: int| 0 <= m < d.len() && d[m] == y;
                assert(seq_lt(keys[m], keys[keys.len() - 1]));
                lemma_seq_lt_irrefl(y);
            }
        }
        lemma_occurrences_absent(d, y);
    } else {
        let m = choose|m: int| 0 <= m < keys.len() && keys[m] == y;
        assert(m < keys.len() - 1);
        assert(d[m] == y);
        lemma_occurrences_sorted(d, y);
    }
}

proof fn lemma_insert_present(acc: Seq<Seq<char>>, k: Seq<char>)
    requires
        strictly_sorted(acc),
        acc.contains(k),
    ensures
        insert_key(acc, k) == acc,
    decreases acc.len(),
{
    if acc[0] != k {
        let m = choose|m: int| 0 <= m < acc.len() && acc[m] == k;
        assert(m > 0);
        assert(seq_lt(acc[0], acc[m]));
        lemma_seq_lt_total(acc[0], k);
        let t = acc.skip(1);
        assert forall|i: int, j: int| 0 <= i < j < t.len() implies seq_lt(#[trigger] t[i], #[trigger] t[j]) by {
            assert(t[i] == acc[i + 1] && t[j] == acc[j + 1]);
        }
        assert(t[m - 1] == k);
        lemma_insert_present(t, k);
        assert(seq![acc[0]] + t =~= acc);
    }
}

proof fn lemma_insert_absent_total(acc: Seq<Seq<char>>, k: Seq<char>, ks: Seq<Seq<char>>)
    requires
        !acc.contains(k),
    ensures
        key_total(insert_key(acc, k), ks) == key_total(acc, ks) + occurrences(ks, k),
    decreases acc.len(),
{
    let sk = seq![k];
    assert(sk.drop_last() =~= Seq::<Seq<char>>::empty());
    assert(sk.last() == k);
    assert(key_total(Seq::<Seq<char>>::empty(), ks) == 0);
    assert(key_total(sk, ks) == key_total(sk.drop_last(), ks) + occurrences(ks, sk.last()));
    assert(key_total(seq![k], ks) == occurrences(ks, k));
    if acc.len() == 0 {
    } else {
        assert(acc[0] == acc[0]);
        assert(acc.contains(acc[0]));
        assert(acc[0] != k);
        let one = seq![acc[0]];
        let t = acc.skip(1);
        assert(one + t =~= acc);
        lemma_key_total_append(one, t, ks);
        if seq_lt(k, acc[0]) {
            assert(insert_key(acc, k) == seq![k] + acc);
            lemma_key_total_append(seq![k], acc, ks);
        } else {
            assert(insert_key(acc, k) == one + insert_key(t, k));
            assert(!t.contains(k)) by {
                if t.contains(k) {
                    let m = choose|m: int| 0 <= m < t.len() && t[m] == k;
                    assert(acc[m + 1] == k);
                }
            }
            lemma_insert_absent_total(t, k, ks);
            lemma_key_total_append(one, insert_key(t, k), ks);
        }
    }
}

/// Over the distinct keys of `ks`, the occurrences add up to the length of `ks`.
proof fn lemma_key_set_total(ks: Seq<Seq<char>>)
    ensures
        key_total(key_set(ks), ks) == ks.len(),
    decreases ks.len(),
{
    if ks.len() > 0 {
        let d = ks.drop_last();
        let y = ks.last();
        assert(d.push(y) =~= ks);
        lemma_key_set_total(d);
        lemma_key_set(d);
        lemma_key_set(ks);
        let k0 = key_set(d);
        let k1 = key_set(ks);
        lemma_key_total_push(k1, d, y);
        assert(k1.contains(y)) by {
            assert(ks[ks.len() - 1] == y);
        }
        lemma_occurrences_sorted(k1, y);
        if k0.contains(y) {
            lemma_insert_present(k0, y);
        } else {
            lemma_insert_absent_total(k0, y, d);
            assert(!d.contains(y));
            lemma_occurrences_absent(d, y);
        }
    }
}

proof fn lemma_chapters_in(ss: Seq<ExtractedV>, cat: Seq<char>)
    ensures
        chapters_in(ss, cat) == key_set(chapters_of(ss, cat)),
        forall|ch: Seq<char>| #[trigger] members(ss, cat, ch).len() == occurrences(chapters_of(ss, cat), ch),
    decreases ss.len(),
{
    if ss.len() > 0 {
        let d = ss.drop_last();
        lemma_chapters_in(d, cat);
        if ss.last().category == cat {
            let c = chapters_of(d, cat).push(ss.last().chapter);
            assert(c.drop_last() =~= chapters_of(d, cat));
            assert forall|ch: Seq<char>| #[trigger] members(ss, cat, ch).len() == occurrences(chapters_of(ss, cat), ch) by {
                assert(members(d, cat, ch).len() == occurrences(chapters_of(d, cat), ch));
            }
        } else {
            assert forall|ch: Seq<char>| #[trigger] members(ss, cat, ch).len() == occurrences(chapters_of(ss, cat), ch) by {
                assert(members(d, cat, ch).len() == occurrences(chapters_of(d, cat), ch));
            }
        }
    }
}

proof fn lemma_category_files_total(ss: Seq<ExtractedV>, cat: Seq<char>, chs: Seq<Seq<char>>, single: bool)
    requires
        forall|ch: Seq<char>| #[trigger] members(ss, cat, ch).len() == occurrences(chapters_of(ss, cat), ch),
    ensures
        file_total(category_files(ss, cat, chs, single)) == key_total(chs, chapters_of(ss, cat)),
    decreases chs.len(),
{
    if chs.len() > 0 {
        lemma_category_files_total(ss, cat, chs.drop_last(), single);
        let prev = category_files(ss, cat, chs.drop_last(), single);
        let f = category_files(ss, cat, chs, single);
        assert(f.drop_last() =~= prev);
        assert(members(ss, cat, chs.last()).len() == occurrences(chapters_of(ss, cat), chs.last()));
    }
}

proof fn lemma_categories_total(ss: Seq<ExtractedV>, cats: Seq<Seq<char>>)
    ensures
        key_total(cats, Seq::new(ss.len(), |i: int| ss[i].category)) == category_sum(ss, cats),
    decreases cats.len(),
{
    if cats.len() > 0 {
        lemma_categories_total(ss, cats.drop_last());
        lemma_category_count(ss, cats.last());
    }
}

/// The numbers of symbols of each of `cats`, added up.
pub open spec fn category_sum(ss: Seq<ExtractedV>, cats: Seq<Seq<char>>) -> nat
    decreases cats.len(),
{
    if cats.len() == 0 {
        0
    } else {
        category_sum(ss, cats.drop_last()) + category_count(ss, cats.last())
    }
}

proof fn lemma_category_count(ss: Seq<ExtractedV>, c: Seq<char>)
    ensures
        occurrences(Seq::new(ss.len(), |i: int| ss[i].category), c) == category_count(ss, c),
    decreases ss.len(),
{
    if ss.len() > 0 {
        let d = ss.drop_last();
        lemma_category_count(d, c);
        assert(Seq::new(ss.len(), |i: int| ss[i].category).drop_last() =~= Seq::new(
            d.len(),
            |i: int| d[i].category,
        ));
    }
}

proof fn lemma_plan_total(ss: Seq<ExtractedV>, n: int)
    requires
        0 <= n <= markdown_plan(ss).len(),
    ensures
        plan_total(markdown_plan(ss).take(n)) == category_sum(ss, categories_of(ss).take(n)),
    decreases n,
{
    if n > 0 {
        let p = markdown_plan(ss);
        let cats = categories_of(ss);
        lemma_plan_total(ss, n - 1);
        assert(p.take(n).drop_last() =~= p.take(n - 1));
        assert(cats.take(n).drop_last() =~= cats.take(n - 1));
        let c = cats[n - 1];
        lemma_chapters_in(ss, c);
        let chs = chapters_in(ss, c);
        lemma_category_files_total(ss, c, chs, single_file(c, chs));
        lemma_key_set_total(chapters_of(ss, c));
    }
}

/// Every symbol is written to exactly one markdown file: the symbol counts
/// of a category's files add up to the number of its symbols, and those of
/// all the files to the number of symbols.
pub proof fn lemma_markdown_plan_counts(ss: Seq<ExtractedV>)
    ensures
        forall|i: int|
            0 <= i < markdown_plan(ss).len() ==> file_total(#[trigger] markdown_plan(ss)[i].1)
                == category_count(ss, markdown_plan(ss)[i].0),
        plan_total(markdown_plan(ss)) == ss.len(),
{
    let p = markdown_plan(ss);
    let cats = categories_of(ss);
    assert forall|i: int| 0 <= i < p.len() implies file_total(#[trigger] p[i].1) == category_count(ss, p[i].0) by {
        let c = cats[i];
        lemma_chapters_in(ss, c);
        let chs = chapters_in(ss, c);
        lemma_category_files_total(ss, c, chs, single_file(c, chs));
        lemma_key_set_total(chapters_of(ss, c));
    }
    lemma_plan_total(ss, p.len() as int);
    assert(p.take(p.len() as int) =~= p);
    assert(cats.take(cats.len() as int) =~= cats);
    let cs = Seq::new(ss.len(), |i: int| ss[i].category);
    lemma_categories_total(ss, cats);
    lemma_key_set_total(cs);
}

} // verus!
