//! Package search scores, search results, and the source recorded at install time.
use vstd::prelude::*;
use crate::index::{opt_strs, opt_view, PackageEntry, Source, SourceV};
use crate::registry::Registry;
use crate::source::DownloadResult;
use crate::text::{
    chars_of, chars_of_string, contains, contains_chars, eq_chars, lowercase, lt_chars,
    occurs_at, seq_lt, strs, to_lowercase,
};

verus! {

// ---------------------------------------------------------------------------
// Scores
// ---------------------------------------------------------------------------

/// 100 for a name equal to the query, 50 for one that contains it.
pub open spec fn name_score(name: Seq<char>, q: Seq<char>) -> nat {
    if name == q {
        100
    } else if contains(name, q) {
        50
    } else {
        0
    }
}

/// 30 for a keyword equal to the query, 15 for one that contains it.
pub open spec fn keyword_score(kw: Seq<char>, q: Seq<char>) -> nat {
    if kw == q {
        30
    } else if contains(kw, q) {
        15
    } else {
        0
    }
}

/// The keyword scores of the first `n` keywords, added up.
pub open spec fn keywords_score(kws: Seq<Seq<char>>, q: Seq<char>, n: int) -> nat
    decreases n,
{
    if n <= 0 {
        0
    } else {
        keywords_score(kws, q, n - 1) + keyword_score(kws[n - 1], q)
    }
}

/// The relevance of a package to a query, all strings already lowercased:
/// name score, plus keyword scores, plus 10 when the description contains
/// the query.
pub open spec fn score_of(
    name: Seq<char>,
    desc: Seq<char>,
    kws: Option<Seq<Seq<char>>>,
    q: Seq<char>,
) -> nat {
    name_score(name, q) + match kws {
        Some(k) => keywords_score(k, q, k.len() as int),
        None => 0,
    } + if contains(desc, q) {
        10nat
    } else {
        0nat
    }
}

/// The name's part of the score, told by comparing two packages that
/// differ only in their names (all strings lowercased), one of them a name
/// in which the query does not occur: a name equal to the query scores 100
/// more, a name in which the query occurs anywhere (at the start, inside or
/// at the end) 50 more, and a name without the query the same.
pub proof fn lemma_score_name_part(
    name: Seq<char>,
    other: Seq<char>,
    desc: Seq<char>,
    kws: Option<Seq<Seq<char>>>,
    q: Seq<char>,
)
    requires
        forall|i: int| !occurs_at(other, q, i),
    ensures
        name == q ==> score_of(name, desc, kws, q) == score_of(other, desc, kws, q) + 100,
        name != q && (exists|i: int| occurs_at(name, q, i)) ==> score_of(name, desc, kws, q) == score_of(
            other,
            desc,
            kws,
            q,
        ) + 50,
        (forall|i: int| !occurs_at(name, q, i)) ==> score_of(name, desc, kws, q) == score_of(
            other,
            desc,
            kws,
            q,
        ),
{
    if other == q {
        assert(occurs_at(other, q, 0)) by {
            assert(other.subrange(0, q.len() as int) =~= q);
        }
    }
    if name == q {
        assert(occurs_at(name, q, 0)) by {
            assert(name.subrange(0, q.len() as int) =~= q);
        }
    }
}

/// The description's part: with everything else the same, a description
/// in which the query occurs anywhere scores 10 more than one without it.
pub proof fn lemma_score_description_part(
    name: Seq<char>,
    desc: Seq<char>,
    other: Seq<char>,
    kws: Option<Seq<Seq<char>>>,
    q: Seq<char>,
    i: int,
)
    requires
        occurs_at(desc, q, i),
        forall|k: int| !occurs_at(other, q, k),
    ensures
        score_of(name, desc, kws, q) == score_of(name, other, kws, q) + 10,
{
}

/// The keywords' part: no keyword list scores as an empty one, and one more
/// keyword adds 30 when it equals the query, 15 when the query occurs in it
/// anywhere else, and nothing when the query does not occur in it.
pub proof fn lemma_score_keyword_part(
    name: Seq<char>,
    desc: Seq<char>,
    kws: Seq<Seq<char>>,
    kw: Seq<char>,
    q: Seq<char>,
)
    ensures
        score_of(name, desc, None, q) == score_of(name, desc, Some(Seq::empty()), q),
        kw == q ==> score_of(name, desc, Some(kws.push(kw)), q) == score_of(name, desc, Some(kws), q) + 30,
        kw != q && (exists|i: int| occurs_at(kw, q, i)) ==> score_of(name, desc, Some(kws.push(kw)), q)
            == score_of(name, desc, Some(kws), q) + 15,
        (forall|i: int| !occurs_at(kw, q, i)) ==> score_of(name, desc, Some(kws.push(kw)), q) == score_of(
            name,
            desc,
            Some(kws),
            q,
        ),
{
    let k2 = kws.push(kw);
    assert forall|n: int| 0 <= n <= kws.len() implies keywords_score(k2, q, n) == keywords_score(kws, q, n) by {
        lemma_keywords_prefix(kws, k2, q, n);
    }
    if kw == q {
        assert(occurs_at(kw, q, 0)) by {
            assert(kw.subrange(0, q.len() as int) =~= q);
        }
    }
}

proof fn lemma_keywords_prefix(a: Seq<Seq<char>>, b: Seq<Seq<char>>, q: Seq<char>, n: int)
    requires
        0 <= n <= a.len(),
        n <= b.len(),
        forall|k: int| 0 <= k < n ==> a[k] == b[k],
    ensures
        keywords_score(a, q, n) == keywords_score(b, q, n),
    decreases n,
{
    if n > 0 {
        lemma_keywords_prefix(a, b, q, n - 1);
    }
}

/// The lowercase forms of a list of strings.
pub open spec fn lower_all(v: Seq<Seq<char>>) -> Seq<Seq<char>> {
    Seq::new(v.len(), |i: int| lowercase(v[i]))
}

pub open spec fn lower_opt(o: Option<Seq<Seq<char>>>) -> Option<Seq<Seq<char>>> {
    match o {
        Some(v) => Some(lower_all(v)),
        None => None,
    }
}

/// The score of `entry`, named `name`, for a lowercased query.
pub open spec fn entry_score(name: Seq<char>, entry: PackageEntry, q: Seq<char>) -> nat {
    score_of(
        lowercase(name),
        lowercase(entry.description@),
        lower_opt(opt_strs(entry.keywords)),
        q,
    )
}

/// The score of package `name` with `entry` for the lowercased query `q`
/// fits in 32 bits.
pub open spec fn score_fits(name: Seq<char>, entry: PackageEntry, q: Seq<char>) -> bool {
    entry_score(name, entry, q) <= u32::MAX
}

proof fn lemma_keywords_score_mono(kws: Seq<Seq<char>>, q: Seq<char>, i: int, n: int)
    requires
        0 <= i <= n,
    ensures
        keywords_score(kws, q, i) <= keywords_score(kws, q, n),
    decreases n - i,
{
    if i < n {
        lemma_keywords_score_mono(kws, q, i, n - 1);
    }
}

/// The score of a package whose name, description and keywords are
/// already lowercased, for a lowercased query, or `None` when it does not
/// fit in 32 bits.
pub fn score_lowered_checked(
    name_lower: &str,
    desc_lower: &str,
    keywords_lower: &Option<Vec<String>>,
    query: &str,
) -> (r: Option<u32>)
    ensures
        r is Some <==> score_of(name_lower@, desc_lower@, opt_strs(*keywords_lower), query@)
            <= u32::MAX,
        r matches Some(v) ==> v == score_of(name_lower@, desc_lower@, opt_strs(*keywords_lower), query@),
{
    let q = chars_of(query);
    let nl = chars_of(name_lower);
    let ghost total = score_of(name_lower@, desc_lower@, opt_strs(*keywords_lower), query@);
    let mut score: u32 = 0;
    if eq_chars(nl.as_slice(), q.as_slice()) {
        score = 100;
    } else if contains_chars(nl.as_slice(), q.as_slice()) {
        score = 50;
    }
    let ghost kscore: nat = 0;
    match keywords_lower {
        Some(kws) => {
            let ghost ks = strs(kws@);
            let mut i: usize = 0;
            while i < kws.len()
                invariant
                    i <= kws@.len(),
                    ks == strs(kws@),
                    q@ == query@,
                    *keywords_lower == Some(*kws),
                    total == score_of(name_lower@, desc_lower@, opt_strs(*keywords_lower), query@),
                    score == name_score(name_lower@, query@) + keywords_score(ks, query@, i as int),
                decreases kws@.len() - i,
            {
                proof {
                    lemma_keywords_score_mono(ks, query@, i + 1, ks.len() as int);
                }
                let k = chars_of_string(&kws[i]);
                let w: u32 = if eq_chars(k.as_slice(), q.as_slice()) {
                    30
                } else if contains_chars(k.as_slice(), q.as_slice()) {
                    15
                } else {
                    0
                };
                match score.checked_add(w) {
                    Some(v) => {
                        score = v;
                    },
                    None => {
                        return None;
                    },
                }
                i += 1;
            }
            proof {
                kscore = keywords_score(ks, query@, ks.len() as int);
            }
        },
        None => {},
    }
    assert(score == name_score(name_lower@, query@) + kscore);
    if contains_chars(chars_of(desc_lower).as_slice(), q.as_slice()) {
        match score.checked_add(10) {
            Some(v) => Some(v),
            None => None,
        }
    } else {
        Some(score)
    }
}

/// The score of a package whose name, description and keywords are
/// already lowercased, for a lowercased query.
pub fn score_lowered(
    name_lower: &str,
    desc_lower: &str,
    keywords_lower: &Option<Vec<String>>,
    query: &str,
) -> (r: u32)
    requires
        score_of(name_lower@, desc_lower@, opt_strs(*keywords_lower), query@) <= u32::MAX,
    ensures
        r == score_of(name_lower@, desc_lower@, opt_strs(*keywords_lower), query@),
{
    score_lowered_checked(name_lower, desc_lower, keywords_lower, query).unwrap()
}

fn lowercase_all(v: &Vec<String>) -> (r: Vec<String>)
    ensures
        strs(r@) == lower_all(strs(v@)),
        r@.len() == v@.len(),
{
    let mut out: Vec<String> = Vec::new();
    let mut i: usize = 0;
    while i < v.len()
        invariant
            i <= v@.len(),
                strs(out@) == lower_all(strs(v@)).subrange(0, i as int),
            out@.len() == i,
        decreases v@.len() - i,
    {
        let l = to_lowercase(v[i].as_str());
        proof {
            crate::text::lemma_strs_push(out@, l);
        }
        out.push(l);
        i += 1;
        assert(strs(out@) =~= lower_all(strs(v@)).subrange(0, i as int));
    }
    assert(lower_all(strs(v@)).subrange(0, v@.len() as int) =~= lower_all(strs(v@)));
    out
}

/// The relevance of package `name` with `entry` to an already lowercased
/// query; name, description and keywords are compared in lowercase.
pub fn score_match(name: &str, entry: &PackageEntry, query: &str) -> (r: u32)
    requires
        score_fits(name@, *entry, query@),
    ensures
        r == entry_score(name@, *entry, query@),
{
    score_match_checked(name, entry, query).unwrap()
}

/// The relevance of package `name` with `entry` to an already lowercased
/// query, or `None` when it does not fit in 32 bits.
pub fn score_match_checked(name: &str, entry: &PackageEntry, query: &str) -> (r: Option<u32>)
    ensures
        r is Some <==> score_fits(name@, *entry, query@),
        r matches Some(v) ==> v == entry_score(name@, *entry, query@),
{
    let name_lower = to_lowercase(name);
    let desc_lower = to_lowercase(entry.description.as_str());
    let kws: Option<Vec<String>> = match &entry.keywords {
        Some(k) => Some(lowercase_all(k)),
        None => None,
    };
    score_lowered_checked(name_lower.as_str(), desc_lower.as_str(), &kws, query)
}

// ---------------------------------------------------------------------------
// Search
// ---------------------------------------------------------------------------

/// A search hit: package name, entry, registry name, score.
pub type HitV = (Seq<char>, PackageEntry, Seq<char>, u32);

pub open spec fn hit_view(h: (&str, &PackageEntry, &str, u32)) -> HitV {
    (h.0@, *h.1, h.2@, h.3)
}

pub open spec fn hit_views(v: Seq<(&str, &PackageEntry, &str, u32)>) -> Seq<HitV> {
    Seq::new(v.len(), |i: int| hit_view(v[i]))
}

/// `a` is listed before `b`: higher score first, then by name.
pub open spec fn hit_before(a: HitV, b: HitV) -> bool {
    a.3 > b.3 || (a.3 == b.3 && seq_lt(a.0, b.0))
}

/// `h` inserted before the first hit that it is listed before.
pub open spec fn hit_insert(acc: Seq<HitV>, h: HitV) -> Seq<HitV>
    decreases acc.len(),
{
    if acc.len() == 0 {
        seq![h]
    } else if hit_before(h, acc[0]) {
        seq![h] + acc
    } else {
        seq![acc[0]] + hit_insert(acc.skip(1), h)
    }
}

pub open spec fn hit_names(acc: Seq<HitV>) -> Seq<Seq<char>> {
    Seq::new(acc.len(), |i: int| acc[i].0)
}

/// The hits after package `name` of registry `reg_name` is considered: a
/// package with a positive score whose name is not yet listed is added.
pub open spec fn search_step(
    acc: Seq<HitV>,
    name: Seq<char>,
    entry: PackageEntry,
    reg_name: Seq<char>,
    q: Seq<char>,
) -> Seq<HitV> {
    let s = entry_score(name, entry, q);
    if s > 0 && !hit_names(acc).contains(name) {
        hit_insert(acc, (name, entry, reg_name, s as u32))
    } else {
        acc
    }
}

/// The hits after the first `j` packages of `reg`.
pub open spec fn search_packages_of(acc: Seq<HitV>, reg: Registry, q: Seq<char>, j: int) -> Seq<
    HitV,
>
    decreases j,
{
    if j <= 0 {
        acc
    } else {
        let p = reg.index.packages@[j - 1];
        search_step(search_packages_of(acc, reg, q, j - 1), p.0@, p.1, reg.name@, q)
    }
}

/// The hits after the first `i` registries.
pub open spec fn search_registries(regs: Seq<Registry>, q: Seq<char>, i: int) -> Seq<HitV>
    decreases i,
{
    if i <= 0 {
        Seq::empty()
    } else {
        search_packages_of(
            search_registries(regs, q, i - 1),
            regs[i - 1],
            q,
            regs[i - 1].index.packages@.len() as int,
        )
    }
}

/// Every package of every registry has a score for the lowercased query
/// `q` that fits in 32 bits.
pub open spec fn registries_fit(regs: Seq<Registry>, q: Seq<char>) -> bool {
    forall|i: int, j: int|
        0 <= i < regs.len() && 0 <= j < regs[i].index.packages@.len() ==> score_fits(
            #[trigger] regs[i].index.packages@[j].0@,
            regs[i].index.packages@[j].1,
            q,
        )
}

fn hit_before_exec(a: &(&str, &PackageEntry, &str, u32), b: &(&str, &PackageEntry, &str, u32)) -> (r:
    bool)
    ensures
        r == hit_before(hit_view(*a), hit_view(*b)),
{
    a.3 > b.3 || (a.3 == b.3 && lt_chars(chars_of(a.0).as_slice(), chars_of(b.0).as_slice()))
}

proof fn lemma_hit_insert(acc: Seq<HitV>, h: HitV, p: int)
    requires
        0 <= p <= acc.len(),
        forall|k: int| 0 <= k < p ==> !hit_before(h, #[trigger] acc[k]),
        p == acc.len() || hit_before(h, acc[p]),
    ensures
        hit_insert(acc, h) == acc.take(p) + seq![h] + acc.skip(p),
    decreases acc.len(),
{
    if acc.len() == 0 {
        assert(acc.take(p) + seq![h] + acc.skip(p) =~= seq![h]);
    } else if p == 0 {
        assert(acc.take(p) + seq![h] + acc.skip(p) =~= seq![h] + acc);
    } else {
        let t = acc.skip(1);
        assert forall|k: int| 0 <= k < p - 1 implies !hit_before(h, #[trigger] t[k]) by {
            assert(t[k] == acc[k + 1]);
        }
        if p - 1 < t.len() {
            assert(t[p - 1] == acc[p]);
        }
        lemma_hit_insert(t, h, p - 1);
        assert(acc.take(p) + seq![h] + acc.skip(p) =~= seq![acc[0]] + (t.take(p - 1) + seq![h]
            + t.skip(p - 1)));
    }
}

fn insert_hit<'a>(
    results: &mut Vec<(&'a str, &'a PackageEntry, &'a str, u32)>,
    h: (&'a str, &'a PackageEntry, &'a str, u32),
)
    ensures
        hit_views(final(results)@) == hit_insert(hit_views(old(results)@), hit_view(h)),
{
    let ghost acc = hit_views(results@);
    let mut p: usize = 0;
    while p < results.len() && !hit_before_exec(&h, &results[p])
        invariant
            p <= results@.len(),
            acc == hit_views(results@),
            forall|k: int| 0 <= k < p ==> !hit_before(hit_view(h), #[trigger] acc[k]),
        decreases results@.len() - p,
    {
        p += 1;
    }
    proof {
        lemma_hit_insert(acc, hit_view(h), p as int);
    }
    results.insert(p, h);
    assert(hit_views(results@) =~= acc.take(p as int) + seq![hit_view(h)] + acc.skip(p as int));
}

fn name_listed(results: &Vec<(&str, &PackageEntry, &str, u32)>, name: &str) -> (r: bool)
    ensures
        r == hit_names(hit_views(results@)).contains(name@),
{
    let n = chars_of(name);
    let ghost names = hit_names(hit_views(results@));
    let mut i: usize = 0;
    while i < results.len()
        invariant
            i <= results@.len(),
            n@ == name@,
            names == hit_names(hit_views(results@)),
            forall|k: int| 0 <= k < i ==> names[k] != name@,
        decreases results@.len() - i,
    {
        if eq_chars(chars_of(results[i].0).as_slice(), n.as_slice()) {
            assert(names[i as int] == name@);
            return true;
        }
        i += 1;
    }
    false
}

/// Whether `search_packages` can score every package of the registries for
/// `query`: each score fits in 32 bits.
pub fn registries_fit_check(registries: &[Registry], query: &str) -> (r: bool)
    ensures
        r == registries_fit(registries@, lowercase(query@)),
{
    let query_lower = to_lowercase(query);
    let ghost q = query_lower@;
    let mut i: usize = 0;
    while i < registries.len()
        invariant
            i <= registries@.len(),
            q == query_lower@,
            q == lowercase(query@),
            forall|a: int, b: int|
                0 <= a < i && 0 <= b < registries@[a].index.packages@.len() ==> score_fits(
                    #[trigger] registries@[a].index.packages@[b].0@,
                    registries@[a].index.packages@[b].1,
                    q,
                ),
        decreases registries@.len() - i,
    {
        let packages = &registries[i].index.packages;
        let mut j: usize = 0;
        while j < packages.len()
            invariant
                i < registries@.len(),
                *packages == registries@[i as int].index.packages,
                j <= packages@.len(),
                q == query_lower@,
                q == lowercase(query@),
                forall|a: int, b: int|
                    0 <= a < i && 0 <= b < registries@[a].index.packages@.len() ==> score_fits(
                        #[trigger] registries@[a].index.packages@[b].0@,
                        registries@[a].index.packages@[b].1,
                        q,
                    ),
                forall|b: int| 0 <= b < j ==> score_fits(#[trigger] packages@[b].0@, packages@[b].1, q),
            decreases packages@.len() - j,
        {
            let (name, entry) = &packages[j];
            if score_match_checked(name.as_str(), entry, query_lower.as_str()).is_none() {
                assert(packages@[j as int].0@ == name@ && packages@[j as int].1 == *entry);
                assert(!score_fits(
                    registries@[i as int].index.packages@[j as int].0@,
                    registries@[i as int].index.packages@[j as int].1,
                    q,
                ));
                assert(!registries_fit(registries@, q));
                return false;
            }
            j += 1;
        }
        i += 1;
    }
    true
}

/// Searches the registries for `query` as `search_packages` does, when
/// every score fits in 32 bits; `None` otherwise.
pub fn search_checked<'a>(query: &str, registries: &'a [Registry]) -> (r: Option<
    Vec<(&'a str, &'a PackageEntry, &'a str, u32)>,
>)
    ensures
        r is Some <==> registries_fit(registries@, lowercase(query@)),
        r matches Some(v) ==> hit_views(v@) == search_registries(
            registries@,
            lowercase(query@),
            registries@.len() as int,
        ) && hits_ordered(hit_views(v@)),
{
    if registries_fit_check(registries, query) {
        Some(search_packages(query, registries))
    } else {
        None
    }
}

/// Searches the registries for packages relevant to `query` (compared in
/// lowercase). Each name is listed once, from the first registry where it
/// scores above zero; hits are ordered by score, highest first, then by name.
pub fn search_packages<'a>(query: &str, registries: &'a [Registry]) -> (r: Vec<
    (&'a str, &'a PackageEntry, &'a str, u32),
>)
    requires
        registries_fit(registries@, lowercase(query@)),
    ensures
        hit_views(r@) == search_registries(
            registries@,
            lowercase(query@),
            registries@.len() as int,
        ),
        hits_ordered(hit_views(r@)),
{
    let query_lower = to_lowercase(query);
    let ghost q = query_lower@;
    let mut results: Vec<(&'a str, &'a PackageEntry, &'a str, u32)> = Vec::new();
    let mut i: usize = 0;
    assert(hit_views(results@) =~= search_registries(registries@, q, 0));
    while i < registries.len()
        invariant
            i <= registries@.len(),
            q == query_lower@,
            registries_fit(registries@, q),
            hit_views(results@) == search_registries(registries@, q, i as int),
        decreases registries@.len() - i,
    {
        let reg = &registries[i];
        let ghost start = hit_views(results@);
        let mut j: usize = 0;
        while j < reg.index.packages.len()
            invariant
                j <= reg.index.packages@.len(),
                *reg == registries@[i as int],
                i < registries@.len(),
                q == query_lower@,
                registries_fit(registries@, q),
                hit_views(results@) == search_packages_of(start, *reg, q, j as int),
            decreases reg.index.packages@.len() - j,
        {
            let (name, entry) = &reg.index.packages[j];
            assert(score_fits(
                registries@[i as int].index.packages@[j as int].0@,
                registries@[i as int].index.packages@[j as int].1,
                q,
            ));
            let score = score_match(name.as_str(), entry, query_lower.as_str());
            if score > 0 && !name_listed(&results, name.as_str()) {
                insert_hit(&mut results, (name.as_str(), entry, reg.name.as_str(), score));
            }
            j += 1;
        }
        i += 1;
    }
    proof {
        lemma_search_results_ordered(registries@, query_lower@, registries@.len() as int);
    }
    results
}

/// Hits listed strictly in order (higher score first, then by name), each
/// name once, each with a positive score.
pub open spec fn hits_ordered(acc: Seq<HitV>) -> bool {
    &&& forall|i: int, j: int| 0 <= i < j < acc.len() ==> hit_before(#[trigger] acc[i], #[trigger] acc[j])
    &&& forall|i: int, j: int| 0 <= i < j < acc.len() ==> #[trigger] acc[i].0 != #[trigger] acc[j].0
    &&& forall|i: int| 0 <= i < acc.len() ==> #[trigger] acc[i].3 > 0
}

/// Where a hit goes: before the first hit, from `i` on, that it is listed before.
pub open spec fn hit_pos(acc: Seq<HitV>, h: HitV, i: int) -> int
    decreases acc.len() - i,
{
    if i < 0 || i >= acc.len() {
        acc.len() as int
    } else if hit_before(h, acc[i]) {
        i
    } else {
        hit_pos(acc, h, i + 1)
    }
}

proof fn lemma_hit_pos(acc: Seq<HitV>, h: HitV, i: int)
    requires
        0 <= i <= acc.len(),
    ensures
        i <= hit_pos(acc, h, i) <= acc.len(),
        forall|k: int| i <= k < hit_pos(acc, h, i) ==> !hit_before(h, #[trigger] acc[k]),
        hit_pos(acc, h, i) < acc.len() ==> hit_before(h, acc[hit_pos(acc, h, i)]),
    decreases acc.len() - i,
{
    if i < acc.len() && !hit_before(h, acc[i]) {
        lemma_hit_pos(acc, h, i + 1);
    }
}

proof fn lemma_hit_before_order(a: HitV, b: HitV, c: HitV)
    ensures
        a.0 != b.0 ==> (hit_before(a, b) || hit_before(b, a)),
        !(hit_before(a, b) && hit_before(b, a)),
        hit_before(a, b) && hit_before(b, c) ==> hit_before(a, c),
{
    crate::text::lemma_seq_lt_total(a.0, b.0);
    if hit_before(a, b) && hit_before(b, c) && a.3 == b.3 && b.3 == c.3 {
        crate::text::lemma_seq_lt_trans(a.0, b.0, c.0);
    }
}

proof fn lemma_search_step(acc: Seq<HitV>, name: Seq<char>, entry: PackageEntry, reg_name: Seq<char>, q: Seq<char>)
    requires
        hits_ordered(acc),
        score_fits(name, entry, q),
    ensures
        hits_ordered(search_step(acc, name, entry, reg_name, q)),
{
    let s = entry_score(name, entry, q);
    if s > 0 && !hit_names(acc).contains(name) {
        let h = (name, entry, reg_name, s as u32);
        lemma_hit_pos(acc, h, 0);
        let p = hit_pos(acc, h, 0);
        lemma_hit_insert(acc, h, p);
        let r = acc.take(p) + seq![h] + acc.skip(p);
        assert forall|k: int| 0 <= k < acc.len() implies #[trigger] acc[k].0 != name by {
            assert(hit_names(acc)[k] == acc[k].0);
        }
        assert forall|i: int, j: int| 0 <= i < j < r.len() implies hit_before(#[trigger] r[i], #[trigger] r[j])
            && r[i].0 != r[j].0 by {
            if j < p {
                assert(r[i] == acc[i] && r[j] == acc[j]);
            } else if j == p {
                assert(r[i] == acc[i] && r[j] == h);
                lemma_hit_before_order(acc[i], h, h);
            } else if i < p {
                assert(r[i] == acc[i] && r[j] == acc[j - 1]);
            } else if i == p {
                assert(r[i] == h && r[j] == acc[j - 1]);
                if j - 1 > p {
                    lemma_hit_before_order(h, acc[p], acc[j - 1]);
                }
            } else {
                assert(r[i] == acc[i - 1] && r[j] == acc[j - 1]);
            }
        }
        assert forall|i: int| 0 <= i < r.len() implies #[trigger] r[i].3 > 0 by {
            if i < p {
                assert(r[i] == acc[i]);
            } else if i > p {
                assert(r[i] == acc[i - 1]);
            }
        }
    }
}

proof fn lemma_search_packages_of(acc: Seq<HitV>, reg: Registry, q: Seq<char>, j: int)
    requires
        hits_ordered(acc),
        j <= reg.index.packages@.len(),
        forall|k: int|
            0 <= k < reg.index.packages@.len() ==> score_fits(
                #[trigger] reg.index.packages@[k].0@,
                reg.index.packages@[k].1,
                q,
            ),
    ensures
        hits_ordered(search_packages_of(acc, reg, q, j)),
    decreases j,
{
    if j > 0 {
        lemma_search_packages_of(acc, reg, q, j - 1);
        let p = reg.index.packages@[j - 1];
        lemma_search_step(search_packages_of(acc, reg, q, j - 1), p.0@, p.1, reg.name@, q);
    }
}

/// Search results are listed strictly by relevance (higher score first,
/// then by name), each package name once, each with a positive score.
pub proof fn lemma_search_results_ordered(regs: Seq<Registry>, q: Seq<char>, i: int)
    requires
        registries_fit(regs, q),
        i <= regs.len(),
    ensures
        hits_ordered(search_registries(regs, q, i)),
    decreases i,
{
    if i > 0 {
        assert forall|k: int| 0 <= k < regs[i - 1].index.packages@.len() implies score_fits(
            #[trigger] regs[i - 1].index.packages@[k].0@,
            regs[i - 1].index.packages@[k].1,
            q,
        ) by {
            assert(score_fits(regs[i - 1].index.packages@[k].0@, regs[i - 1].index.packages@[k].1, q));
        }
        lemma_search_results_ordered(regs, q, i - 1);
        lemma_search_packages_of(
            search_registries(regs, q, i - 1),
            regs[i - 1],
            q,
            regs[i - 1].index.packages@.len() as int,
        );
    }
}

/// Name `a` sorts before name `b`: they agree up to a position where `a`
/// ends and `b` goes on, or where `a` has the smaller character.
pub open spec fn name_sorts_before(a: Seq<char>, b: Seq<char>) -> bool {
    exists|k: int|
        0 <= k <= a.len() && k <= b.len() && a.take(k) == b.take(k) && (k == a.len() || (k < b.len()
            && a[k] < b[k]))
}

/// Result `a` is ranked above result `b`: a higher score, or the same
/// score and a different name that sorts before.
pub open spec fn ranked_above(a: HitV, b: HitV) -> bool {
    ||| a.3 > b.3
    ||| a.3 == b.3 && a.0 != b.0 && name_sorts_before(a.0, b.0)
}

/// The order of search results, said directly: of any two results, the
/// earlier is ranked above the later (higher score first, then names in
/// increasing order), and every score is positive.
pub proof fn lemma_search_order(regs: Seq<Registry>, q: Seq<char>)
    requires
        registries_fit(regs, q),
    ensures
        forall|i: int, j: int|
            0 <= i < j < search_registries(regs, q, regs.len() as int).len() ==> ranked_above(
                #[trigger] search_registries(regs, q, regs.len() as int)[i],
                #[trigger] search_registries(regs, q, regs.len() as int)[j],
            ),
        forall|i: int|
            0 <= i < search_registries(regs, q, regs.len() as int).len() ==> #[trigger] search_registries(
                regs,
                q,
                regs.len() as int,
            )[i].3 > 0,
{
    let r = search_registries(regs, q, regs.len() as int);
    lemma_search_results_ordered(regs, q, regs.len() as int);
    assert forall|i: int, j: int| 0 <= i < j < r.len() implies ranked_above(#[trigger] r[i], #[trigger] r[j]) by {
        assert(hit_before(r[i], r[j]) && r[i].0 != r[j].0);
        if r[i].3 == r[j].3 {
            crate::text::lemma_seq_lt_witness(r[i].0, r[j].0);
        }
    }
}

/// Each hit is a package of one of the registries, listed with that
/// registry's name and its own score, which is positive.
pub open spec fn hits_scored(acc: Seq<HitV>, regs: Seq<Registry>, q: Seq<char>) -> bool {
    forall|k: int|
        0 <= k < acc.len() ==> {
            &&& (#[trigger] acc[k]).3 as int == entry_score(acc[k].0, acc[k].1, q)
            &&& acc[k].3 > 0
            &&& exists|i: int, j: int|
                0 <= i < regs.len() && 0 <= j < regs[i].index.packages@.len() && #[trigger] regs[i].index.packages@[j].0@
                    == acc[k].0 && regs[i].index.packages@[j].1 == acc[k].1 && regs[i].name@ == acc[k].2
        }
}

proof fn lemma_scored_step(acc: Seq<HitV>, regs: Seq<Registry>, q: Seq<char>, i: int, j: int)
    requires
        hits_scored(acc, regs, q),
        0 <= i < regs.len(),
        0 <= j < regs[i].index.packages@.len(),
        score_fits(regs[i].index.packages@[j].0@, regs[i].index.packages@[j].1, q),
    ensures
        hits_scored(
            search_step(
                acc,
                regs[i].index.packages@[j].0@,
                regs[i].index.packages@[j].1,
                regs[i].name@,
                q,
            ),
            regs,
            q,
        ),
{
    let name = regs[i].index.packages@[j].0@;
    let entry = regs[i].index.packages@[j].1;
    let s = entry_score(name, entry, q);
    if s > 0 && !hit_names(acc).contains(name) {
        let h = (name, entry, regs[i].name@, s as u32);
        lemma_hit_pos(acc, h, 0);
        let p = hit_pos(acc, h, 0);
        lemma_hit_insert(acc, h, p);
        let r = acc.take(p) + seq![h] + acc.skip(p);
        assert forall|k: int| 0 <= k < r.len() implies {
            &&& (#[trigger] r[k]).3 as int == entry_score(r[k].0, r[k].1, q)
            &&& r[k].3 > 0
            &&& exists|a: int, b: int|
                0 <= a < regs.len() && 0 <= b < regs[a].index.packages@.len() && #[trigger] regs[a].index.packages@[b].0@
                    == r[k].0 && regs[a].index.packages@[b].1 == r[k].1 && regs[a].name@ == r[k].2
        } by {
            if k < p {
                assert(r[k] == acc[k]);
            } else if k == p {
                assert(r[k] == h);
                assert(regs[i].index.packages@[j].0@ == r[k].0);
            } else {
                assert(r[k] == acc[k - 1]);
            }
        }
    }
}

proof fn lemma_scored_packages(acc: Seq<HitV>, regs: Seq<Registry>, q: Seq<char>, i: int, j: int)
    requires
        hits_scored(acc, regs, q),
        registries_fit(regs, q),
        0 <= i < regs.len(),
        0 <= j <= regs[i].index.packages@.len(),
    ensures
        hits_scored(search_packages_of(acc, regs[i], q, j), regs, q),
    decreases j,
{
    if j > 0 {
        lemma_scored_packages(acc, regs, q, i, j - 1);
        assert(score_fits(regs[i].index.packages@[j - 1].0@, regs[i].index.packages@[j - 1].1, q));
        lemma_scored_step(search_packages_of(acc, regs[i], q, j - 1), regs, q, i, j - 1);
    }
}

/// Every search result is a package of one of the registries, listed with
/// that registry's name and with its own score (as `score_match` gives it),
/// which is positive.
pub proof fn lemma_search_results_scored(regs: Seq<Registry>, q: Seq<char>, i: int)
    requires
        registries_fit(regs, q),
        0 <= i <= regs.len(),
    ensures
        hits_scored(search_registries(regs, q, i), regs, q),
    decreases i,
{
    if i > 0 {
        lemma_search_results_scored(regs, q, i - 1);
        lemma_scored_packages(
            search_registries(regs, q, i - 1),
            regs,
            q,
            i - 1,
            regs[i - 1].index.packages@.len() as int,
        );
    }
}

proof fn lemma_step_names(acc: Seq<HitV>, name: Seq<char>, entry: PackageEntry, reg_name: Seq<char>, q: Seq<char>)
    requires
        score_fits(name, entry, q),
    ensures
        forall|x: Seq<char>| #[trigger] hit_names(acc).contains(x) ==> hit_names(
            search_step(acc, name, entry, reg_name, q),
        ).contains(x),
        entry_score(name, entry, q) > 0 ==> hit_names(search_step(acc, name, entry, reg_name, q)).contains(
            name,
        ),
{
    let s = entry_score(name, entry, q);
    if s > 0 && !hit_names(acc).contains(name) {
        let h = (name, entry, reg_name, s as u32);
        lemma_hit_pos(acc, h, 0);
        let p = hit_pos(acc, h, 0);
        lemma_hit_insert(acc, h, p);
        let r = acc.take(p) + seq![h] + acc.skip(p);
        let rn = hit_names(r);
        assert forall|x: Seq<char>| #[trigger] hit_names(acc).contains(x) implies rn.contains(x) by {
            let k = choose|k: int| 0 <= k < hit_names(acc).len() && hit_names(acc)[k] == x;
            if k < p {
                assert(r[k] == acc[k]);
                assert(rn[k] == x);
            } else {
                assert(r[k + 1] == acc[k]);
                assert(rn[k + 1] == x);
            }
        }
        assert(r[p] == h);
        assert(rn[p] == name);
    } else if s > 0 {
    }
}

proof fn lemma_names_packages(acc: Seq<HitV>, regs: Seq<Registry>, q: Seq<char>, i: int, j: int)
    requires
        registries_fit(regs, q),
        0 <= i < regs.len(),
        0 <= j <= regs[i].index.packages@.len(),
    ensures
        forall|x: Seq<char>| #[trigger] hit_names(acc).contains(x) ==> hit_names(
            search_packages_of(acc, regs[i], q, j),
        ).contains(x),
        forall|b: int|
            0 <= b < j && entry_score(regs[i].index.packages@[b].0@, regs[i].index.packages@[b].1, q) > 0
                ==> hit_names(search_packages_of(acc, regs[i], q, j)).contains(
                #[trigger] regs[i].index.packages@[b].0@,
            ),
    decreases j,
{
    if j > 0 {
        lemma_names_packages(acc, regs, q, i, j - 1);
        let prev = search_packages_of(acc, regs[i], q, j - 1);
        let pk = regs[i].index.packages@[j - 1];
        assert(score_fits(pk.0@, pk.1, q));
        lemma_step_names(prev, pk.0@, pk.1, regs[i].name@, q);
    }
}

/// Every package that scores above zero for the query is among the search
/// results (under its name, from the first registry where it scores).
pub proof fn lemma_search_results_complete(regs: Seq<Registry>, q: Seq<char>, n: int)
    requires
        registries_fit(regs, q),
        0 <= n <= regs.len(),
    ensures
        forall|i: int, j: int|
            0 <= i < n && 0 <= j < regs[i].index.packages@.len() && entry_score(
                regs[i].index.packages@[j].0@,
                regs[i].index.packages@[j].1,
                q,
            ) > 0 ==> hit_names(search_registries(regs, q, n)).contains(
                #[trigger] regs[i].index.packages@[j].0@,
            ),
    decreases n,
{
    if n > 0 {
        lemma_search_results_complete(regs, q, n - 1);
        let prev = search_registries(regs, q, n - 1);
        lemma_names_packages(prev, regs, q, n - 1, regs[n - 1].index.packages@.len() as int);
        assert forall|i: int, j: int|
            0 <= i < n && 0 <= j < regs[i].index.packages@.len() && entry_score(
                regs[i].index.packages@[j].0@,
                regs[i].index.packages@[j].1,
                q,
            ) > 0 implies hit_names(search_registries(regs, q, n)).contains(
                #[trigger] regs[i].index.packages@[j].0@,
            ) by {
            if i < n - 1 {
                assert(hit_names(prev).contains(regs[i].index.packages@[j].0@));
            }
        }
    }
}

/// No package listed before position `j` of registry `i` (all of the
/// registries before `i`, then the first `j` packages of `i`) is named
/// `name` and scores above zero.
pub open spec fn none_before(regs: Seq<Registry>, q: Seq<char>, i: int, j: int, name: Seq<char>) -> bool {
    forall|a: int, b: int|
        0 <= a <= i && a < regs.len() && 0 <= b < regs[a].index.packages@.len() && (a < i || b < j)
            && #[trigger] regs[a].index.packages@[b].0@ == name ==> entry_score(
            name,
            regs[a].index.packages@[b].1,
            q,
        ) == 0
}

/// Package `j` of registry `i` is the first listing of `name` that scores
/// above zero.
pub open spec fn first_listing(regs: Seq<Registry>, q: Seq<char>, i: int, j: int, name: Seq<char>) -> bool {
    &&& 0 <= i < regs.len()
    &&& 0 <= j < regs[i].index.packages@.len()
    &&& regs[i].index.packages@[j].0@ == name
    &&& entry_score(name, regs[i].index.packages@[j].1, q) > 0
    &&& none_before(regs, q, i, j, name)
}

/// Each hit is the first listing of its name that scores above zero, with
/// that listing's entry and registry name.
pub open spec fn hits_first(acc: Seq<HitV>, regs: Seq<Registry>, q: Seq<char>) -> bool {
    forall|k: int| 0 <= k < acc.len() ==> #[trigger] from_first_listing(acc[k], regs, q)
}

/// The hit `h` is the first listing of its name that scores above zero,
/// with that listing's entry and registry name.
pub open spec fn from_first_listing(h: HitV, regs: Seq<Registry>, q: Seq<char>) -> bool {
    exists|i: int, j: int|
        #[trigger] first_listing(regs, q, i, j, h.0) && regs[i].index.packages@[j].1 == h.1 && regs[i].name@
            == h.2
}

/// Every listing before position `j` of registry `i` that scores above
/// zero has its name among the hits.
pub open spec fn complete_upto(acc: Seq<HitV>, regs: Seq<Registry>, q: Seq<char>, i: int, j: int) -> bool {
    forall|a: int, b: int|
        0 <= a <= i && a < regs.len() && 0 <= b < regs[a].index.packages@.len() && (a < i || b < j)
            && entry_score(regs[a].index.packages@[b].0@, regs[a].index.packages@[b].1, q) > 0
            ==> hit_names(acc).contains(#[trigger] regs[a].index.packages@[b].0@)
}

proof fn lemma_first_step(acc: Seq<HitV>, regs: Seq<Registry>, q: Seq<char>, i: int, j: int)
    requires
        hits_first(acc, regs, q),
        complete_upto(acc, regs, q, i, j),
        0 <= i < regs.len(),
        0 <= j < regs[i].index.packages@.len(),
    ensures
        hits_first(
            search_step(
                acc,
                regs[i].index.packages@[j].0@,
                regs[i].index.packages@[j].1,
                regs[i].name@,
                q,
            ),
            regs,
            q,
        ),
{
    let name = regs[i].index.packages@[j].0@;
    let entry = regs[i].index.packages@[j].1;
    let s = entry_score(name, entry, q);
    if s > 0 && !hit_names(acc).contains(name) {
        let h = (name, entry, regs[i].name@, s as u32);
        lemma_hit_pos(acc, h, 0);
        let p = hit_pos(acc, h, 0);
        lemma_hit_insert(acc, h, p);
        let r = acc.take(p) + seq![h] + acc.skip(p);
        assert(none_before(regs, q, i, j, name)) by {
            assert forall|a: int, b: int|
                0 <= a <= i && a < regs.len() && 0 <= b < regs[a].index.packages@.len() && (a < i || b < j)
                    && #[trigger] regs[a].index.packages@[b].0@ == name implies entry_score(
                    name,
                    regs[a].index.packages@[b].1,
                    q,
                ) == 0 by {
                if entry_score(name, regs[a].index.packages@[b].1, q) > 0 {
                    assert(hit_names(acc).contains(regs[a].index.packages@[b].0@));
                }
            }
        }
        assert(first_listing(regs, q, i, j, name));
        assert forall|k: int| 0 <= k < r.len() implies #[trigger] from_first_listing(r[k], regs, q) by {
            if k == p {
                assert(r[k] == h);
                assert(first_listing(regs, q, i, j, r[k].0) && regs[i].index.packages@[j].1 == r[k].1
                    && regs[i].name@ == r[k].2);
            } else {
                let k0 = if k < p { k } else { k - 1 };
                assert(r[k] == acc[k0]);
                assert(from_first_listing(acc[k0], regs, q));
            }
        }
        assert(hits_first(r, regs, q));
        assert(search_step(acc, name, entry, regs[i].name@, q) == r);
    } else {
        assert(search_step(acc, name, entry, regs[i].name@, q) == acc);
    }
}

proof fn lemma_first_packages(regs: Seq<Registry>, q: Seq<char>, i: int, j: int)
    requires
        registries_fit(regs, q),
        0 <= i < regs.len(),
        0 <= j <= regs[i].index.packages@.len(),
        hits_first(search_registries(regs, q, i), regs, q),
    ensures
        hits_first(search_packages_of(search_registries(regs, q, i), regs[i], q, j), regs, q),
    decreases j,
{
    if j > 0 {
        lemma_first_packages(regs, q, i, j - 1);
        let base = search_registries(regs, q, i);
        let acc = search_packages_of(base, regs[i], q, j - 1);
        lemma_search_results_complete(regs, q, i);
        lemma_names_packages(base, regs, q, i, j - 1);
        assert(complete_upto(acc, regs, q, i, j - 1)) by {
            assert forall|a: int, b: int|
                0 <= a <= i && a < regs.len() && 0 <= b < regs[a].index.packages@.len() && (a < i || b < j - 1)
                    && entry_score(regs[a].index.packages@[b].0@, regs[a].index.packages@[b].1, q) > 0
                    implies hit_names(acc).contains(#[trigger] regs[a].index.packages@[b].0@) by {
                if a < i {
                    assert(hit_names(base).contains(regs[a].index.packages@[b].0@));
                }
            }
        }
        lemma_first_step(acc, regs, q, i, j - 1);
    }
}

/// Each search result is the first listing of its name, registries taken
/// in order and each registry's packages in order, that scores above zero:
/// its entry and registry name are that listing's. Names are listed once.
pub proof fn lemma_search_results_first(regs: Seq<Registry>, q: Seq<char>, n: int)
    requires
        registries_fit(regs, q),
        0 <= n <= regs.len(),
    ensures
        hits_first(search_registries(regs, q, n), regs, q),
        forall|a: int, b: int|
            0 <= a < b < search_registries(regs, q, n).len() ==> #[trigger] search_registries(regs, q, n)[a].0
                != #[trigger] search_registries(regs, q, n)[b].0,
    decreases n,
{
    lemma_search_results_ordered(regs, q, n);
    if n > 0 {
        lemma_search_results_first(regs, q, n - 1);
        lemma_first_packages(regs, q, n - 1, regs[n - 1].index.packages@.len() as int);
    }
}

// ---------------------------------------------------------------------------
// Recorded sources
// ---------------------------------------------------------------------------

/// The source recorded for an installed package: a git source pinned to the
/// commit that was checked out (empty when none was reported), a tarball
/// with the hash that was computed, a local source unchanged.
pub open spec fn resolved(original: SourceV, result: DownloadResult) -> SourceV {
    match original {
        SourceV::Git { url, subdir, .. } => SourceV::Git {
            url,
            git_ref: match result.commit {
                Some(c) => c@,
                None => Seq::empty(),
            },
            subdir,
        },
        SourceV::Tarball { url, .. } => SourceV::Tarball {
            url,
            hash: opt_view(result.hash),
            hash_algorithm: opt_view(result.hash_algorithm),
        },
        SourceV::Local { path, editable } => SourceV::Local { path, editable },
    }
}

fn clone_opt(o: &Option<String>) -> (r: Option<String>)
    ensures
        opt_view(r) == opt_view(*o),
{
    match o {
        Some(s) => Some(s.clone()),
        None => None,
    }
}

/// Builds the source to record from the index's source and what the
/// download reported.
pub fn resolve_source(original: &Source, result: &DownloadResult) -> (r: Source)
    ensures
        r@ == resolved(original@, *result),
{
    match original {
        Source::Git { url, subdir, .. } => Source::Git {
            url: url.clone(),
            git_ref: match &result.commit {
                Some(c) => c.clone(),
                None => String::new(),
            },
            subdir: clone_opt(subdir),
        },
        Source::Tarball { url, .. } => Source::Tarball {
            url: url.clone(),
            hash: clone_opt(&result.hash),
            hash_algorithm: clone_opt(&result.hash_algorithm),
        },
        Source::Local { path, editable } => Source::Local { path: path.clone(), editable: *editable },
    }
}

} // verus!
