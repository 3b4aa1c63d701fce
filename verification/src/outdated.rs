//! Installed packages whose registry source has moved on.
use vstd::prelude::*;
use crate::index::{opt_view, Source, SourceV};
use crate::registry::{first_registry_with, resolve_package, Registry};
use crate::text::{chars_of, chars_of_string, eq_chars, lt_chars, seq_lt, slice_copy, string_of};
use crate::types::InstallMetadata;

verus! {

/// An installed package with a newer source in its registry.
#[derive(Debug)]
pub struct OutdatedPackage {
    pub name: String,
    pub installed_ref: Option<String>,
    pub registry_ref: Option<String>,
    pub registry: String,
}

pub struct OutdatedV {
    pub name: Seq<char>,
    pub installed_ref: Option<Seq<char>>,
    pub registry_ref: Option<Seq<char>>,
    pub registry: Seq<char>,
}

impl View for OutdatedPackage {
    type V = OutdatedV;

    open spec fn view(&self) -> OutdatedV {
        OutdatedV {
            name: self.name@,
            installed_ref: opt_view(self.installed_ref),
            registry_ref: opt_view(self.registry_ref),
            registry: self.registry@,
        }
    }
}

pub open spec fn outdated_views(v: Seq<OutdatedPackage>) -> Seq<OutdatedV> {
    Seq::new(v.len(), |i: int| v[i]@)
}

/// The registry's source identifies something else than the installed one:
/// another ref for git, another URL for a tarball, or another kind of source.
/// Computed metadata such as a tarball's hash is not compared.
pub open spec fn changed(installed: SourceV, registry: SourceV) -> bool {
    match (installed, registry) {
        (SourceV::Git { git_ref: a, .. }, SourceV::Git { git_ref: b, .. }) => a != b,
        (SourceV::Tarball { url: a, .. }, SourceV::Tarball { url: b, .. }) => a != b,
        _ => true,
    }
}

/// Whether the registry's source differs from the installed one.
pub fn source_changed(installed: &Source, registry: &Source) -> (r: bool)
    ensures
        r == changed(installed@, registry@),
{
    match (installed, registry) {
        (Source::Git { git_ref: a, .. }, Source::Git { git_ref: b, .. }) => !eq_chars(
            chars_of_string(a).as_slice(),
            chars_of_string(b).as_slice(),
        ),
        (Source::Tarball { url: a, .. }, Source::Tarball { url: b, .. }) => !eq_chars(
            chars_of_string(a).as_slice(),
            chars_of_string(b).as_slice(),
        ),
        _ => true,
    }
}

/// Two tarball sources count as changed exactly when their URLs differ,
/// whatever their hashes and hash algorithms.
pub proof fn lemma_tarball_changed(
    url_a: Seq<char>,
    hash_a: Option<Seq<char>>,
    algo_a: Option<Seq<char>>,
    url_b: Seq<char>,
    hash_b: Option<Seq<char>>,
    algo_b: Option<Seq<char>>,
)
    ensures
        changed(
            SourceV::Tarball { url: url_a, hash: hash_a, hash_algorithm: algo_a },
            SourceV::Tarball { url: url_b, hash: hash_b, hash_algorithm: algo_b },
        ) <==> url_a != url_b,
{
}

/// Two git sources count as changed exactly when their refs differ,
/// whatever their URLs and subdirectories.
pub proof fn lemma_git_changed(
    url_a: Seq<char>,
    ref_a: Seq<char>,
    sub_a: Option<Seq<char>>,
    url_b: Seq<char>,
    ref_b: Seq<char>,
    sub_b: Option<Seq<char>>,
)
    ensures
        changed(
            SourceV::Git { url: url_a, git_ref: ref_a, subdir: sub_a },
            SourceV::Git { url: url_b, git_ref: ref_b, subdir: sub_b },
        ) <==> ref_a != ref_b,
{
}

/// A local source on either side, or a change of the kind of source,
/// always counts as changed.
pub proof fn lemma_other_sources_changed(installed: SourceV, registry: SourceV)
    ensures
        installed is Local ==> changed(installed, registry),
        registry is Local ==> changed(installed, registry),
        (installed is Git && registry is Tarball) ==> changed(installed, registry),
        (installed is Tarball && registry is Git) ==> changed(installed, registry),
{
}

/// The identifying string of a source: git ref, tarball URL or local path.
pub open spec fn ref_of(s: SourceV) -> Seq<char> {
    match s {
        SourceV::Git { git_ref, .. } => git_ref,
        SourceV::Tarball { url, .. } => url,
        SourceV::Local { path, .. } => path,
    }
}

/// The identifying string of a source.
pub fn source_ref(source: &Source) -> (r: Option<String>)
    ensures
        r is Some && r->0@ == ref_of(source@),
{
    match source {
        Source::Git { git_ref, .. } => Some(git_ref.clone()),
        Source::Tarball { url, .. } => Some(url.clone()),
        Source::Local { path, .. } => Some(path.clone()),
    }
}

pub open spec fn is_hex_digit(c: char) -> bool {
    ('0' <= c <= '9') || ('a' <= c <= 'f') || ('A' <= c <= 'F')
}

/// A ref to show: a full 40-digit commit hash is cut to its first 12
/// digits, any other ref is shown whole, and a missing one as `-`.
pub open spec fn shortened(r: Option<Seq<char>>) -> Seq<char> {
    match r {
        Some(s) => if s.len() == 40 && (forall|i: int| 0 <= i < 40 ==> is_hex_digit(#[trigger] s[i])) {
            s.take(12)
        } else {
            s
        },
        None => "-"@,
    }
}

/// A ref shortened for display.
pub fn short_ref(r: Option<&str>) -> (out: String)
    ensures
        out@ == shortened(match r {
            Some(s) => Some(s@),
            None => None,
        }),
{
    match r {
        Some(s) => {
            let c = chars_of(s);
            let mut all_hex = c.len() == 40;
            let mut i: usize = 0;
            while all_hex && i < 40
                invariant
                    i <= 40,
                    c@ == s@,
                    all_hex ==> c@.len() == 40,
                    all_hex ==> forall|j: int| 0 <= j < i ==> is_hex_digit(#[trigger] s@[j]),
                    !all_hex ==> !(s@.len() == 40 && (forall|j: int|
                        0 <= j < 40 ==> is_hex_digit(#[trigger] s@[j]))),
                decreases 40 - i + (if all_hex { 1int } else { 0int }),
            {
                let ch = c[i];
                if !(('0' <= ch && ch <= '9') || ('a' <= ch && ch <= 'f') || ('A' <= ch && ch
                    <= 'F')) {
                    assert(!is_hex_digit(s@[i as int]));
                    all_hex = false;
                } else {
                    i += 1;
                }
            }
            if all_hex {
                let head = slice_copy(c.as_slice(), 0, 12);
                assert(head@ =~= s@.take(12));
                string_of(head.as_slice())
            } else {
                s.to_owned()
            }
        },
        None => "-".to_owned(),
    }
}

/// The report entry for an installed package, when its first registry
/// lists it with a changed source.
pub open spec fn outdated_entry(pkg: InstallMetadata, regs: Seq<Registry>) -> Option<OutdatedV> {
    let i = first_registry_with(regs, pkg.name@, 0);
    if i >= 0 {
        let e = regs[i].index.lookup(pkg.name@)->0;
        if changed(pkg.source@, e.source@) {
            Some(
                OutdatedV {
                    name: pkg.name@,
                    installed_ref: Some(ref_of(pkg.source@)),
                    registry_ref: Some(ref_of(e.source@)),
                    registry: regs[i].name@,
                },
            )
        } else {
            None
        }
    } else {
        None
    }
}

/// `o` inserted after every entry whose name does not sort after its own.
pub open spec fn insert_by_name(acc: Seq<OutdatedV>, o: OutdatedV) -> Seq<OutdatedV>
    decreases acc.len(),
{
    if acc.len() == 0 {
        seq![o]
    } else if seq_lt(o.name, acc[0].name) {
        seq![o] + acc
    } else {
        seq![acc[0]] + insert_by_name(acc.skip(1), o)
    }
}

/// The report for the first `n` installed packages, sorted by name
/// (packages of equal names in the order they were found).
pub open spec fn outdated_report(installed: Seq<InstallMetadata>, regs: Seq<Registry>, n: int) -> Seq<
    OutdatedV,
>
    decreases n,
{
    if n <= 0 {
        Seq::empty()
    } else {
        let prev = outdated_report(installed, regs, n - 1);
        match outdated_entry(installed[n - 1], regs) {
            Some(o) => insert_by_name(prev, o),
            None => prev,
        }
    }
}

proof fn lemma_insert_by_name(acc: Seq<OutdatedV>, o: OutdatedV, p: int)
    requires
        0 <= p <= acc.len(),
        forall|k: int| 0 <= k < p ==> !seq_lt(o.name, #[trigger] acc[k].name),
        p == acc.len() || seq_lt(o.name, acc[p].name),
    ensures
        insert_by_name(acc, o) == acc.take(p) + seq![o] + acc.skip(p),
    decreases acc.len(),
{
    if acc.len() == 0 {
        assert(acc.take(p) + seq![o] + acc.skip(p) =~= seq![o]);
    } else if p == 0 {
        assert(acc.take(p) + seq![o] + acc.skip(p) =~= seq![o] + acc);
    } else {
        let t = acc.skip(1);
        assert forall|k: int| 0 <= k < p - 1 implies !seq_lt(o.name, #[trigger] t[k].name) by {
            assert(t[k] == acc[k + 1]);
        }
        if p - 1 < t.len() {
            assert(t[p - 1] == acc[p]);
        }
        lemma_insert_by_name(t, o, p - 1);
        assert(acc.take(p) + seq![o] + acc.skip(p) =~= seq![acc[0]] + (t.take(p - 1) + seq![o]
            + t.skip(p - 1)));
    }
}

/// The names of report entries, in order.
pub open spec fn report_names(s: Seq<OutdatedV>) -> Seq<Seq<char>> {
    Seq::new(s.len(), |i: int| s[i].name)
}

/// Where an entry goes: before the first entry, from `i` on, whose name
/// sorts after its own.
pub open spec fn name_pos(acc: Seq<OutdatedV>, o: OutdatedV, i: int) -> int
    decreases acc.len() - i,
{
    if i < 0 || i >= acc.len() {
        acc.len() as int
    } else if seq_lt(o.name, acc[i].name) {
        i
    } else {
        name_pos(acc, o, i + 1)
    }
}

proof fn lemma_name_pos(acc: Seq<OutdatedV>, o: OutdatedV, i: int)
    requires
        0 <= i <= acc.len(),
    ensures
        i <= name_pos(acc, o, i) <= acc.len(),
        forall|k: int| i <= k < name_pos(acc, o, i) ==> !seq_lt(o.name, #[trigger] acc[k].name),
        name_pos(acc, o, i) < acc.len() ==> seq_lt(o.name, acc[name_pos(acc, o, i)].name),
    decreases acc.len() - i,
{
    if i < acc.len() && !seq_lt(o.name, acc[i].name) {
        lemma_name_pos(acc, o, i + 1);
    }
}

/// The outdated-package report is sorted by name.
pub proof fn lemma_report_sorted(installed: Seq<InstallMetadata>, regs: Seq<Registry>, n: int)
    ensures
        crate::text::keys_sorted(report_names(outdated_report(installed, regs, n))),
    decreases n,
{
    if n <= 0 {
        assert(report_names(outdated_report(installed, regs, n)) =~= Seq::<Seq<char>>::empty());
    } else {
        lemma_report_sorted(installed, regs, n - 1);
        let acc = outdated_report(installed, regs, n - 1);
        match outdated_entry(installed[n - 1], regs) {
            Some(o) => {
                lemma_name_pos(acc, o, 0);
                let p = name_pos(acc, o, 0);
                lemma_insert_by_name(acc, o, p);
                let ks = report_names(acc);
                assert forall|q: int| 0 <= q < p implies !seq_lt(o.name, #[trigger] ks[q]) by {
                    assert(ks[q] == acc[q].name);
                }
                crate::text::lemma_insert_keeps_sorted(ks, o.name, p);
                let r = acc.take(p) + seq![o] + acc.skip(p);
                assert(report_names(r) =~= ks.take(p) + seq![o.name] + ks.skip(p));
            },
            None => {},
        }
    }
}

fn insert_sorted(out: &mut Vec<OutdatedPackage>, o: OutdatedPackage)
    ensures
        outdated_views(final(out)@) == insert_by_name(outdated_views(old(out)@), o@),
{
    let ghost acc = outdated_views(out@);
    let name = chars_of_string(&o.name);
    let mut p: usize = 0;
    while p < out.len() && !lt_chars(name.as_slice(), chars_of_string(&out[p].name).as_slice())
        invariant
            p <= out@.len(),
            acc == outdated_views(out@),
            name@ == o.name@,
            forall|k: int| 0 <= k < p ==> !seq_lt(o@.name, #[trigger] acc[k].name),
        decreases out@.len() - p,
    {
        assert(acc[p as int].name == out@[p as int].name@);
        p += 1;
    }
    proof {
        if p < out@.len() {
            assert(acc[p as int].name == out@[p as int].name@);
        }
        lemma_insert_by_name(acc, o@, p as int);
    }
    let ghost ov = o@;
    out.insert(p, o);
    assert(outdated_views(out@) =~= acc.take(p as int) + seq![ov] + acc.skip(p as int));
}

/// The installed packages whose first registry lists them with a changed
/// source, sorted by name.
pub fn outdated_packages(installed: &Vec<InstallMetadata>, registries: &[Registry]) -> (r: Vec<
    OutdatedPackage,
>)
    ensures
        outdated_views(r@) == outdated_report(installed@, registries@, installed@.len() as int),
        crate::text::keys_sorted(report_names(outdated_views(r@))),
{
    let mut out: Vec<OutdatedPackage> = Vec::new();
    let mut i: usize = 0;
    while i < installed.len()
        invariant
            i <= installed@.len(),
            outdated_views(out@) == outdated_report(installed@, registries@, i as int),
        decreases installed@.len() - i,
    {
        let pkg = &installed[i];
        match resolve_package(pkg.name.as_str(), registries) {
            Ok((entry, reg_name)) => {
                if source_changed(&pkg.source, &entry.source) {
                    let o = OutdatedPackage {
                        name: pkg.name.clone(),
                        installed_ref: source_ref(&pkg.source),
                        registry_ref: source_ref(&entry.source),
                        registry: reg_name.to_owned(),
                    };
                    insert_sorted(&mut out, o);
                }
            },
            Err(_) => {},
        }
        i += 1;
    }
    proof {
        lemma_report_sorted(installed@, registries@, installed@.len() as int);
    }
    out
}

} // verus!
