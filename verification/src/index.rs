//! The package index published by a registry.
use vstd::prelude::*;
use crate::text::{chars_of_string, eq_chars, strs};

verus! {

/// Where a package's files come from.
#[derive(Debug, Clone, PartialEq, Eq)]
pub enum Source {
    Tarball {
        url: String,
        /// Expected SHA-256 hash of the tarball (hex-encoded).
        hash: Option<String>,
        /// Hash algorithm (defaults to "sha256").
        hash_algorithm: Option<String>,
    },
    Git { url: String, git_ref: String, subdir: Option<String> },
    Local { path: String, editable: bool },
}

/// A source with every string taken by its view.
pub enum SourceV {
    Tarball { url: Seq<char>, hash: Option<Seq<char>>, hash_algorithm: Option<Seq<char>> },
    Git { url: Seq<char>, git_ref: Seq<char>, subdir: Option<Seq<char>> },
    Local { path: Seq<char>, editable: bool },
}

pub open spec fn opt_view(o: Option<String>) -> Option<Seq<char>> {
    match o {
        Some(s) => Some(s@),
        None => None,
    }
}

impl View for Source {
    type V = SourceV;

    open spec fn view(&self) -> SourceV {
        match self {
            Source::Tarball { url, hash, hash_algorithm } => SourceV::Tarball {
                url: url@,
                hash: opt_view(*hash),
                hash_algorithm: opt_view(*hash_algorithm),
            },
            Source::Git { url, git_ref, subdir } => SourceV::Git {
                url: url@,
                git_ref: git_ref@,
                subdir: opt_view(*subdir),
            },
            Source::Local { path, editable } => SourceV::Local { path: path@, editable: *editable },
        }
    }
}

impl Source {
    /// The subdirectory filter of a git source, if any.
    pub fn subdir(&self) -> (r: Option<&str>)
        ensures
            match self {
                Source::Git { subdir: Some(s), .. } => r is Some && r->0@ == s@,
                _ => r is None,
            },
    {
        match self {
            Source::Git { subdir, .. } => match subdir {
                Some(s) => Some(s.as_str()),
                None => None,
            },
            _ => None,
        }
    }
}

/// A package as the index lists it.
#[derive(Debug, Clone)]
pub struct PackageEntry {
    pub description: String,
    pub repository: String,
    pub source: Source,
    pub homepage: Option<String>,
    pub keywords: Option<Vec<String>>,
    pub license: Option<String>,
    pub authors: Option<Vec<String>>,
}

pub open spec fn opt_strs(o: Option<Vec<String>>) -> Option<Seq<Seq<char>>> {
    match o {
        Some(v) => Some(strs(v@)),
        None => None,
    }
}

/// A registry's index: its format version and its packages by name.
///
/// The packages are held as `(name, entry)` pairs, no name twice.
#[derive(Debug)]
pub struct PackageIndex {
    pub version: u32,
    pub packages: Vec<(String, PackageEntry)>,
}

/// Position of the first pair named `name`, or -1.
pub open spec fn position_of(ps: Seq<(String, PackageEntry)>, name: Seq<char>, i: int) -> int
    decreases ps.len() - i,
{
    if i < 0 || i >= ps.len() {
        -1
    } else if ps[i].0@ == name {
        i
    } else {
        position_of(ps, name, i + 1)
    }
}

pub proof fn lemma_position_of(ps: Seq<(String, PackageEntry)>, name: Seq<char>, i: int)
    requires
        0 <= i,
    ensures
        position_of(ps, name, i) == -1 <==> (forall|j: int| i <= j < ps.len() ==> ps[j].0@ != name),
        position_of(ps, name, i) != -1 ==> i <= position_of(ps, name, i) < ps.len()
            && ps[position_of(ps, name, i)].0@ == name,
    decreases ps.len() - i,
{
    if i < ps.len() && ps[i].0@ != name {
        lemma_position_of(ps, name, i + 1);
    }
}

/// Two lists of pairs with the same names in the same places find every
/// name at the same position.
proof fn lemma_position_of_same_names(
    ps: Seq<(String, PackageEntry)>,
    qs: Seq<(String, PackageEntry)>,
    name: Seq<char>,
    i: int,
)
    requires
        0 <= i,
        ps.len() == qs.len(),
        forall|k: int| 0 <= k < ps.len() ==> #[trigger] ps[k].0@ == qs[k].0@,
    ensures
        position_of(ps, name, i) == position_of(qs, name, i),
    decreases ps.len() - i,
{
    if i < ps.len() {
        lemma_position_of_same_names(ps, qs, name, i + 1);
    }
}

/// Where a name is found once a pair is appended.
proof fn lemma_position_of_push(
    ps: Seq<(String, PackageEntry)>,
    x: (String, PackageEntry),
    name: Seq<char>,
    i: int,
)
    requires
        0 <= i <= ps.len(),
    ensures
        position_of(ps.push(x), name, i) == (if position_of(ps, name, i) != -1 {
            position_of(ps, name, i)
        } else if x.0@ == name {
            ps.len() as int
        } else {
            -1
        }),
    decreases ps.len() - i,
{
    let qs = ps.push(x);
    if i < ps.len() {
        assert(qs[i] == ps[i]);
        lemma_position_of_push(ps, x, name, i + 1);
    } else {
        assert(qs[i] == x);
        assert(position_of(qs, name, i + 1) == -1);
    }
}

impl PackageIndex {
    /// An index of format `version` that lists no package.
    pub fn new(version: u32) -> (r: Self)
        ensures
            r.version == version,
            r.packages@.len() == 0,
            r.wf(),
    {
        PackageIndex { version, packages: Vec::new() }
    }

    /// Lists `entry` under `name`, in place of the entry of that name if
    /// there is one; every other name keeps its entry.
    pub fn insert(&mut self, name: String, entry: PackageEntry)
        requires
            old(self).wf(),
        ensures
            final(self).wf(),
            final(self).version == old(self).version,
            final(self).lookup(name@) == Some(entry),
            forall|n: Seq<char>| n != name@ ==> #[trigger] final(self).lookup(n) == old(self).lookup(n),
    {
        let n = chars_of_string(&name);
        let ghost ps = self.packages@;
        let mut i: usize = 0;
        proof {
            lemma_position_of(ps, name@, 0);
        }
        while i < self.packages.len()
            invariant
                i <= self.packages@.len(),
                self.packages@ == ps,
                *self == *old(self),
                old(self).wf(),
                n@ == name@,
                position_of(ps, name@, 0) == position_of(ps, name@, i as int),
            decreases self.packages@.len() - i,
        {
            let k = chars_of_string(&self.packages[i].0);
            if eq_chars(k.as_slice(), n.as_slice()) {
                proof {
                    lemma_position_of(ps, name@, i as int);
                }
                self.packages.set(i, (name, entry));
                proof {
                    let qs = self.packages@;
                    assert(qs[i as int].0@ == ps[i as int].0@);
                    assert forall|k: int| 0 <= k < ps.len() implies #[trigger] qs[k].0@ == ps[k].0@ by {
                        if k != i {
                            assert(qs[k] == ps[k]);
                        }
                    }
                    assert forall|m: Seq<char>| #[trigger] position_of(qs, m, 0) == position_of(ps, m, 0) by {
                        lemma_position_of_same_names(ps, qs, m, 0);
                    }
                    assert forall|m: Seq<char>| m != name@ implies #[trigger] self.lookup(m) == old(self).lookup(m) by {
                        lemma_position_of(ps, m, 0);
                        assert(position_of(qs, m, 0) == position_of(ps, m, 0));
                    }
                }
                return;
            }
            i += 1;
        }
        let ghost x = (name, entry);
        self.packages.push((name, entry));
        proof {
            let qs = self.packages@;
            assert(qs == ps.push(x));
            assert forall|m: Seq<char>| m != name@ implies #[trigger] self.lookup(m) == old(self).lookup(m) by {
                lemma_position_of_push(ps, x, m, 0);
                lemma_position_of(ps, m, 0);
            }
            lemma_position_of_push(ps, x, name@, 0);
            lemma_position_of(ps, name@, i as int);
        }
    }

    /// No name occurs twice.
    pub open spec fn wf(&self) -> bool {
        forall|i: int, j: int|
            0 <= i < j < self.packages@.len() ==> #[trigger] self.packages@[i].0@
                != #[trigger] self.packages@[j].0@
    }

    /// The entry named `name`, if the index lists one.
    pub open spec fn lookup(&self, name: Seq<char>) -> Option<PackageEntry> {
        let p = position_of(self.packages@, name, 0);
        if p >= 0 {
            Some(self.packages@[p].1)
        } else {
            None
        }
    }

    /// The entry named `name`, if the index lists one.
    pub fn get(&self, name: &str) -> (r: Option<&PackageEntry>)
        ensures
            match r {
                Some(e) => self.lookup(name@) == Some(*e),
                None => self.lookup(name@) is None,
            },
    {
        let n = crate::text::chars_of(name);
        let mut i: usize = 0;
        proof {
            lemma_position_of(self.packages@, name@, 0);
        }
        while i < self.packages.len()
            invariant
                i <= self.packages@.len(),
                n@ == name@,
                position_of(self.packages@, name@, 0) == position_of(self.packages@, name@, i as int),
            decreases self.packages@.len() - i,
        {
            let k = chars_of_string(&self.packages[i].0);
            if eq_chars(k.as_slice(), n.as_slice()) {
                return Some(&self.packages[i].1);
            }
            i += 1;
        }
        None
    }
}

} // verus!
