//! What an installed package records about itself.
use vstd::prelude::*;
use crate::index::Source;
use crate::text::{chars_of_string, lt_chars, seq_lt};

verus! {

/// Metadata written to `.mxpm.json` at install time.
#[derive(Debug)]
pub struct InstallMetadata {
    pub name: String,
    pub version: Option<String>,
    pub installed_at: String,
    /// The source used at install time, with resolved values:
    /// - git: `ref` is the actual commit hash that was checked out
    /// - tarball: `hash`/`hash_algorithm` are filled in from the download
    pub source: Source,
    pub registry: String,
}

/// How command output is written.
#[derive(Debug, Clone, Copy, PartialEq, Eq, Structural)]
pub enum OutputFormat {
    Human,
    Json,
}

impl Default for OutputFormat {
    fn default() -> (r: OutputFormat)
        ensures
            r == OutputFormat::Human,
    {
        OutputFormat::Human
    }
}

/// `e` put before the first package whose name sorts after its own.
pub open spec fn insert_by_name(acc: Seq<InstallMetadata>, e: InstallMetadata) -> Seq<InstallMetadata>
    decreases acc.len(),
{
    if acc.len() == 0 {
        seq![e]
    } else if seq_lt(e.name@, acc[0].name@) {
        seq![e] + acc
    } else {
        seq![acc[0]] + insert_by_name(acc.skip(1), e)
    }
}

/// The packages sorted by name; packages of equal names keep their order.
pub open spec fn sorted_by_name(v: Seq<InstallMetadata>) -> Seq<InstallMetadata>
    decreases v.len(),
{
    if v.len() == 0 {
        Seq::empty()
    } else {
        insert_by_name(sorted_by_name(v.drop_last()), v.last())
    }
}

proof fn lemma_insert_by_name(acc: Seq<InstallMetadata>, e: InstallMetadata, p: int)
    requires
        0 <= p <= acc.len(),
        forall|k: int| 0 <= k < p ==> !seq_lt(e.name@, #[trigger] acc[k].name@),
        p == acc.len() || seq_lt(e.name@, acc[p].name@),
    ensures
        insert_by_name(acc, e) == acc.take(p) + seq![e] + acc.skip(p),
    decreases acc.len(),
{
    if acc.len() == 0 {
        assert(acc.take(p) + seq![e] + acc.skip(p) =~= seq![e]);
    } else if p == 0 {
        assert(acc.take(p) + seq![e] + acc.skip(p) =~= seq![e] + acc);
    } else {
        let t = acc.skip(1);
        assert forall|k: int| 0 <= k < p - 1 implies !seq_lt(e.name@, #[trigger] t[k].name@) by {
            assert(t[k] == acc[k + 1]);
        }
        if p - 1 < t.len() {
            assert(t[p - 1] == acc[p]);
        }
        lemma_insert_by_name(t, e, p - 1);
        assert(acc.take(p) + seq![e] + acc.skip(p) =~= seq![acc[0]] + (t.take(p - 1) + seq![e]
            + t.skip(p - 1)));
    }
}

/// The installed packages sorted by name, stably.
pub fn sort_installed(v: Vec<InstallMetadata>) -> (r: Vec<InstallMetadata>)
    ensures
        r@ == sorted_by_name(v@),
{
    let ghost sv = v@;
    let mut rest = v;
    let mut out: Vec<InstallMetadata> = Vec::new();
    let mut k: usize = 0;
    let n = rest.len();
    assert(sv.take(0) =~= Seq::<InstallMetadata>::empty());
    assert(rest@ =~= sv.skip(0));
    while rest.len() > 0
        invariant
            k <= n,
            sv.len() == n,
            rest.len() == n - k,
            rest@ == sv.skip(k as int),
            out@ == sorted_by_name(sv.take(k as int)),
        decreases rest.len(),
    {
        let ghost r0 = rest@;
        let e = rest.remove(0);
        assert(rest@ =~= sv.skip(k + 1));
        let key = chars_of_string(&e.name);
        let ghost acc = out@;
        let mut p: usize = 0;
        while p < out.len() && !lt_chars(key.as_slice(), chars_of_string(&out[p].name).as_slice())
            invariant
                p <= out.len(),
                acc == out@,
                key@ == e.name@,
                forall|q: int| 0 <= q < p ==> !seq_lt(e.name@, #[trigger] acc[q].name@),
            decreases out.len() - p,
        {
            p += 1;
        }
        proof {
            lemma_insert_by_name(acc, e, p as int);
            assert(sv.take(k + 1).drop_last() =~= sv.take(k as int));
            assert(sv.take(k + 1).last() == e);
        }
        out.insert(p, e);
        assert(out@ =~= acc.take(p as int) + seq![e] + acc.skip(p as int));
        k += 1;
    }
    assert(sv.take(n as int) =~= sv);
    out
}

} // verus!
