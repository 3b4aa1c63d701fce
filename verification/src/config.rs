//! User configuration: overrides, registries, cache lifetime.
use vstd::prelude::*;
use crate::text::{chars_of, chars_of_string, eq_chars};

verus! {

/// Default URL for the community package index.
pub const DEFAULT_REGISTRY_URL: &'static str =
    "https://raw.githubusercontent.com/cmsd2/maxima-package-index/master/index.json";

/// The configuration read from `config.toml`, with environment overrides.
#[derive(Debug)]
pub struct Config {
    /// Override Maxima user directory.
    pub maxima_userdir: Option<String>,
    /// Override Maxima binary path.
    pub maxima_bin: Option<String>,
    /// Cache TTL in seconds (default: 3600).
    pub cache_ttl: Option<u64>,
    /// Package registries, searched in order.
    pub registries: Option<Vec<RegistryConfig>>,
}

/// A registry as the configuration names it.
#[derive(Debug)]
pub struct RegistryConfig {
    pub name: String,
    pub url: String,
}

pub open spec fn registry_views(v: Seq<RegistryConfig>) -> Seq<(Seq<char>, Seq<char>)> {
    Seq::new(v.len(), |i: int| (v[i].name@, v[i].url@))
}

impl Default for Config {
    fn default() -> (r: Config)
        ensures
            r.maxima_userdir is None,
            r.maxima_bin is None,
            r.cache_ttl is None,
            r.registries is None,
    {
        Config { maxima_userdir: None, maxima_bin: None, cache_ttl: None, registries: None }
    }
}

/// The registries to search: the configured ones, then the community
/// registry unless one of them is already named `community`.
pub open spec fn effective(regs: Seq<(Seq<char>, Seq<char>)>) -> Seq<(Seq<char>, Seq<char>)> {
    if exists|i: int| 0 <= i < regs.len() && #[trigger] regs[i].0 == "community"@ {
        regs
    } else {
        regs.push(("community"@, DEFAULT_REGISTRY_URL@))
    }
}

fn clone_registry(r: &RegistryConfig) -> (c: RegistryConfig)
    ensures
        c.name@ == r.name@,
        c.url@ == r.url@,
{
    RegistryConfig { name: r.name.clone(), url: r.url.clone() }
}

impl Config {
    /// The configured registries, or none.
    pub open spec fn configured(&self) -> Seq<(Seq<char>, Seq<char>)> {
        match self.registries {
            Some(v) => registry_views(v@),
            None => Seq::empty(),
        }
    }

    /// Applies the environment overrides, given the values of
    /// `MAXIMA_USERDIR`, `MAXIMA_BIN` and `MXPM_REGISTRY_URL` where set.
    /// `MAXIMA_USERDIR` fills in the user directory only where the
    /// configuration file sets none (the file's setting comes first);
    /// `MAXIMA_BIN` replaces the Maxima binary; `MXPM_REGISTRY_URL`
    /// replaces the registries with the community registry at that URL, so
    /// it stands in for the default registry URL.
    pub fn apply_env_overrides(
        &mut self,
        maxima_userdir: Option<String>,
        maxima_bin: Option<String>,
        registry_url: Option<String>,
    )
        ensures
            final(self).maxima_userdir == (if old(self).maxima_userdir is Some {
                old(self).maxima_userdir
            } else {
                maxima_userdir
            }),
            final(self).maxima_bin == (if maxima_bin is Some {
                maxima_bin
            } else {
                old(self).maxima_bin
            }),
            final(self).cache_ttl == old(self).cache_ttl,
            registry_url is None ==> final(self).registries == old(self).registries,
            registry_url matches Some(u) ==> final(self).configured() == seq![
                ("community"@, u@),
            ],
    {
        if self.maxima_userdir.is_none() {
            self.maxima_userdir = maxima_userdir;
        }
        if maxima_bin.is_some() {
            self.maxima_bin = maxima_bin;
        }
        match registry_url {
            Some(url) => {
                let ghost u = url@;
                let mut v: Vec<RegistryConfig> = Vec::new();
                v.push(RegistryConfig { name: "community".to_owned(), url });
                assert(registry_views(v@) =~= seq![("community"@, u)]);
                self.registries = Some(v);
            },
            None => {},
        }
    }

    /// The registries to search, with the default community registry
    /// appended when none of the configured ones is named `community`.
    pub fn effective_registries(&self) -> (r: Vec<RegistryConfig>)
        ensures
            registry_views(r@) == effective(self.configured()),
    {
        let mut out: Vec<RegistryConfig> = Vec::new();
        let mut has_community = false;
        let community = chars_of("community");
        match &self.registries {
            Some(v) => {
                let mut i: usize = 0;
                while i < v.len()
                    invariant
                        i <= v@.len(),
                        self.configured() == registry_views(v@),
                        community@ == "community"@,
                        registry_views(out@) == registry_views(v@).subrange(0, i as int),
                        has_community <==> exists|k: int|
                            0 <= k < i && #[trigger] registry_views(v@)[k].0 == "community"@,
                    decreases v@.len() - i,
                {
                    let c = clone_registry(&v[i]);
                    assert(registry_views(v@)[i as int] == (v@[i as int].name@, v@[i as int].url@));
                    let ghost before = has_community;
                    let is_c = eq_chars(chars_of_string(&v[i].name).as_slice(), community.as_slice());
                    if is_c {
                        has_community = true;
                    }
                    proof {
                        let rv = registry_views(v@);
                        assert(is_c == (rv[i as int].0 == "community"@));
                        if has_community {
                            if !before {
                                assert(rv[i as int].0 == "community"@);
                            }
                        } else {
                            assert forall|k: int| 0 <= k < i + 1 implies #[trigger] rv[k].0
                                != "community"@ by {
                                if k < i {
                                }
                            }
                        }
                    }
                    let ghost o = out@;
                    out.push(c);
                    assert(registry_views(out@) =~= registry_views(o).push(
                        (v@[i as int].name@, v@[i as int].url@),
                    ));
                    i += 1;
                    assert(registry_views(out@) =~= registry_views(v@).subrange(0, i as int));
                }
                assert(registry_views(v@).subrange(0, v@.len() as int) =~= registry_views(v@));
            },
            None => {
                assert(registry_views(out@) =~= Seq::<(Seq<char>, Seq<char>)>::empty());
            },
        }
        if !has_community {
            let ghost o = out@;
            out.push(
                RegistryConfig { name: "community".to_owned(), url: DEFAULT_REGISTRY_URL.to_owned() },
            );
            assert(registry_views(out@) =~= registry_views(o).push(
                ("community"@, DEFAULT_REGISTRY_URL@),
            ));
        }
        out
    }

    /// The cache lifetime in seconds (default: one hour).
    pub fn cache_ttl_secs(&self) -> (r: u64)
        ensures
            r == match self.cache_ttl {
                Some(t) => t,
                None => 3600,
            },
    {
        match self.cache_ttl {
            Some(t) => t,
            None => 3600,
        }
    }

    /// The cache lifetime as a `Duration` of [`Config::cache_ttl_secs`] seconds.
    pub fn cache_ttl_duration(&self) -> (r: std::time::Duration)
        ensures
            r == seconds(match self.cache_ttl {
                Some(t) => t,
                None => 3600,
            }),
    {
        duration_from_secs(self.cache_ttl_secs())
    }
}

/// The `Duration` of `secs` whole seconds, as `Duration::from_secs` makes it.
pub uninterp spec fn seconds(secs: u64) -> std::time::Duration;

/// `Duration::from_secs`. Its value is a function of `secs` alone: the
/// duration of that many whole seconds, which is not restated here since a
/// `Duration` is opaque.
#[verifier::external_body]
fn duration_from_secs(secs: u64) -> (r: std::time::Duration)
    ensures
        r == seconds(secs),
{
    std::time::Duration::from_secs(secs)
}

/// The registries searched always include one named `community`, and the
/// configured ones come first, in their order.
pub proof fn lemma_effective_has_community(regs: Seq<(Seq<char>, Seq<char>)>)
    ensures
        exists|i: int| 0 <= i < effective(regs).len() && #[trigger] effective(regs)[i].0 == "community"@,
        effective(regs).len() >= regs.len(),
        forall|i: int| 0 <= i < regs.len() ==> #[trigger] effective(regs)[i] == regs[i],
{
    if exists|i: int| 0 <= i < regs.len() && #[trigger] regs[i].0 == "community"@ {
        let i = choose|i: int| 0 <= i < regs.len() && #[trigger] regs[i].0 == "community"@;
        assert(effective(regs)[i].0 == "community"@);
    } else {
        let e = regs.push(("community"@, DEFAULT_REGISTRY_URL@));
        assert(effective(regs) == e);
        assert(e[regs.len() as int].0 == "community"@);
    }
}

/// With `MXPM_REGISTRY_URL` set to `u`, the registries searched are the
/// community registry at `u` alone: the default registry URL is not
/// searched unless it is `u`.
pub proof fn lemma_registry_override(u: Seq<char>)
    ensures
        effective(seq![("community"@, u)]) == seq![("community"@, u)],
        u != DEFAULT_REGISTRY_URL@ ==> forall|i: int|
            0 <= i < effective(seq![("community"@, u)]).len() ==> #[trigger] effective(
                seq![("community"@, u)],
            )[i].1 != DEFAULT_REGISTRY_URL@,
{
    let regs = seq![("community"@, u)];
    assert(regs[0].0 == "community"@);
}

} // verus!
