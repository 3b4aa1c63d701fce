use mxpm::config::{Config, RegistryConfig, DEFAULT_REGISTRY_URL};
use mxpm::index::{PackageEntry, PackageIndex, Source};
use mxpm::install::{
    registries_fit_check, resolve_source, score_lowered, score_lowered_checked, score_match, score_match_checked,
    search_checked, search_packages,
};
use mxpm::outdated::{outdated_packages, short_ref, source_changed, source_ref};
use mxpm::publish::{
    is_hex_prefixed, normalise_remote_url, publish_body, publish_branch, publish_title, short_commit,
};
use mxpm::registry::{resolve_package, validate_index_version, IndexError, Registry};
use mxpm::source::{check_tarball_hash, hash_algorithm, tarball_hash, validate_path, DownloadResult, PathError, TarballError};
use mxpm::types::InstallMetadata;

fn make_entry(desc: &str, keywords: Option<Vec<&str>>) -> PackageEntry {
    PackageEntry {
        description: desc.to_string(),
        repository: "https://example.com".to_string(),
        source: Source::Git {
            url: "https://example.com/repo.git".into(),
            git_ref: "abc123".into(),
            subdir: None,
        },
        homepage: None,
        keywords: keywords.map(|kws| kws.into_iter().map(String::from).collect()),
        license: None,
        authors: None,
    }
}

#[test]
fn exact_name_match_scores_highest() {
    let entry = make_entry("Some package", None);
    let score = score_match("diophantine", &entry, "diophantine");
    assert_eq!(score, 100);
}

#[test]
fn partial_name_match() {
    let entry = make_entry("Some package", None);
    let score = score_match("diophantine", &entry, "diophan");
    assert_eq!(score, 50);
}

#[test]
fn keyword_exact_match() {
    let entry = make_entry("Some package", Some(vec!["algebra", "math"]));
    let score = score_match("other-name", &entry, "algebra");
    assert_eq!(score, 30);
}

#[test]
fn description_match() {
    let entry = make_entry("Solver for equations", None);
    let score = score_match("other-name", &entry, "equations");
    assert_eq!(score, 10);
}

#[test]
fn no_match_scores_zero() {
    let entry = make_entry("Some package", Some(vec!["math"]));
    let score = score_match("other-name", &entry, "xyz");
    assert_eq!(score, 0);
}

#[test]
fn case_insensitive_matching() {
    let entry = make_entry("Diophantine Solver", Some(vec!["Number-Theory"]));
    let score = score_match("Diophantine", &entry, "diophantine");
    assert!(score >= 100);
}

#[test]
fn multiple_match_types_combine() {
    let entry = make_entry("A test package", Some(vec!["test"]));
    let score = score_match("test-pkg", &entry, "test");
    assert_eq!(score, 90);
}

#[test]
fn keyword_partial_match_and_lowered_scores() {
    let kws = Some(vec!["numbertheory".to_string(), "number".to_string()]);
    assert_eq!(score_lowered("dio", "solver", &kws, "number"), 15 + 30);
    assert_eq!(score_lowered("number", "number", &None, "number"), 110);
}

#[test]
fn resolve_source_git_uses_commit() {
    let original = Source::Git {
        url: "https://example.com/repo.git".into(),
        git_ref: "main".into(),
        subdir: Some("sub".into()),
    };
    let result = DownloadResult {
        url: "https://example.com/repo.git".into(),
        commit: Some("abc123def456".into()),
        hash: None,
        hash_algorithm: None,
    };
    let resolved = resolve_source(&original, &result);
    match resolved {
        Source::Git { git_ref, subdir, .. } => {
            assert_eq!(git_ref, "abc123def456");
            assert_eq!(subdir.unwrap(), "sub");
        }
        _ => panic!("expected git source"),
    }
}

#[test]
fn resolve_source_tarball_adds_hash() {
    let original = Source::Tarball {
        url: "https://example.com/pkg.tar.gz".into(),
        hash: None,
        hash_algorithm: None,
    };
    let result = DownloadResult {
        url: "https://example.com/pkg.tar.gz".into(),
        commit: None,
        hash: Some("deadbeef".into()),
        hash_algorithm: Some("sha256".into()),
    };
    let resolved = resolve_source(&original, &result);
    match resolved {
        Source::Tarball { hash, hash_algorithm, .. } => {
            assert_eq!(hash.unwrap(), "deadbeef");
            assert_eq!(hash_algorithm.unwrap(), "sha256");
        }
        _ => panic!("expected tarball source"),
    }
}

#[test]
fn source_equality() {
    let a = Source::Git {
        url: "https://example.com/repo.git".into(),
        git_ref: "abc123".into(),
        subdir: None,
    };
    let b = Source::Git {
        url: "https://example.com/repo.git".into(),
        git_ref: "abc123".into(),
        subdir: None,
    };
    let c = Source::Git {
        url: "https://example.com/repo.git".into(),
        git_ref: "def456".into(),
        subdir: None,
    };
    assert_eq!(a, b);
    assert_ne!(a, c);
}

#[test]
fn subdir_of_sources() {
    let g = Source::Git { url: "u".into(), git_ref: "r".into(), subdir: Some("pkg/foo".into()) };
    assert_eq!(g.subdir(), Some("pkg/foo"));
    let t = Source::Tarball { url: "u".into(), hash: None, hash_algorithm: None };
    assert_eq!(t.subdir(), None);
}

fn registry(name: &str, pkgs: Vec<(&str, PackageEntry)>) -> Registry {
    Registry {
        name: name.to_string(),
        url: format!("https://example.com/{name}.json"),
        index: {
            let mut index = PackageIndex::new(1);
            for (n, e) in pkgs {
                index.insert(n.to_string(), e);
            }
            index
        },
    }
}

#[test]
fn index_insert_replaces_an_entry_of_the_same_name() {
    let mut index = PackageIndex::new(1);
    assert!(index.get("foo").is_none());
    index.insert("foo".to_string(), make_entry("first", None));
    index.insert("bar".to_string(), make_entry("other", None));
    index.insert("foo".to_string(), make_entry("second", None));
    assert_eq!(index.packages.len(), 2);
    assert_eq!(index.get("foo").unwrap().description, "second");
    assert_eq!(index.get("bar").unwrap().description, "other");
    assert_eq!(index.version, 1);
}

#[test]
fn resolve_package_first_registry_wins() {
    let regs = vec![
        registry("a", vec![("foo", make_entry("from a", None))]),
        registry("b", vec![("foo", make_entry("from b", None)), ("bar", make_entry("bar b", None))]),
    ];
    let (e, r) = resolve_package("foo", &regs).unwrap();
    assert_eq!(e.description, "from a");
    assert_eq!(r, "a");
    let (e, r) = resolve_package("bar", &regs).unwrap();
    assert_eq!(e.description, "bar b");
    assert_eq!(r, "b");
    assert_eq!(
        resolve_package("zzz", &regs).unwrap_err(),
        IndexError::PackageNotFound { name: "zzz".to_string() }
    );
}

#[test]
fn index_version_checked() {
    let ok = PackageIndex { version: 1, packages: Vec::new() };
    assert!(validate_index_version(ok).is_ok());
    let bad = PackageIndex { version: 99, packages: Vec::new() };
    assert_eq!(
        validate_index_version(bad).unwrap_err(),
        IndexError::UnsupportedIndexVersion { version: 99 }
    );
}

#[test]
fn search_takes_the_first_registry_where_a_name_scores() {
    let regs = vec![
        registry("a", vec![("plotter", make_entry("draws pictures", None))]),
        registry("b", vec![("plotter", make_entry("solver of equations", None))]),
        registry("c", vec![("plotter", make_entry("another solver", None))]),
    ];
    let hits = search_checked("solver", &regs).unwrap();
    assert_eq!(hits.len(), 1);
    assert_eq!(hits[0].0, "plotter");
    assert_eq!(hits[0].1.description, "solver of equations");
    assert_eq!(hits[0].2, "b");
    assert_eq!(hits[0].3, 10);
}

#[test]
fn search_orders_by_score_then_name() {
    let regs = vec![
        registry(
            "community",
            vec![
                ("zeta", make_entry("test helpers", None)),
                ("alpha", make_entry("test helpers", None)),
                ("test", make_entry("unrelated", None)),
                ("other", make_entry("nothing", None)),
            ],
        ),
        registry("extra", vec![("test", make_entry("second copy", None))]),
    ];
    let hits = search_packages("TEST", &regs);
    let names: Vec<&str> = hits.iter().map(|h| h.0).collect();
    assert_eq!(names, vec!["test", "alpha", "zeta"]);
    assert_eq!(hits[0].2, "community");
    assert_eq!(hits[0].3, 100);
    assert_eq!(hits[1].3, 10);
}

#[test]
fn test_validate_path_normal() {
    assert!(validate_path("foo/bar.mac").is_ok());
}

#[test]
fn test_validate_path_traversal() {
    assert!(validate_path("../etc/passwd").is_err());
}

#[test]
fn test_validate_path_absolute() {
    assert!(validate_path("/etc/passwd").is_err());
}

#[test]
fn validate_path_edge_cases() {
    assert!(validate_path("a/..b/c").is_ok());
    assert!(validate_path("a/b/..").is_err());
    assert_eq!(
        validate_path("x/../y").unwrap_err(),
        PathError::UnsafePath { path: "x/../y".to_string() }
    );
}

#[test]
fn publish_normalise_ssh_url() {
    assert_eq!(normalise_remote_url("git@github.com:user/repo.git"), "https://github.com/user/repo.git");
}

#[test]
fn publish_normalise_ssh_url_without_git_suffix() {
    assert_eq!(normalise_remote_url("git@github.com:user/repo"), "https://github.com/user/repo.git");
}

#[test]
fn publish_normalise_https_url() {
    assert_eq!(normalise_remote_url("https://github.com/user/repo"), "https://github.com/user/repo.git");
}

#[test]
fn publish_normalise_https_url_with_git_suffix() {
    assert_eq!(
        normalise_remote_url("https://github.com/user/repo.git"),
        "https://github.com/user/repo.git"
    );
}

#[test]
fn publish_normalise_https_url_trailing_slash() {
    assert_eq!(normalise_remote_url("https://github.com/user/repo/"), "https://github.com/user/repo.git");
}

#[test]
fn gh_normalise_ssh_url() {
    assert_eq!(normalise_remote_url("git@github.com:user/repo.git"), "https://github.com/user/repo.git");
}

#[test]
fn gh_normalise_ssh_url_without_git_suffix() {
    assert_eq!(normalise_remote_url("git@github.com:user/repo"), "https://github.com/user/repo.git");
}

#[test]
fn gh_normalise_https_url() {
    assert_eq!(normalise_remote_url("https://github.com/user/repo"), "https://github.com/user/repo.git");
}

#[test]
fn gh_normalise_https_url_with_git_suffix() {
    assert_eq!(
        normalise_remote_url("https://github.com/user/repo.git"),
        "https://github.com/user/repo.git"
    );
}

#[test]
fn gh_normalise_https_url_trailing_slash() {
    assert_eq!(normalise_remote_url("https://github.com/user/repo/"), "https://github.com/user/repo.git");
}

#[test]
fn normalise_is_stable() {
    for u in ["  git@host:a/b  ", "https://x/y/", "plain", ""] {
        let once = normalise_remote_url(u);
        assert!(once.ends_with(".git"));
        assert_eq!(normalise_remote_url(&once), once);
    }
}

#[test]
fn effective_registries_add_community() {
    let mut cfg = Config::default();
    let regs = cfg.effective_registries();
    assert_eq!(regs.len(), 1);
    assert_eq!(regs[0].name, "community");
    assert_eq!(regs[0].url, DEFAULT_REGISTRY_URL);
    cfg.registries = Some(vec![
        RegistryConfig { name: "mine".into(), url: "u1".into() },
        RegistryConfig { name: "community".into(), url: "u2".into() },
    ]);
    let regs = cfg.effective_registries();
    assert_eq!(regs.len(), 2);
    assert_eq!(regs[1].url, "u2");
}

#[test]
fn env_overrides_and_ttl() {
    let mut cfg = Config::default();
    assert_eq!(cfg.cache_ttl_secs(), 3600);
    assert_eq!(cfg.cache_ttl_duration(), std::time::Duration::from_secs(3600));
    cfg.cache_ttl = Some(5);
    assert_eq!(cfg.cache_ttl_secs(), 5);
    cfg.apply_env_overrides(Some("/tmp/m".into()), None, Some("https://r".into()));
    assert_eq!(cfg.maxima_userdir.as_deref(), Some("/tmp/m"));
    assert!(cfg.maxima_bin.is_none());
    let regs = cfg.registries.as_ref().unwrap();
    assert_eq!(regs.len(), 1);
    assert_eq!(regs[0].name, "community");
    assert_eq!(regs[0].url, "https://r");
    let eff = cfg.effective_registries();
    assert_eq!(eff.len(), 1);
    assert_eq!(eff[0].url, "https://r");
    assert!(eff.iter().all(|r| r.url != DEFAULT_REGISTRY_URL));
}

#[test]
fn configured_user_directory_comes_before_the_environment() {
    let mut cfg = Config::default();
    cfg.maxima_userdir = Some("/configured".into());
    cfg.apply_env_overrides(Some("/from/env".into()), Some("/bin/maxima".into()), None);
    assert_eq!(cfg.maxima_userdir.as_deref(), Some("/configured"));
    assert_eq!(cfg.maxima_bin.as_deref(), Some("/bin/maxima"));
    assert!(cfg.registries.is_none());
}

#[test]
fn outdated_report_sorted_and_changed_only() {
    let installed = vec![
        InstallMetadata {
            name: "zed".into(),
            version: None,
            installed_at: "t".into(),
            source: Source::Git { url: "u".into(), git_ref: "old".into(), subdir: None },
            registry: "community".into(),
        },
        InstallMetadata {
            name: "foo".into(),
            version: None,
            installed_at: "t".into(),
            source: Source::Git { url: "u".into(), git_ref: "abc123".into(), subdir: None },
            registry: "community".into(),
        },
        InstallMetadata {
            name: "bar".into(),
            version: None,
            installed_at: "t".into(),
            source: Source::Local { path: "/src/bar".into(), editable: true },
            registry: "local".into(),
        },
    ];
    let regs = vec![registry(
        "community",
        vec![("zed", make_entry("z", None)), ("foo", make_entry("f", None)), ("bar", make_entry("b", None))],
    )];
    let out = outdated_packages(&installed, &regs);
    let names: Vec<&str> = out.iter().map(|o| o.name.as_str()).collect();
    assert_eq!(names, vec!["bar", "zed"]);
    assert_eq!(out[1].installed_ref.as_deref(), Some("old"));
    assert_eq!(out[1].registry_ref.as_deref(), Some("abc123"));
    assert_eq!(out[0].installed_ref.as_deref(), Some("/src/bar"));
}

#[test]
fn source_change_and_refs() {
    let t1 = Source::Tarball { url: "a".into(), hash: Some("h".into()), hash_algorithm: None };
    let t2 = Source::Tarball { url: "a".into(), hash: None, hash_algorithm: None };
    assert!(!source_changed(&t1, &t2));
    assert_eq!(source_ref(&t1).as_deref(), Some("a"));
    let full = "0123456789abcdef0123456789abcdef01234567";
    assert_eq!(short_ref(Some(full)), "0123456789ab");
    assert_eq!(short_ref(Some("v1.0")), "v1.0");
    assert_eq!(short_ref(None), "-");
    assert_eq!(short_ref(Some("0123456789abcdef0123456789abcdef0123456z")), "0123456789abcdef0123456789abcdef0123456z");
}

#[test]
fn keyword_counts_that_fit_the_score_are_accepted() {
    let few = registry("a", vec![("p", make_entry("d", Some(vec!["k1", "k2"]))), ("q", make_entry("d", None))]);
    let empty = registry("b", vec![]);
    let regs = [few, empty];
    assert!(registries_fit_check(&regs, "K1"));
    assert!(registries_fit_check(&[], "x"));
    let found = search_checked("K1", &regs).unwrap();
    assert_eq!(found.len(), 1);
    assert_eq!(found[0].0, "p");
    assert_eq!(found[0].3, 30);
}

#[test]
fn checked_scores_agree_with_the_plain_ones() {
    let entry = make_entry("number theory tools", Some(vec!["number", "numbers"]));
    assert_eq!(score_match_checked("number", &entry, "number"), Some(score_match("number", &entry, "number")));
    assert_eq!(score_match_checked("number", &entry, "number"), Some(100 + 30 + 15 + 10));
    let kws = Some(vec!["a".to_string()]);
    assert_eq!(score_lowered_checked("a", "a", &kws, "a"), Some(140));
    assert_eq!(score_lowered_checked("b", "c", &None, "a"), Some(0));
}

#[test]
fn tarball_hash_is_lowercase_hex_sha256() {
    assert_eq!(tarball_hash(b"abc"), "ba7816bf8f01cfea414140de5dae2223b00361a396177a9cb410ff61f20015ad");
    assert_eq!(tarball_hash(b""), "e3b0c44298fc1c149afbf4c8996fb92427ae41e4649b934ca495991b7852b855");
}

#[test]
fn tarball_hash_is_checked_against_the_index() {
    let good = "ba7816bf8f01cfea414140de5dae2223b00361a396177a9cb410ff61f20015ad";
    assert_eq!(check_tarball_hash(b"abc", Some(good)).unwrap(), good);
    assert_eq!(check_tarball_hash(b"abc", None).unwrap(), good);
    match check_tarball_hash(b"abc", Some("00")) {
        Err(TarballError::HashMismatch { expected, actual }) => {
            assert_eq!(expected, "00");
            assert_eq!(actual, good);
        }
        other => panic!("expected a mismatch, got {other:?}"),
    }
    // The comparison is exact: an uppercase hash is a mismatch.
    assert!(check_tarball_hash(b"abc", Some(&good.to_uppercase())).is_err());
}

#[test]
fn only_sha256_is_supported() {
    assert_eq!(hash_algorithm(None).unwrap(), "sha256");
    assert_eq!(hash_algorithm(Some("sha256")).unwrap(), "sha256");
    match hash_algorithm(Some("md5")) {
        Err(TarballError::UnsupportedAlgorithm { algorithm }) => assert_eq!(algorithm, "md5"),
        other => panic!("expected a refusal, got {other:?}"),
    }
}

#[test]
fn publication_names_and_messages() {
    let hash = "0123456789abcdef0123456789abcdef01234567";
    assert!(is_hex_prefixed(hash));
    assert!(!is_hex_prefixed("0123"));
    assert!(!is_hex_prefixed("0123456789xbcdef"));
    assert_eq!(short_commit(hash), "0123456789ab");
    assert_eq!(publish_branch("my-pkg", hash), "publish/my-pkg-0123456789ab");
    assert_eq!(publish_title(false, "my-pkg", "1.0.0"), "Add my-pkg 1.0.0");
    assert_eq!(publish_title(true, "my-pkg", "1.1.0"), "Update my-pkg 1.1.0");
    assert_eq!(
        publish_body(true, "p", "2", "https://x/p.git", hash),
        "## Update `p` 2\n\n- **Source**: https://x/p.git\n- **Commit**: `0123456789abcdef0123456789abcdef01234567`\n\nSubmitted via `mxpm publish`."
    );
}
