use mxpm::doc_index::lint::{
    lint_doc_index, lint_truncations_check, looks_like_signature, truncate, truncate_ok_check, LintLevel,
};
use mxpm::doc_index::{DocIndex, ExampleEntry, SymbolEntry, SymbolMap};

fn make_symbol(summary: &str, examples: usize, see_also: Vec<&str>) -> SymbolEntry {
    SymbolEntry {
        symbol_type: "Function".to_string(),
        signature: "test()".to_string(),
        summary: summary.to_string(),
        body_md: if summary.is_empty() {
            String::new()
        } else {
            summary.to_string()
        },
        examples: (0..examples)
            .map(|_| ExampleEntry {
                input: "1+1;".to_string(),
                output: "2".to_string(),
                description: String::new(),
            })
            .collect(),
        see_also: see_also.into_iter().map(String::from).collect(),
        category: None,
        section: None,
        keywords: Vec::new(),
        signatures: Vec::new(),
    }
}

fn empty_index() -> DocIndex {
    DocIndex {
        version: 1,
        package: "test".to_string(),
        source: "test.md".to_string(),
        symbols: SymbolMap::new(),
        sections: Vec::new(),
    }
}

#[test]
fn clean_symbol_no_warnings() {
    let mut index = empty_index();
    index
        .symbols
        .insert("foo".to_string(), make_symbol("Does something useful.", 1, vec!["bar"]));
    index
        .symbols
        .insert("bar".to_string(), make_symbol("Also useful.", 1, vec!["foo"]));

    let warnings: Vec<_> = lint_doc_index(&index)
        .into_iter()
        .filter(|w| w.level == LintLevel::Warn)
        .collect();
    assert!(warnings.is_empty(), "expected no warnings: {warnings:?}");
}

#[test]
fn signature_as_summary() {
    let mut index = empty_index();
    index
        .symbols
        .insert("foo".to_string(), make_symbol("`foo(x, y)` `foo(x)`", 1, vec![]));

    let warnings: Vec<_> = lint_doc_index(&index)
        .into_iter()
        .filter(|w| w.message.contains("signature"))
        .collect();
    assert_eq!(warnings.len(), 1);
}

#[test]
fn unknown_see_also() {
    let mut index = empty_index();
    index
        .symbols
        .insert("foo".to_string(), make_symbol("Does foo.", 1, vec!["nonexistent"]));

    let warnings: Vec<_> = lint_doc_index(&index)
        .into_iter()
        .filter(|w| w.message.contains("unknown symbol"))
        .collect();
    assert_eq!(warnings.len(), 1);
    assert!(warnings[0].message.contains("nonexistent"));
}

#[test]
fn cross_package_ref_not_flagged() {
    let mut index = empty_index();
    index
        .symbols
        .insert("foo".to_string(), make_symbol("Does foo.", 1, vec!["other_pkg:bar"]));

    let warnings: Vec<_> = lint_doc_index(&index)
        .into_iter()
        .filter(|w| w.message.contains("unknown symbol"))
        .collect();
    assert!(warnings.is_empty());
}

#[test]
fn empty_body_gives_single_warning() {
    let mut index = empty_index();
    index.symbols.insert("foo".to_string(), make_symbol("", 0, vec![]));
    let warnings = lint_doc_index(&index);
    assert_eq!(warnings.len(), 1);
    assert_eq!(warnings[0].message, "symbol has no documentation body");
    assert_eq!(warnings[0].symbol.as_deref(), Some("foo"));
}

#[test]
fn missing_examples_and_refs_are_infos() {
    let mut index = empty_index();
    index.symbols.insert("foo".to_string(), make_symbol("Does foo.", 0, vec![]));
    let warnings = lint_doc_index(&index);
    assert_eq!(warnings.len(), 2);
    assert!(warnings.iter().all(|w| w.level == LintLevel::Info));
    assert_eq!(warnings[0].message, "no examples found");
    assert_eq!(warnings[1].message, "no cross-references (See also:)");
}

#[test]
fn long_signature_summary_is_truncated() {
    let summary = format!("`{}`", "x".repeat(80));
    let mut index = empty_index();
    index.symbols.insert("foo".to_string(), make_symbol(&summary, 1, vec!["foo"]));
    let warnings = lint_doc_index(&index);
    assert_eq!(warnings.len(), 1);
    let expected = format!(
        "summary looks like a signature, not a description: \"{}...\"",
        &summary[..60]
    );
    assert_eq!(warnings[0].message, expected);
}

#[test]
fn truncate_keeps_short_text() {
    let s: Vec<char> = "abc".chars().collect();
    assert_eq!(truncate(&s, 5), vec!['a', 'b', 'c']);
    let t: Vec<char> = truncate(&s, 2);
    assert_eq!(t.into_iter().collect::<String>(), "ab...");
}

#[test]
fn signature_heuristic() {
    assert!(looks_like_signature("  foo(x) does", "foo"));
    assert!(looks_like_signature("`foo`", "bar"));
    assert!(!looks_like_signature("Computes foo.", "foo"));
}

#[test]
fn truncation_needs_a_character_boundary() {
    let ascii: Vec<char> = "abcdef".chars().collect();
    assert!(truncate_ok_check(&ascii, 3));
    assert!(truncate_ok_check(&ascii, 10));
    // "é" takes bytes 1 and 2: byte 2 falls inside it, byte 3 after it.
    let accented: Vec<char> = "aébc".chars().collect();
    assert!(!truncate_ok_check(&accented, 2));
    assert!(truncate_ok_check(&accented, 3));
}

#[test]
fn lint_refuses_a_signature_summary_cut_inside_a_character() {
    let mut index = empty_index();
    let long_sig = format!("`{}é and more text after the cut`", "x".repeat(58));
    index.symbols.insert("foo".to_string(), make_symbol(&long_sig, 1, vec![]));
    assert!(!lint_truncations_check(&index));

    let mut ok = empty_index();
    let fine = format!("`{}` and more text", "x".repeat(70));
    ok.symbols.insert("foo".to_string(), make_symbol(&fine, 1, vec![]));
    assert!(lint_truncations_check(&ok));
    // A description is never cut, whatever its characters.
    let mut desc = empty_index();
    let prose = format!("{}é and more", "y".repeat(59));
    desc.symbols.insert("foo".to_string(), make_symbol(&prose, 1, vec![]));
    assert!(lint_truncations_check(&desc));
}
