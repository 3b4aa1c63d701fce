use mxpm::info_scan::{
    detect_makeinfo_version, find_split_files, header_version_fits, parse_index_menu, scan_nodes, NodeTable,
};
use mxpm::info_index::{
    char_to_byte_offsets, escape_lisp_string, find_newline, measure_deffn_length, memchr,
    render_lisp, scan_sections, scan_sections_checked, sections_fit_check, seek_lines, DeffnEntry, InfoIndex, SectionEntry,
};

#[test]
fn test_escape_lisp_string() {
    assert_eq!(escape_lisp_string("hello"), "hello");
    assert_eq!(escape_lisp_string(r#"say "hi""#), r#"say \"hi\""#);
}

#[test]
fn test_measure_deffn_length_double_newline_deffn() {
    let data = b"\n -- Function: foo (x)\n\n     Does foo.\n\n -- Function: bar (y)\n";
    let len = measure_deffn_length(data, 0);
    let text = std::str::from_utf8(data).unwrap();
    let expected: String = text.chars().take(len).collect();
    assert!(expected.contains("Does foo."));
    assert!(!expected.contains("bar"));
}

#[test]
fn test_measure_deffn_length_unit_separator() {
    let data = b"\n -- Function: foo (x)\n\n     Does foo.\n\n\x1fNext node";
    let len = measure_deffn_length(data, 0);
    let text = std::str::from_utf8(&data[..]).unwrap();
    let result: String = text.chars().take(len).collect();
    assert!(result.contains("Does foo."));
    assert!(!result.contains("Next node"));
}

#[test]
fn measure_deffn_length_stops_at_section_number() {
    let data = "é x\n1.2 Next".as_bytes();
    assert_eq!(measure_deffn_length(data, 0), 3);
    assert_eq!(measure_deffn_length(data, data.len()), 0);
}

#[test]
fn test_render_lisp_basic() {
    let index = InfoIndex {
        deffn_defvr_entries: vec![DeffnEntry {
            topic: "frotz".to_string(),
            filename: "test.info".to_string(),
            byte_offset: 100,
            char_length: 50,
            node_name: "Definitions".to_string(),
        }],
        section_entries: vec![SectionEntry {
            title: "Introduction".to_string(),
            filename: "test.info".to_string(),
            byte_offset: 200,
            char_length: 80,
        }],
    };

    let lisp = render_lisp(&index, None);
    assert!(lisp.contains("(in-package :cl-info)"));
    assert!(lisp.contains(r#"("frotz" . ("test.info" 100 50 "Definitions"))"#));
    assert!(lisp.contains(r#"("Introduction" . ("test.info" 200 80))"#));
    assert!(lisp.contains("(maxima::maxima-load-pathname-directory)"));
}

#[test]
fn test_render_lisp_with_install_path() {
    let index = InfoIndex { deffn_defvr_entries: vec![], section_entries: vec![] };
    let lisp = render_lisp(&index, Some("/usr/share/info/"));
    assert!(lisp.contains(r#"#p"/usr/share/info/""#));
}

#[test]
fn test_render_lisp_sorted() {
    let index = InfoIndex {
        deffn_defvr_entries: vec![
            DeffnEntry {
                topic: "zebra".to_string(),
                filename: "t.info".to_string(),
                byte_offset: 1,
                char_length: 1,
                node_name: "N".to_string(),
            },
            DeffnEntry {
                topic: "alpha".to_string(),
                filename: "t.info".to_string(),
                byte_offset: 2,
                char_length: 2,
                node_name: "N".to_string(),
            },
        ],
        section_entries: vec![],
    };
    let lisp = render_lisp(&index, None);
    let alpha_pos = lisp.find("\"alpha\"").unwrap();
    let zebra_pos = lisp.find("\"zebra\"").unwrap();
    assert!(alpha_pos < zebra_pos);
}

#[test]
fn render_lisp_exact_text() {
    let index = InfoIndex {
        deffn_defvr_entries: vec![DeffnEntry {
            topic: "a\"b".to_string(),
            filename: "f.info".to_string(),
            byte_offset: 0,
            char_length: 1234567,
            node_name: "N".to_string(),
        }],
        section_entries: vec![SectionEntry {
            title: "T".to_string(),
            filename: "f.info".to_string(),
            byte_offset: 9,
            char_length: 10,
        }],
    };
    let lisp = render_lisp(&index, None);
    let expected = "(in-package :cl-info)\n(let (\n(deffn-defvr-pairs '(\n; CONTENT: (<INDEX TOPIC> . (<FILENAME> <BYTE OFFSET> <LENGTH IN CHARACTERS> <NODE NAME>))\n(\"a\\\"b\" . (\"f.info\" 0 1234567 \"N\"))\n))\n(section-pairs '(\n; CONTENT: (<NODE NAME> . (<FILENAME> <BYTE OFFSET> <LENGTH IN CHARACTERS>))\n(\"T\" . (\"f.info\" 9 10))\n)))\n(load-info-hashtables (maxima::maxima-load-pathname-directory) deffn-defvr-pairs section-pairs))\n";
    assert_eq!(lisp, expected);
}

#[test]
fn newline_and_byte_search() {
    let data = b"ab\ncd\n";
    assert_eq!(find_newline(data, 0), 2);
    assert_eq!(find_newline(data, 3), 5);
    assert_eq!(find_newline(data, 6), 6);
    assert_eq!(memchr(b'c', data), Some(3));
    assert_eq!(memchr(b'z', data), None);
}

#[test]
fn seek_lines_skips_lines() {
    let data = b"l0\nl1\nl2\n";
    assert_eq!(seek_lines(data, 0, 2, None), 6);
    assert_eq!(seek_lines(data, 0, 5, Some(5)), 9);
    let v4 = b"x\n -- Function: f\ny\nz\n";
    assert_eq!(seek_lines(v4, 0, 2, Some(4)), 2);
    assert_eq!(seek_lines(b"a\nb\n", 0, 1, Some(4)), 3);
}

#[test]
fn byte_offsets_of_characters() {
    let data = "aé€".as_bytes();
    assert_eq!(char_to_byte_offsets(data), vec![0, 1, 3, 6]);
}

#[test]
fn sections_found_with_lengths() {
    let data = b"1.1 Intro\ntext\n\x1f\n2.3 More\nx";
    let mut entries = Vec::new();
    scan_sections(data, "f.info", &mut entries);
    assert_eq!(entries.len(), 2);
    assert_eq!(entries[0].title, "Intro");
    assert_eq!(entries[0].byte_offset, 0);
    assert_eq!(entries[0].char_length, 15);
    assert_eq!(entries[1].title, "More");
    assert_eq!(entries[1].byte_offset, 17);
    assert_eq!(entries[1].char_length, 10);
    assert_eq!(entries[1].filename, "f.info");
}

#[test]
fn makeinfo_version_is_read_from_the_header() {
    let v = detect_makeinfo_version(
        b"This is maxima.info, produced by makeinfo version 6.8 from maxima.texi.",
    );
    match v {
        Some(v) => {
            assert_eq!(v.major, 6);
            assert_eq!(v.minor, 8);
        }
        None => panic!("no version"),
    }
    assert!(detect_makeinfo_version(b"no version here").is_none());
}

#[test]
fn node_headers_are_recorded() {
    let data = b"header\n\x1f\nFile: foo.info,  Node: Top,  Next: Intro\n\ntext\n\x1f\nFile: foo.info,  Node: Intro,  Prev: Top\nmore\n";
    let mut nodes = NodeTable::new();
    let mut last = String::new();
    scan_nodes(data, "foo.info", &mut nodes, &mut last);
    assert_eq!(nodes.get("Top"), Some(("foo.info".to_string(), 6)));
    assert_eq!(nodes.get("Intro"), Some(("foo.info".to_string(), 55)));
    assert_eq!(nodes.get("Missing"), None);
    assert_eq!(last, "Intro");
}

#[test]
fn split_files_are_listed() {
    let data = b"Indirect:\nmaxima.info-1: 1234\nmaxima.info-2: 5678\nother-3: 9\nmaxima.info-x: 1\n";
    assert_eq!(
        find_split_files(data, "maxima.info"),
        vec!["maxima.info-1".to_string(), "maxima.info-2".to_string()]
    );
}

#[test]
fn index_menu_topics_are_parsed() {
    let data = "\x1f\nFile: m.info, Node: Function and Variable Index, Up: Top\n\n* Menu:\n\n* diff:   Differentiation.  (line 5)\n* abs:                 Functions for Numbers.\n                                                              (line 12)\n";
    let topics = parse_index_menu(data.as_bytes(), "function and variable index");
    assert_eq!(topics.len(), 2);
    assert_eq!(topics[0].0, "abs");
    assert_eq!(topics[0].1.node_name, "Functions for Numbers");
    assert_eq!(topics[0].1.line_offset, 12);
    assert_eq!(topics[1].0, "diff");
    assert_eq!(topics[1].1.node_name, "Differentiation");
    assert_eq!(topics[1].1.line_offset, 5);
    assert!(parse_index_menu(data.as_bytes(), "Concept Index").is_empty());
}

#[test]
fn test_detect_makeinfo_version() {
    let data = b"This is foo.info, produced by makeinfo version 5.2 from\nfoo.texi.\n";
    let v = detect_makeinfo_version(data).unwrap();
    assert_eq!(v.major, 5);
    assert_eq!(v.minor, 2);
}

#[test]
fn test_detect_makeinfo_version_7() {
    let data = b"This is bar.info, produced by makeinfo version 7.3 from\nbar.texi.\n";
    let v = detect_makeinfo_version(data).unwrap();
    assert_eq!(v.major, 7);
    assert_eq!(v.minor, 3);
}

#[test]
fn test_detect_makeinfo_version_none() {
    let data = b"no version info here\n";
    assert!(detect_makeinfo_version(data).is_none());
}

#[test]
fn test_find_split_files() {
    let data = b"Indirect:\nmaxima.info-1: 264\nmaxima.info-2: 1030881\n\x1f\n";
    let files = find_split_files(data, "maxima.info");
    assert_eq!(files, vec!["maxima.info-1", "maxima.info-2"]);
}

#[test]
fn test_find_split_files_none() {
    let data = b"This is foo.info, no split files\n\x1f\nFile: foo.info\n";
    let files = find_split_files(data, "foo.info");
    assert!(files.is_empty());
}

#[test]
fn test_scan_nodes() {
    let data = b"header stuff\n\n\x1f\nFile: test.info,  Node: Top,  Next: Foo\n\nTop content\n\n\x1f\nFile: test.info,  Node: Foo,  Prev: Top\n\nFoo content\n";
    let mut offsets = NodeTable::new();
    let mut last = String::new();
    scan_nodes(data, "test.info", &mut offsets, &mut last);

    assert_eq!(offsets.len(), 2);
    assert!(offsets.get("Top").is_some());
    assert!(offsets.get("Foo").is_some());
    assert_eq!(last, "Foo");

    let (top_file, top_offset) = offsets.get("Top").unwrap();
    assert_eq!(top_file, "test.info");
    assert_eq!(data[top_offset], b'\n');
}

#[test]
fn test_parse_index_menu() {
    let data = b"\x1f\nFile: test.info,  Node: Function and variable index,  Prev: Defs\n\nAppendix A\n\n [index ]\n* Menu:\n\n* frotz:                                 Definitions for MYTOPIC.\n                                                               (line  11)\n* transmogrify:                          Definitions for MYTOPIC.\n                                                                (line 6)\n\n";
    let topics = parse_index_menu(data, "Function and variable index");
    assert_eq!(topics.len(), 2);

    let frotz = &topics.iter().find(|(name, _)| name == "frotz").unwrap().1;
    assert_eq!(frotz.node_name, "Definitions for MYTOPIC");
    assert_eq!(frotz.line_offset, 11);

    let trans = &topics.iter().find(|(name, _)| name == "transmogrify").unwrap().1;
    assert_eq!(trans.node_name, "Definitions for MYTOPIC");
    assert_eq!(trans.line_offset, 6);
}

#[test]
fn header_versions_that_overflow_are_detected() {
    assert!(header_version_fits(b"produced by makeinfo version 6.8 from"));
    assert!(header_version_fits(b"no version"));
    assert!(header_version_fits(b"makeinfo version 4294967295.0"));
    assert!(!header_version_fits(b"makeinfo version 4294967296.0"));
    assert!(!header_version_fits(b"makeinfo version 1.99999999999999999999999"));
    assert!(!header_version_fits("makeinfo version \u{666}.8".as_bytes()));
    assert!(!header_version_fits("makeinfo version 6.\u{968}".as_bytes()));
    assert!(header_version_fits("makeinfo version \u{b2}.8 then makeinfo version 5.1".as_bytes()));
    let v = detect_makeinfo_version("makeinfo version \u{b2}.8 then makeinfo version 5.1".as_bytes()).unwrap();
    assert_eq!((v.major, v.minor), (5, 1));
}

#[test]
fn section_headings_past_the_text_are_detected() {
    assert!(sections_fit_check(b"1.1 Intro\ntext\n\x1f\n2.3 More\nx"));
    // Ten two-byte characters put the heading's byte count past the
    // number of characters in the text.
    let data = "\u{e9}\u{e9}\u{e9}\u{e9}\u{e9}\u{e9}\u{e9}\u{e9}\u{e9}\u{e9}\n1.1 T".as_bytes();
    assert!(!sections_fit_check(data));
    let short = "\u{e9}\u{e9}\u{e9}\n1.1 T".as_bytes();
    assert!(sections_fit_check(short));
}

#[test]
fn headings_and_split_parts_take_decimal_digits_of_any_script() {
    let data = "\u{661}.\u{662} Intro\nx\n\u{ff11}.1 Wide\n\u{b2}.1 Superscript\n1.a Letter\n".as_bytes();
    let mut entries = Vec::new();
    assert!(scan_sections_checked(data, "f.info", &mut entries));
    let titles: Vec<&str> = entries.iter().map(|e| e.title.as_str()).collect();
    assert_eq!(titles, vec!["Intro", "Wide"]);
    assert_eq!(entries[0].byte_offset, 0);
    let index = "maxima.info-\u{663}: \u{664}\nmaxima.info-\u{b3}: 1\n".as_bytes();
    assert_eq!(find_split_files(index, "maxima.info"), vec!["maxima.info-\u{663}".to_string()]);
}

#[test]
fn index_line_numbers_in_other_scripts_count_as_zero() {
    let data = "\x1f\nFile: m.info, Node: Index, Up: Top\n\n* Menu:\n\n* diff:   Differentiation.  (line \u{665})\n* abs:   Numbers.  (line 7)\n";
    let topics = parse_index_menu(data.as_bytes(), "Index");
    assert_eq!(topics.len(), 2);
    assert_eq!(topics[0].0, "abs");
    assert_eq!(topics[0].1.line_offset, 7);
    assert_eq!(topics[1].0, "diff");
    assert_eq!(topics[1].1.node_name, "Differentiation");
    assert_eq!(topics[1].1.line_offset, 0);
}

#[test]
fn checked_section_scan_leaves_entries_alone_when_refused() {
    let mut entries = Vec::new();
    assert!(scan_sections_checked(b"1.1 Intro\ntext\n", "f.info", &mut entries));
    assert_eq!(entries.len(), 1);
    assert_eq!(entries[0].title, "Intro");
    let bad = "\u{e9}\u{e9}\u{e9}\u{e9}\u{e9}\u{e9}\u{e9}\u{e9}\u{e9}\u{e9}\n1.1 T".as_bytes();
    assert!(!scan_sections_checked(bad, "g.info", &mut entries));
    assert_eq!(entries.len(), 1);
}
