use mxpm::core_docs::emit::{
    category_for, contains_any, core_docs_manifest, emit_symbols, extract_heading_args, is_definition_type,
    main_doc_content, map_category, slugify, ExtractedSymbol,
};
use mxpm::core_docs::markdown::{clean_texinfo_markup, convert_raw_texinfo, replace_texinfo_entities};
use mxpm::core_docs::xml::{
    clean_chapter_name, configure_version, decode_texinfo_label, extract_category, parse_repl_examples,
    strip_repl_marker, texi_in_content,
};

#[test]
fn test_category_mapping() {
    assert_eq!(map_category("Differential calculus"), "Calculus");
    assert_eq!(map_category("Integration"), "Calculus");
    assert_eq!(map_category("Matrices and Linear Algebra"), "LinearAlgebra");
    assert_eq!(map_category("Simplification"), "Simplification");
    assert_eq!(map_category("Plotting"), "Plotting");
    assert_eq!(map_category("Number Theory"), "NumberTheory");
    assert_eq!(map_category("Function"), "Other");
    assert_eq!(map_category("Option variable"), "Other");
    assert_eq!(map_category("Something unknown"), "Other");
}

#[test]
fn test_category_mapping_section_titles() {
    assert_eq!(map_category("Functions and Variables for Integration"), "Calculus");
    assert_eq!(map_category("Functions and Variables for Plotting"), "Plotting");
    assert_eq!(
        map_category("Functions and Variables for Matrices and Linear Algebra"),
        "LinearAlgebra"
    );
    assert_eq!(map_category("Introduction to Simplification"), "Simplification");
    assert_eq!(
        map_category("Functions and Variables for Function Definition"),
        "Programming"
    );
    assert_eq!(
        map_category("Functions and Variables for Special Functions"),
        "SpecialFunctions"
    );
    assert_eq!(map_category("Functions and Variables for ctensor"), "Tensors");
    assert_eq!(map_category("Functions and Variables for distrib"), "Statistics");
    assert_eq!(map_category("Functions and Variables for lapack"), "Numerical");
}

#[test]
fn test_is_definition_type() {
    assert!(is_definition_type("function"));
    assert!(is_definition_type("option variable"));
    assert!(!is_definition_type("differential calculus"));
    assert!(!is_definition_type("matrices"));
}

#[test]
fn category_for_takes_lowercase_topics() {
    assert_eq!(category_for("linear algebra"), "LinearAlgebra");
    assert_eq!(category_for("symmetries"), "Algebra");
    assert_eq!(category_for("linear symmetries"), "Other");
    assert_eq!(category_for("units"), "Other");
    assert_eq!(category_for("Integration"), "Other");
}

#[test]
fn contains_any_pattern() {
    assert!(contains_any("differential calculus", &["calcul", "zzz"]));
    assert!(!contains_any("matrices", &["calcul"]));
    assert!(!contains_any("anything", &[]));
}

#[test]
fn heading_args_forms() {
    assert_eq!(extract_heading_args("diff(expr, x)", "diff").as_deref(), Some("expr, x"));
    assert_eq!(extract_heading_args("absolute_real_time()", "absolute_real_time").as_deref(), Some(""));
    assert_eq!(
        extract_heading_args("%f[p, q]([a],[b],z)", "%f").as_deref(),
        Some("[p, q]([a],[b],z)")
    );
    assert_eq!(extract_heading_args("+", "+"), None);
    assert_eq!(extract_heading_args("other(x)", "diff").as_deref(), Some("x"));
    assert_eq!(extract_heading_args("foo(x)", "bar").as_deref(), Some("x"));
    assert_eq!(extract_heading_args("a . b", "dot"), None);
    assert_eq!(extract_heading_args("m [i, j]", "matrix").as_deref(), Some("[i, j]"));
}

#[test]
fn every_category_is_one_of_thirteen() {
    assert_eq!(category_for("trigonometric functions"), "SpecialFunctions");
    assert_eq!(category_for("to_poly_solve"), "Algebra");
    assert_eq!(category_for("polynomials"), "Algebra");
    assert_eq!(category_for("taylor series"), "Calculus");
    assert_eq!(category_for("permutations"), "Algebra");
    assert_eq!(category_for("ezunits"), "Other");
    let top = [
        "LinearAlgebra", "Calculus", "Simplification", "Algebra", "Plotting", "NumberTheory",
        "SpecialFunctions", "IO", "Tensors", "Programming", "Statistics", "Numerical", "Other",
    ];
    for t in ["matrices", "hyperbolic", "laplace", "rational", "equations", "draw", "primes", "grobner",
        "fourier", "sets", "bessel", "file output", "ctensor", "debugging", "symmetries", "distrib",
        "lapack", "physical_constant", "crypto", "zzz"] {
        assert!(top.contains(&category_for(t).as_str()), "{t}");
    }
}

#[test]
fn slugify_collapses_separators() {
    assert_eq!(slugify("Linear Algebra"), "linear-algebra");
    assert_eq!(slugify("  --Hello,  World!-- "), "hello-world");
    assert_eq!(slugify("***"), "");
}

fn symbol(name: &str, ty: &str, sigs: Vec<&str>) -> ExtractedSymbol {
    ExtractedSymbol {
        name: name.to_string(),
        symbol_type: ty.to_string(),
        signatures: sigs.into_iter().map(String::from).collect(),
        body_md: "Body.".to_string(),
        examples: Vec::new(),
        see_also: vec!["other".to_string()],
        category: "Calculus".to_string(),
        chapter: String::new(),
        keywords: vec!["k1".to_string(), "k2".to_string()],
    }
}

#[test]
fn emit_symbols_writes_metadata_and_headings() {
    let f = symbol("diff", "Function", vec!["diff(expr, x)", "diff(expr)"]);
    let v = symbol("var1", "Variable", vec![]);
    let mut content = String::from("## Calculus\n\n");
    emit_symbols(&mut content, &[&f, &v]);
    let expected = "## Calculus\n\n\
<!-- category: Calculus -->\n\
<!-- keywords: k1, k2 -->\n\
<!-- signatures: diff(expr, x), diff(expr) -->\n\
### Function: diff (expr, x)\n\n\
Body.\n\n\
See also: `other`.\n\n\
<!-- category: Calculus -->\n\
<!-- keywords: k1, k2 -->\n\
### Variable: var1\n\n\
Body.\n\n\
See also: `other`.\n\n";
    assert_eq!(content, expected);
}

#[test]
fn main_doc_lists_includes() {
    let groups = vec![(
        "Calculus".to_string(),
        vec!["calculus.md".to_string(), "calculus-2.md".to_string()],
    )];
    let doc = main_doc_content(&groups);
    assert!(doc.starts_with("# Maxima Core Documentation\n\n## Introduction\n\n"));
    assert!(doc.ends_with(
        "## Calculus\n\n<!-- include: calculus.md -->\n<!-- include: calculus-2.md -->\n\n"
    ));
}

#[test]
fn test_entity_replacement() {
    let xml = "&arobase;foo &lbrace;bar&rbrace; &dots; &rarr;";
    let result = replace_texinfo_entities(xml);
    assert_eq!(result, "@foo {bar} ... ->");
}

#[test]
fn test_clean_texinfo_markup() {
    assert_eq!(clean_texinfo_markup("@code{foo}"), "foo");
    assert_eq!(clean_texinfo_markup("@var{x}"), "x");
    assert_eq!(clean_texinfo_markup("@@"), "@");
    assert_eq!(clean_texinfo_markup("@math{x^2} and @code{bar}"), "x^2 and bar");
}

#[test]
fn clean_texinfo_markup_nested() {
    assert_eq!(clean_texinfo_markup("@code{@var{x}}"), "x");
    assert_eq!(clean_texinfo_markup("@b{@i{y}}"), "y");
    assert_eq!(clean_texinfo_markup("@strong{a} @emph{b}"), "a b");
}

#[test]
fn test_convert_raw_texinfo_figure() {
    let mut out = String::new();
    convert_raw_texinfo("(Figure plotting1: A nice plot)", &mut out);
    assert_eq!(out, "![A nice plot](figures/plotting1.png)");
}

#[test]
fn test_convert_raw_texinfo_math() {
    let mut out = String::new();
    convert_raw_texinfo("@math{x^2 + y^2}", &mut out);
    assert_eq!(out, "$x^2 + y^2$");
}

#[test]
fn convert_raw_texinfo_display_math() {
    let mut out = String::from(">");
    convert_raw_texinfo("@displaymath  a = b  @end displaymath", &mut out);
    assert_eq!(out, ">\n$$a = b$$\n");
}

#[test]
fn test_parse_repl_examples() {
    let text = "(%i1) diff(x^3, x);\n(%o1)                           3 x^2\n(%i2) integrate(x, x);\n(%o2)                           x^2/2\n";
    let examples = parse_repl_examples(text);
    assert_eq!(examples.len(), 2);
    assert_eq!(examples[0].0, "diff(x^3, x);");
    assert_eq!(examples[0].1, "3 x^2");
    assert_eq!(examples[1].0, "integrate(x, x);");
    assert_eq!(examples[1].1, "x^2/2");
}

#[test]
fn test_strip_repl_marker() {
    assert_eq!(strip_repl_marker("(%i1) foo;", "%i").as_deref(), Some("foo;"));
    assert_eq!(strip_repl_marker("(%o1)  bar", "%o").as_deref(), Some("bar"));
    assert_eq!(strip_repl_marker("no marker", "%i"), None);
}

#[test]
fn test_decode_texinfo_label() {
    assert_eq!(decode_texinfo_label("zn_005fprimroot"), "zn_primroot");
    assert_eq!(decode_texinfo_label("_0025_0025"), "%%");
    assert_eq!(decode_texinfo_label("simple"), "simple");
    assert_eq!(decode_texinfo_label("_003d"), "=");
}

#[test]
fn decode_texinfo_label_keeps_bad_codes() {
    assert_eq!(decode_texinfo_label("a_zz"), "a_zz");
    assert_eq!(decode_texinfo_label("_d800x"), "_d800x");
}

#[test]
fn chapter_names_and_categories() {
    assert_eq!(clean_chapter_name("Functions and Variables for Plotting"), "Plotting");
    assert_eq!(clean_chapter_name("Package draw"), "draw");
    assert_eq!(clean_chapter_name("Strings"), "Strings");
    assert_eq!(extract_category("Plotting", "Functions and Variables for lapack"), "Numerical");
    assert_eq!(extract_category("Plotting", "Something unknown"), "Plotting");
    assert_eq!(extract_category("Integration", ""), "Calculus");
}

#[test]
fn configure_version_reads_ac_init() {
    assert_eq!(
        configure_version("dnl header\nAC_INIT([maxima], [5.48.1], [bugs@x])\nAC_INIT([x], [9])\n"),
        "5.48.1"
    );
    assert_eq!(configure_version("no init here\n"), "5.47.0");
}

#[test]
fn texi_templates_are_filled_in() {
    let t = "@set VERSION @manual_version@\n@include @abs_srcdir@/a.texi\n@manual_version@@abs_srcdir@";
    assert_eq!(
        texi_in_content(t, "5.47.0", "/w"),
        "@set VERSION 5.47.0\n@include /w/a.texi\n5.47.0/w"
    );
    assert_eq!(texi_in_content("no placeholders", "1", "/x"), "no placeholders");
}

#[test]
fn core_docs_manifest_names_the_version() {
    let m = core_docs_manifest("5.48.1");
    assert!(m.starts_with("[package]\nname = \"maxima-core-docs\"\nversion = \"5.48.1\"\n"));
    assert!(m.contains("entry = \"maxima_core_docs.mac\"\n"));
    assert!(m.ends_with("keywords = [\"documentation\", \"core\", \"reference\"]\n"));
}

#[test]
fn category_mapping_ignores_ascii_case() {
    assert_eq!(map_category("MATRICES"), map_category("matrices"));
    assert_eq!(map_category("Functions and Variables for PLOTTING"), "Plotting");
    assert_eq!(map_category("NUMBER theory"), "NumberTheory");
}
