use mxpm::doc_index::index::{extract_examples, extract_see_also, extract_summary, parse_markdown};
use mxpm::doc_index::{SymbolEntry, SymbolMap};

#[test]
fn parse_empty_document() {
    let idx = parse_markdown("", "pkg", "doc/pkg.md");
    assert_eq!(idx.version, 1);
    assert_eq!(idx.package, "pkg");
    assert!(idx.symbols.is_empty());
    assert!(idx.sections.is_empty());
}

#[test]
fn parse_section_only() {
    let md = "## Introduction\n\nSome text about the package.\n";
    let idx = parse_markdown(md, "pkg", "doc/pkg.md");
    assert_eq!(idx.sections.len(), 1);
    assert_eq!(idx.sections[0].title, "Introduction");
    assert!(idx.sections[0].body_md.contains("Some text"));
    assert!(idx.symbols.is_empty());
}

#[test]
fn parse_function_symbol() {
    let md = "### Function: hello (name)\n\nGreets the user by *name*.\n";
    let idx = parse_markdown(md, "pkg", "doc/pkg.md");
    assert_eq!(idx.symbols.len(), 1);
    let sym = idx.symbols.get("hello").unwrap();
    assert_eq!(sym.symbol_type, "Function");
    assert_eq!(sym.signature, "hello(name)");
    assert_eq!(sym.summary, "Greets the user by name.");
}

#[test]
fn parse_function_no_args() {
    let md = "### Function: version ()\n\nReturns the version.\n";
    let idx = parse_markdown(md, "pkg", "doc/pkg.md");
    let sym = idx.symbols.get("version").unwrap();
    assert_eq!(sym.signature, "version()");
}

#[test]
fn parse_variable_symbol() {
    let md = "### Variable: greeting\n\nDefault value: `\"hi\"`\n";
    let idx = parse_markdown(md, "pkg", "doc/pkg.md");
    assert_eq!(idx.symbols.len(), 1);
    let sym = idx.symbols.get("greeting").unwrap();
    assert_eq!(sym.symbol_type, "Variable");
    assert_eq!(sym.signature, "greeting");
    assert_eq!(sym.summary, "Default value: \"hi\"");
}

#[test]
fn symbols_sorted_alphabetically() {
    let md = "### Function: zebra ()\n\nZ.\n\n### Function: alpha ()\n\nA.\n";
    let idx = parse_markdown(md, "pkg", "doc/pkg.md");
    let keys = idx.symbols.keys();
    assert_eq!(keys, vec!["alpha", "zebra"]);
}

#[test]
fn hierarchical_sections() {
    let md = "\
# Core Docs

## Introduction

Some intro text.

## Calculus

## Differentiation

### Function: diff (expr, var)

Differentiates expr with respect to var.

## Integration

### Function: integrate (expr, var)

Integrates expr with respect to var.

## Programming

## Flow Control

### Function: if (cond, then, else)

Conditional expression.
";
    let idx = parse_markdown(md, "core", "doc/core.md");

    assert_eq!(idx.sections.len(), 3);
    assert_eq!(idx.sections[0].title, "Introduction");
    assert!(idx.sections[0].subsections.is_empty());

    assert_eq!(idx.sections[1].title, "Calculus");
    assert_eq!(idx.sections[1].subsections.len(), 2);
    assert_eq!(idx.sections[1].subsections[0].title, "Differentiation");
    assert_eq!(idx.sections[1].subsections[1].title, "Integration");

    assert_eq!(idx.sections[2].title, "Programming");
    assert_eq!(idx.sections[2].subsections.len(), 1);
    assert_eq!(idx.sections[2].subsections[0].title, "Flow Control");

    assert_eq!(
        idx.symbols.get("diff").unwrap().section.as_deref(),
        Some("Differentiation")
    );
    assert_eq!(
        idx.symbols.get("integrate").unwrap().section.as_deref(),
        Some("Integration")
    );
    assert_eq!(idx.symbols.get("if").unwrap().section.as_deref(), Some("Flow Control"));
}

#[test]
fn symbols_are_filed_under_the_section_above_their_last_heading() {
    let md = "### Variable: early\n\nBefore any section.\n\n## First\n\n### Function: f (x)\n\nOne.\n\n## Second\n\n### Variable: v\n\nVee.\n\n### Function: f (y)\n\nTwo.\n";
    let idx = parse_markdown(md, "p", "doc/p.md");
    assert_eq!(idx.symbols.len(), 3);
    assert_eq!(idx.symbols.get("early").unwrap().section, None);
    assert_eq!(idx.symbols.get("v").unwrap().section.as_deref(), Some("Second"));
    let f = idx.symbols.get("f").unwrap();
    assert_eq!(f.section.as_deref(), Some("Second"));
    assert_eq!(f.signature, "f(y)");
    assert_eq!(f.summary, "Two.");
    assert!(idx.symbols.get("First").is_none());
}

#[test]
fn a_blank_section_before_a_definition_is_not_a_parent() {
    let md = "## Intro\n\nText.\n\n## Group\n\n## A\n\n### Function: f (x)\n\nF.\n\n## B\n\nb text\n";
    let idx = parse_markdown(md, "p", "doc/p.md");
    assert_eq!(idx.sections.len(), 2);
    assert_eq!(idx.sections[0].title, "Intro");
    assert_eq!(idx.sections[0].body_md, "Text.");
    assert!(idx.sections[0].subsections.is_empty());
    assert_eq!(idx.sections[1].title, "Group");
    assert_eq!(idx.sections[1].subsections.len(), 2);
    assert_eq!(idx.sections[1].subsections[0].title, "A");
    assert_eq!(idx.sections[1].subsections[0].body_md, "");
    assert_eq!(idx.sections[1].subsections[1].title, "B");
    assert_eq!(idx.sections[1].subsections[1].body_md, "b text");
}

#[test]
fn slim_strips_body_and_examples() {
    let md = "## Intro\n\nHello.\n\n### Function: foo (x)\n\nDoes foo in detail.\n\n```maxima\n(%i1) foo(1);\n(%o1) 42\n```\n\nSee also: `bar`.\n";
    let idx = parse_markdown(md, "test", "doc/test.md");
    let slim = idx.slim();

    assert_eq!(slim.symbols.len(), 1);
    let sym = slim.symbols.get("foo").unwrap();
    assert_eq!(sym.signature, "foo(x)");
    assert_eq!(sym.summary, "Does foo in detail.");
    assert!(sym.body_md.is_empty());
    assert!(sym.examples.is_empty());
    assert!(sym.see_also.is_empty());
    assert!(slim.sections.is_empty());
}

#[test]
fn metadata_comments_parsed() {
    let md = "\
<!-- category: Calculus -->
<!-- keywords: derivative, differentiation -->
<!-- signatures: diff(expr, var), diff(expr, var, n) -->
### Function: diff (expr, var)

Computes the derivative.
";
    let idx = parse_markdown(md, "test", "doc/test.md");
    let sym = idx.symbols.get("diff").unwrap();
    assert_eq!(sym.category.as_deref(), Some("Calculus"));
    assert_eq!(sym.keywords, vec!["derivative", "differentiation"]);
    assert_eq!(sym.signatures, vec!["diff(expr, var)", "diff(expr, var, n)"]);
}

#[test]
fn slim_preserves_keywords_and_signatures() {
    let md = "\
<!-- keywords: kw1 -->
<!-- signatures: foo(x), foo(x, y) -->
### Function: foo (x)

Does foo.
";
    let idx = parse_markdown(md, "test", "doc/test.md");
    let slim = idx.slim();
    let sym = slim.symbols.get("foo").unwrap();
    assert_eq!(sym.keywords, vec!["kw1"]);
    assert_eq!(sym.signatures, vec!["foo(x)", "foo(x, y)"]);
}

#[test]
fn summary_first_paragraph() {
    let body = "First line of summary.\nStill first paragraph.\n\nSecond paragraph.\n";
    let summary = extract_summary(body);
    assert_eq!(summary, "First line of summary. Still first paragraph.");
}

#[test]
fn examples_with_io_markers() {
    let body = "Some text.\n\n```maxima\n(%i1) solve(x^2 - 1, x);\n(%o1)                      [x = -1, x = 1]\n```\n";
    let examples = extract_examples(body);
    assert_eq!(examples.len(), 1);
    assert_eq!(examples[0].input, "solve(x^2 - 1, x);");
    assert_eq!(examples[0].output, "[x = -1, x = 1]");
}

#[test]
fn io_markers_take_decimal_digits_of_any_script() {
    let body = "```maxima\n(%i\u{967}) 2+2;\n(%o\u{967}) 4\n(%ia) 5;\n```\n";
    let examples = extract_examples(body);
    assert_eq!(examples.len(), 1);
    assert_eq!(examples[0].input, "2+2;");
    assert_eq!(examples[0].output, "4\n(%ia) 5;");
}

#[test]
fn examples_without_markers() {
    let body = "Some text.\n\n```maxima\nmy_func(x, y)$\n```\n";
    let examples = extract_examples(body);
    assert_eq!(examples.len(), 1);
    assert_eq!(examples[0].input, "my_func(x, y)$");
    assert!(examples[0].output.is_empty());
}

#[test]
fn examples_multiple_io_pairs() {
    let body = "```maxima\n(%i1) 2+2;\n(%o1) 4\n(%i2) 3*3;\n(%o2) 9\n```\n";
    let examples = extract_examples(body);
    assert_eq!(examples.len(), 2);
    assert_eq!(examples[0].input, "2+2;");
    assert_eq!(examples[0].output, "4");
    assert_eq!(examples[1].input, "3*3;");
    assert_eq!(examples[1].output, "9");
}

#[test]
fn see_also_basic() {
    let body = "Some text.\n\nSee also: `foo`, `bar`.\n";
    let refs = extract_see_also(body);
    assert_eq!(refs, vec!["foo", "bar"]);
}

#[test]
fn see_also_cross_package() {
    let body = "Some text.\n\nSee also: `diophantine:dio_solve`.\n";
    let refs = extract_see_also(body);
    assert_eq!(refs, vec!["diophantine:dio_solve"]);
}

#[test]
fn see_also_none() {
    let body = "Just some text with no see-also line.\n";
    let refs = extract_see_also(body);
    assert!(refs.is_empty());
}

const TESTPKG_MD: &str = "\
# testpkg

## Introduction to testpkg

This package greets people.

## Definitions for testpkg

### Function: hello (name)

Returns a greeting for *name*.

```maxima
(%i1) hello(\"World\");
(%o1)                            Hello, World!
```

See also: `greeting`.

### Variable: greeting

Default value: `\"Hello\"`

The greeting used by `hello`.
";

const RICHPKG_MD: &str = "\
# richpkg

## Introduction

richpkg provides a rich solver.

## Tutorial

Load the package first:

```maxima
load(\"richpkg\")$
```

## Definitions for richpkg

### Function: rich_solve (expr, vars)

Solves *expr* for *vars* using the rich method.

```maxima
(%i1) rich_solve(x^2 - 1, x);
(%o1)                      [x = -1, x = 1]
(%i2) rich_solve(x + 1, x);
(%o2)                      [x = -1]
```

See also: `rich_opts`, `rich_verbose`.

### Function: rich_opts ()

Returns the options of the rich method.

```maxima
(%i1) rich_opts();
(%o1)                      [method = rich]
```

### Variable: rich_verbose

When true, prints extra diagnostics during solving.

Default value: `false`

See also: `rich_solve`.
";

#[test]
fn parse_testpkg_fixture() {
    let content = TESTPKG_MD;
    let idx = parse_markdown(content, "testpkg", "doc/testpkg.md");

    assert_eq!(idx.package, "testpkg");
    assert_eq!(idx.version, 1);

    assert_eq!(idx.sections.len(), 2);
    assert_eq!(idx.sections[0].title, "Introduction to testpkg");
    assert_eq!(idx.sections[1].title, "Definitions for testpkg");
    assert!(idx.sections[0].subsections.is_empty());
    assert!(idx.sections[1].subsections.is_empty());

    assert_eq!(idx.symbols.len(), 2);

    let hello = idx.symbols.get("hello").unwrap();
    assert_eq!(hello.symbol_type, "Function");
    assert_eq!(hello.signature, "hello(name)");
    assert_eq!(hello.summary, "Returns a greeting for name.");
    assert_eq!(hello.section.as_deref(), Some("Definitions for testpkg"));

    let greeting = idx.symbols.get("greeting").unwrap();
    assert_eq!(greeting.symbol_type, "Variable");
    assert_eq!(greeting.signature, "greeting");
    assert_eq!(greeting.section.as_deref(), Some("Definitions for testpkg"));
}

#[test]
fn parse_richpkg_fixture() {
    let content = RICHPKG_MD;
    let idx = parse_markdown(content, "richpkg", "doc/richpkg.md");

    assert_eq!(idx.sections.len(), 3);
    assert_eq!(idx.sections[0].title, "Introduction");
    assert_eq!(idx.sections[1].title, "Tutorial");

    assert_eq!(idx.symbols.len(), 3);
    let keys = idx.symbols.keys();
    assert_eq!(keys, vec!["rich_opts", "rich_solve", "rich_verbose"]);

    let solve = idx.symbols.get("rich_solve").unwrap();
    assert_eq!(solve.symbol_type, "Function");
    assert_eq!(solve.signature, "rich_solve(expr, vars)");
    assert_eq!(solve.summary, "Solves expr for vars using the rich method.");
    assert_eq!(solve.examples.len(), 2);
    assert_eq!(solve.examples[0].input, "rich_solve(x^2 - 1, x);");
    assert!(solve.examples[0].output.contains("[x = -1, x = 1]"));
    assert_eq!(solve.see_also, vec!["rich_opts", "rich_verbose"]);
    assert_eq!(solve.section.as_deref(), Some("Definitions for richpkg"));

    let opts = idx.symbols.get("rich_opts").unwrap();
    assert_eq!(opts.symbol_type, "Function");
    assert_eq!(opts.examples.len(), 1);
    assert!(opts.see_also.is_empty());

    let verbose = idx.symbols.get("rich_verbose").unwrap();
    assert_eq!(verbose.symbol_type, "Variable");
    assert_eq!(
        verbose.summary,
        "When true, prints extra diagnostics during solving."
    );
    assert_eq!(verbose.see_also, vec!["rich_solve"]);
}

#[test]
fn symbol_map_insert_then_get() {
    let entry = |summary: &str| -> SymbolEntry {
        SymbolEntry {
            symbol_type: "Function".to_string(),
            signature: "f()".to_string(),
            summary: summary.to_string(),
            body_md: String::new(),
            examples: Vec::new(),
            see_also: Vec::new(),
            category: None,
            section: None,
            keywords: Vec::new(),
            signatures: Vec::new(),
        }
    };
    let mut m = SymbolMap::new();
    m.insert("b".to_string(), entry("first"));
    m.insert("a".to_string(), entry("other"));
    m.insert("b".to_string(), entry("second"));
    assert_eq!(m.len(), 2);
    assert_eq!(m.keys(), vec!["a", "b"]);
    assert_eq!(m.get("b").unwrap().summary, "second");
    assert_eq!(m.get("a").unwrap().summary, "other");
    assert!(m.get("c").is_none());
}

#[test]
fn slim_twice_is_slim_once() {
    let md = "### Function: foo (x)\n\nDoes foo.\n\nSee also: `bar`.\n";
    let idx = parse_markdown(md, "test", "doc/test.md");
    let once = idx.slim();
    let twice = once.slim();
    assert_eq!(once.symbols.keys(), twice.symbols.keys());
    let a = once.symbols.get("foo").unwrap();
    let b = twice.symbols.get("foo").unwrap();
    assert_eq!(a.summary, b.summary);
    assert_eq!(a.signature, b.signature);
    assert!(b.see_also.is_empty() && b.body_md.is_empty());
}
