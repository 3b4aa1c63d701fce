use mxpm::core_docs::defs::{parse_xml, CoreDocsError};
use mxpm::core_docs::emit::ExtractedSymbol;
use mxpm::core_docs::files::markdown_files;

fn doc(body: &str) -> String {
    format!("<?xml version=\"1.0\"?>\n<texinfo>{}</texinfo>", body)
}

fn item_body(inner: &str) -> String {
    let xml = doc(&format!(
        "<chapter><sectiontitle>Misc</sectiontitle><deffn><definitionterm><deffunction>f</deffunction></definitionterm><definitionitem>{}</definitionitem></deffn></chapter>",
        inner
    ));
    let syms = match parse_xml(&xml) {
        Ok(s) => s,
        Err(_) => panic!("parse failed"),
    };
    assert_eq!(syms.len(), 1);
    syms[0].body_md.clone()
}

#[test]
fn xml_symbols_are_extracted_deduplicated_and_sorted() {
    let xml = doc("<chapter><sectiontitle>Functions and Variables for Polynomials</sectiontitle><deffn><definitionterm><indexterm index=\"fn\">expand</indexterm><defcategory>Function</defcategory> <deffunction>expand</deffunction> <defdelimiter>(</defdelimiter><var>expr</var><defdelimiter>)</defdelimiter></definitionterm><definitionitem><para>Expands <var>expr</var> fully&dots; See <xref label=\"ratexpand\">ratexpand</xref>.</para><example>(%i1) expand((x+1)^2);\n(%o1) x^2+2*x+1\n</example></definitionitem></deffn><deffn><definitionterm><deffunction>Alpha</deffunction></definitionterm></deffn><deffn><definitionterm><deffunction>expand</deffunction></definitionterm></deffn></chapter>");
    let syms = match parse_xml(&xml) {
        Ok(s) => s,
        Err(_) => panic!("parse failed"),
    };
    assert_eq!(syms.len(), 2);
    assert_eq!(syms[0].name, "Alpha");
    assert_eq!(syms[0].signatures, vec!["Alpha".to_string()]);
    assert_eq!(syms[0].body_md, "");
    let e = &syms[1];
    assert_eq!(e.name, "expand");
    assert_eq!(e.symbol_type, "Function");
    assert_eq!(e.signatures, vec!["expand(expr)".to_string()]);
    assert_eq!(
        e.body_md,
        "Expands *expr* fully... See `ratexpand`.\n\n```maxima\n(%i1) expand((x+1)^2);\n(%o1) x^2+2*x+1\n```"
    );
    assert_eq!(
        e.examples,
        vec![("expand((x+1)^2);".to_string(), "x^2+2*x+1".to_string())]
    );
    assert_eq!(e.see_also, vec!["ratexpand".to_string()]);
    assert_eq!(e.keywords, vec!["expand".to_string()]);
    assert_eq!(e.category, "Algebra");
    assert_eq!(e.chapter, "Polynomials");
}

#[test]
fn xml_section_titles_give_categories_and_variables() {
    let xml = doc("<chapter><sectiontitle>Functions and Variables for Plotting</sectiontitle><section><sectiontitle>Integration</sectiontitle><defvr><definitionterm><defvariable>ratprint</defvariable></definitionterm><definitionitem><para>Default: <code>true</code></para></definitionitem></defvr></section></chapter>");
    let syms = match parse_xml(&xml) {
        Ok(s) => s,
        Err(_) => panic!("parse failed"),
    };
    assert_eq!(syms.len(), 1);
    assert_eq!(syms[0].symbol_type, "Variable");
    assert_eq!(syms[0].signatures, vec!["ratprint".to_string()]);
    assert_eq!(syms[0].category, "Calculus");
    assert_eq!(syms[0].chapter, "Plotting");
    assert_eq!(syms[0].body_md, "Default: `true`");
}

#[test]
fn xml_signature_variants_are_split() {
    let xml = doc("<deffn><definitionterm><deffunction>diff</deffunction> <defdelimiter>(</defdelimiter><var>e</var><defdelimiter>,</defdelimiter> <var>x</var><defdelimiter>)</defdelimiter><defparam></defparam><defparam>diff</defparam> <defdelimiter>(</defdelimiter><var>e</var><defdelimiter>)</defdelimiter></definitionterm></deffn>");
    let syms = match parse_xml(&xml) {
        Ok(s) => s,
        Err(_) => panic!("parse failed"),
    };
    assert_eq!(syms.len(), 1);
    assert_eq!(
        syms[0].signatures,
        vec!["diff(e, x)".to_string(), "diff(e)".to_string()]
    );
}

#[test]
fn xml_parse_error_is_reported() {
    match parse_xml("<a><b></a>") {
        Err(CoreDocsError::MakeinfoFailed { message }) => {
            assert!(message.starts_with("XML parse error: "));
        }
        Ok(_) => panic!("malformed XML was accepted"),
    }
}

#[test]
fn xml_itemize_becomes_a_list() {
    assert_eq!(
        item_body("<itemize><listitem><para>one</para></listitem><listitem><para>two</para></listitem></itemize>"),
        "- one\n- two"
    );
}

#[test]
fn xml_enumerate_is_numbered() {
    assert_eq!(
        item_body("<enumerate><listitem>first</listitem><listitem>second</listitem></enumerate>"),
        "1. first\n2. second"
    );
}

#[test]
fn xml_table_is_a_definition_list() {
    assert_eq!(
        item_body("<table><tableentry><tableterm><code>x</code></tableterm><tableitem><para>The x.</para></tableitem></tableentry></table>"),
        "**`x`** — The x."
    );
}

#[test]
fn xml_multitable_is_padded() {
    assert_eq!(
        item_body("<multitable><thead><row><entry>A</entry><entry>B</entry></row></thead><tbody><row><entry>1</entry></row></tbody></multitable>"),
        "| A | B |\n| --- | --- |\n| 1 |  |"
    );
}

#[test]
fn xml_inline_markup() {
    assert_eq!(
        item_body("<para>Use <code> f(x) </code>, <sc>abc</sc>, <math>x^2</math> and <uref url=\"http://e.com\">site</uref> or <url url=\"http://a.b\">http://a.b</url>.</para>"),
        "Use `f(x)`, ABC, $x^2$ and [site](http://e.com) or http://a.b."
    );
}

#[test]
fn xml_quotation_lines_are_quoted() {
    assert_eq!(
        item_body("<quotation><para>Line one</para><para>Line two</para></quotation>"),
        "> Line one\n> \n> Line two"
    );
}

#[test]
fn xml_image_links_png() {
    assert_eq!(
        item_body("<image><imagefile>figures/plot</imagefile></image>"),
        "![figures/plot](figures/plot.png)"
    );
}

fn sym(name: &str, category: &str, chapter: &str) -> ExtractedSymbol {
    ExtractedSymbol {
        name: name.to_string(),
        symbol_type: "Variable".to_string(),
        signatures: Vec::new(),
        body_md: String::new(),
        examples: Vec::new(),
        see_also: Vec::new(),
        category: category.to_string(),
        chapter: chapter.to_string(),
        keywords: Vec::new(),
    }
}

#[test]
fn markdown_files_group_by_category_and_chapter() {
    let syms = vec![
        sym("a", "Calculus", "Integration"),
        sym("b", "Calculus", "Differentiation"),
        sym("c", "Plotting", "Plotting"),
        sym("d", "Calculus", "Integration"),
    ];
    let plan = markdown_files(&syms);
    assert_eq!(plan.len(), 2);
    assert_eq!(plan[0].0, "Calculus");
    let files = &plan[0].1;
    assert_eq!(files.len(), 2);
    assert_eq!(files[0].filename, "calculus-differentiation.md");
    assert!(files[0].content.starts_with("## Differentiation\n\n"));
    assert_eq!(files[0].symbols, 1);
    assert_eq!(files[1].filename, "calculus-integration.md");
    assert_eq!(files[1].symbols, 2);
    assert_eq!(plan[1].0, "Plotting");
    assert_eq!(plan[1].1.len(), 1);
    assert_eq!(plan[1].1[0].filename, "plotting.md");
    assert!(plan[1].1[0].content.starts_with("## Plotting\n\n<!-- category: Plotting -->\n"));
}

#[test]
fn markdown_files_number_clashing_names() {
    let syms = vec![sym("a", "X", "A b"), sym("b", "X", "a-b")];
    let plan = markdown_files(&syms);
    assert_eq!(plan.len(), 1);
    assert_eq!(plan[0].1[0].filename, "x-a-b.md");
    assert_eq!(plan[0].1[1].filename, "x-a-b-2.md");
}

#[test]
fn markdown_file_groups_come_once_each_in_order() {
    let syms = vec![
        sym("x", "Plotting", ""),
        sym("y", "Calculus", "Limits"),
        sym("z", "Plotting", ""),
        sym("w", "Algebra", ""),
        sym("v", "Calculus", "Derivatives"),
    ];
    let plan = markdown_files(&syms);
    let cats: Vec<&str> = plan.iter().map(|(c, _)| c.as_str()).collect();
    assert_eq!(cats, vec!["Algebra", "Calculus", "Plotting"]);
    let counts: Vec<usize> = plan.iter().map(|(_, fs)| fs.iter().map(|f| f.symbols).sum()).collect();
    assert_eq!(counts, vec![1, 2, 2]);
}
