use mxpm::doc::html::{image_data_url, image_urls, is_kept_url, mime_from_extension, render_html};
use mxpm::doc::includes::{expand_includes, parse_includes};
use mxpm::doc::mdbook::{
    book_sections, extract_chapter_title, heading_pages, included_page, promote_first_heading,
    render_mdbook_content, render_mdbook_line, section_page,
};
use mxpm::doc::texi::{postprocess_texi_content, setfilename};

#[test]
fn texi_function_and_variable_blocks() {
    let input = "\\input texinfo\n@node Top\n@subsection Function: hello (name, greeting)\nSays hello.\n@subsection Variable: greeting\nThe greeting.\n@node Next\n@bye";
    let out = postprocess_texi_content(input, "pkg");
    let expected = "\\input texinfo\n@setfilename pkg.info\n@node Top\n@deffn {Function} hello (@var{name}, @var{greeting})\nSays hello.\n@end deffn\n\n@defvr {Variable} greeting\nThe greeting.\n@end defvr\n\n@node Next\n\n@node Function and variable index\n@appendix Function and variable index\n@printindex fn\n@printindex vr\n\n@bye";
    assert_eq!(out, expected);
}

#[test]
fn texi_keeps_existing_setfilename_and_index() {
    let input = "\\input texinfo\n@setfilename x.info\n@subsection Function: f ()\n@printindex fn\n@bye";
    let out = postprocess_texi_content(input, "pkg");
    assert_eq!(
        out,
        "\\input texinfo\n@setfilename x.info\n@deffn {Function} f ()\n@printindex fn\n@bye\n@end deffn"
    );
}

#[test]
fn texi_variable_closed_before_bye() {
    let input = "@subsection Variable: v\ntext\n@bye";
    let out = postprocess_texi_content(input, "s");
    assert!(out.contains("@defvr {Variable} v\ntext\n@end defvr\n\n"));
}

#[test]
fn mdbook_lines_rendered() {
    assert_eq!(render_mdbook_line("### Function: f (x, y)"), "---\n### `f` (*x, y*) — Function");
    assert_eq!(render_mdbook_line("### Function: g ()"), "---\n### `g` () — Function");
    assert_eq!(render_mdbook_line("### Variable: v"), "---\n### `v` — Variable");
    assert_eq!(render_mdbook_line("plain"), "plain");
    assert_eq!(render_mdbook_content("a\n### Variable: v\n"), "a\n---\n### `v` — Variable");
}

#[test]
fn chapter_titles_and_promotion() {
    assert_eq!(extract_chapter_title("text\n### Function: diff (e, x)\n").as_deref(), Some("diff"));
    assert_eq!(extract_chapter_title("### Variable: v  \n").as_deref(), Some("v"));
    assert_eq!(extract_chapter_title("## Title \n").as_deref(), Some("Title"));
    assert_eq!(extract_chapter_title("no heading"), None);
    assert_eq!(extract_chapter_title("### Function:    \n## Later"), None);
    assert_eq!(promote_first_heading("x\n## A\n### B"), "x\n# A\n### B");
    assert_eq!(promote_first_heading("### B\n## A"), "# B\n## A");
}

#[test]
fn book_sections_from_includes() {
    let src = "# Title\n\nIntro text.\n\n## Calculus\n\n<!-- include: calc.md -->\n<!--include:more.md-->\n\n## Empty\n";
    let secs = book_sections(src);
    assert_eq!(secs.len(), 3);
    assert_eq!(secs[0].title, "");
    assert_eq!(secs[0].content, "\nIntro text.\n\n");
    assert_eq!(secs[1].title, "Calculus");
    assert_eq!(secs[1].includes, vec!["calc.md", "more.md"]);
    assert_eq!(secs[2].title, "Empty");
    let (file, page, entry) = section_page(&secs[0]);
    assert_eq!(file, "index.md");
    assert_eq!(page, "# \n\nIntro text.\n");
    assert_eq!(entry, "- [Introduction](index.md)\n");
    let (file, page, entry) = section_page(&secs[1]);
    assert_eq!(file, "calculus.md");
    assert_eq!(page, "# Calculus\n");
    assert_eq!(entry, "- [Calculus](calculus.md)\n");
}

#[test]
fn included_pages() {
    let (page, entry) = included_page("### Function: f (x)\nDoes f.", "fallback", "f.md");
    assert_eq!(page, "---\n# `f` (*x*) — Function\nDoes f.");
    assert_eq!(entry, "  - [f](f.md)\n");
    let (_, entry) = included_page("text only", "fallback", "t.md");
    assert_eq!(entry, "  - [fallback](t.md)\n");
}

#[test]
fn pages_from_headings() {
    let (pages, summary) = heading_pages("# Book\n## One\nx\n### Variable: v\n## \ny\n", "stem");
    assert_eq!(pages.len(), 2);
    assert_eq!(pages[0].0, "one.md");
    assert_eq!(pages[0].1, "# One\nx\n---\n### `v` — Variable\n");
    assert_eq!(pages[1].0, "chapter-2.md");
    assert_eq!(pages[1].1, "# \ny\n");
    assert_eq!(summary, "# Summary\n\n- [One](one.md)\n- [Chapter 2](chapter-2.md)\n");
    let (pages, summary) = heading_pages("just text\n", "stem");
    assert_eq!(pages, vec![("chapter-1.md".to_string(), "just text\n".to_string())]);
    assert_eq!(summary, "# Summary\n\n- [Chapter 1](chapter-1.md)\n");
    let (pages, summary) = heading_pages("# Only title\n", "stem");
    assert_eq!(pages, vec![("chapter-1.md".to_string(), "# Only title".to_string())]);
    assert_eq!(summary, "# Summary\n\n- [stem](chapter-1.md)\n");
}

#[test]
fn include_directives() {
    let src = "a\n<!-- include: x.md -->\nb\n<!-- include: y.md-->\n<!-- include: -->\n";
    assert_eq!(parse_includes(src), vec!["x.md", "y.md"]);
    let files = vec!["X".to_string(), "Y\n".to_string()];
    assert_eq!(expand_includes(src, &files), "a\nX\nb\nY\n<!-- include: -->\n");
}

#[test]
fn images_inlined() {
    assert_eq!(mime_from_extension("A.PNG"), "image/png");
    assert_eq!(mime_from_extension("b.jpeg"), "image/jpeg");
    assert_eq!(mime_from_extension("c.txt"), "application/octet-stream");
    assert!(is_kept_url("https://example.com/img.png"));
    assert!(!is_kept_url("figures/x.png"));
    assert_eq!(image_data_url("x.png", b"hi"), "data:image/png;base64,aGk=");
    assert_eq!(image_data_url("x.svg", b"<svg/>"), "data:image/svg+xml;utf8,<svg/>");
    assert_eq!(image_data_url("x.svg", &[0xff, 0xfe]), "x.svg");
}

#[test]
fn base64_groups_and_padding() {
    assert_eq!(image_data_url("a.gif", b"Man"), "data:image/gif;base64,TWFu");
    assert_eq!(image_data_url("a.gif", b"ManM"), "data:image/gif;base64,TWFuTQ==");
    assert_eq!(image_data_url("a.gif", b"ManMa"), "data:image/gif;base64,TWFuTWE=");
    assert_eq!(image_data_url("a.webp", &[0xfb, 0xff]), "data:image/webp;base64,+/8=");
    assert_eq!(image_data_url("a.webp", b""), "data:image/webp;base64,");
}

#[test]
fn html_images_are_replaced() {
    let md = "# Title\n\n![pic](a.png)\n";
    assert_eq!(image_urls(md), vec!["a.png".to_string()]);
    let html = render_html(md, &vec![("a.png".to_string(), "data:x".to_string())]);
    assert_eq!(html, "<h1>Title</h1>\n<p><img src=\"data:x\" alt=\"pic\" /></p>\n");
    let plain = render_html(md, &Vec::new());
    assert!(plain.contains("src=\"a.png\""));
}

#[test]
fn image_inlining() {
    // Minimal 1x1 PNG
    let png_data: [u8; 69] = [
        0x89, 0x50, 0x4E, 0x47, 0x0D, 0x0A, 0x1A, 0x0A, 0x00, 0x00, 0x00, 0x0D, 0x49, 0x48,
        0x44, 0x52, 0x00, 0x00, 0x00, 0x01, 0x00, 0x00, 0x00, 0x01, 0x08, 0x02, 0x00, 0x00,
        0x00, 0x90, 0x77, 0x53, 0xDE, 0x00, 0x00, 0x00, 0x0C, 0x49, 0x44, 0x41, 0x54, 0x08,
        0xD7, 0x63, 0xF8, 0xCF, 0xC0, 0x00, 0x00, 0x00, 0x02, 0x00, 0x01, 0xE2, 0x21, 0xBC,
        0x33, 0x00, 0x00, 0x00, 0x00, 0x49, 0x45, 0x4E, 0x44, 0xAE, 0x42, 0x60, 0x82,
    ];
    let md = "![test](test.png)";
    let images = vec![("test.png".to_string(), image_data_url("test.png", &png_data))];
    let html = render_html(md, &images);
    assert!(html.contains("data:image/png;base64,"));
    assert!(html.contains("alt=\"test\""));
}

#[test]
fn image_missing_warns_keeps_url() {
    let html = render_html("![missing](nonexistent.png)", &Vec::new());
    assert!(html.contains("nonexistent.png"));
}

#[test]
fn image_absolute_url_unchanged() {
    let md = "![pic](https://example.com/img.png)";
    let images: Vec<(String, String)> = image_urls(md)
        .into_iter()
        .filter(|u| !is_kept_url(u))
        .map(|u| (u.clone(), format!("data:{u}")))
        .collect();
    let html = render_html(md, &images);
    assert!(html.contains("https://example.com/img.png"));
}

#[test]
fn setfilename_is_read_from_the_first_directive() {
    let texi = "\\input texinfo\n@setfilename  my-pkg.info  \n@settitle X\n@setfilename other.info\n";
    assert_eq!(setfilename(texi), Some("my-pkg.info".to_string()));
    assert_eq!(setfilename("@settitle only\n"), None);
    assert_eq!(setfilename(" @setfilename indented.info\n"), None);
}
