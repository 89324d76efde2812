use furrow::md::{render, slug};

#[test]
fn rule_line() {
    assert_eq!(render("---\n"), "<hr>\n");
}

#[test]
fn heading_exact() {
    assert_eq!(
        render("# Title\n"),
        "<h1 id=\"title\">Title<a class=\"anchor\" href=\"#title\" aria-label=\"link to this section\">#</a></h1>\n"
    );
}

#[test]
fn deep_hashes_are_a_paragraph() {
    assert_eq!(render("##### five\n"), "<p>##### five</p>\n");
    assert_eq!(render("#tag\n"), "<p>#tag</p>\n");
}

#[test]
fn bullet_and_numbered_lists() {
    assert_eq!(render("- a\n- b\n"), "<ul><li>a</li><li>b</li></ul>\n");
    assert_eq!(render("1. one\n22. two\n"), "<ol><li>one</li><li>two</li></ol>\n");
}

#[test]
fn quote_paragraphs() {
    assert_eq!(
        render("> a\n> b\n>\n> c\n"),
        "<blockquote><p>a b</p><p>c</p></blockquote>\n"
    );
}

#[test]
fn paragraphs_join_and_break() {
    assert_eq!(
        render("line one\nline two\n\npara two\n"),
        "<p>line one line two</p>\n<p>para two</p>\n"
    );
    assert_eq!(render("text\n- item\n"), "<p>text</p>\n<ul><li>item</li></ul>\n");
}

#[test]
fn crlf_lines() {
    assert_eq!(render("a\r\nb\r\n"), "<p>a b</p>\n");
}

#[test]
fn unclosed_fence_runs_to_the_end() {
    assert_eq!(
        render("```\ncode <x>\n"),
        "<pre class=\"code\"><code>code &lt;x&gt;\n</code></pre>\n"
    );
}

#[test]
fn plain_text_is_escaped() {
    assert_eq!(render("a & b < c\n"), "<p>a &amp; b &lt; c</p>\n");
}

#[test]
fn link_url_is_escaped() {
    assert_eq!(
        render("[x](http://a?b=1&c=2)\n"),
        "<p><a href=\"http://a?b=1&amp;c=2\">x</a></p>\n"
    );
}

#[test]
fn unmatched_markup_stays_text() {
    assert_eq!(render("a `b and **c\n"), "<p>a `b and **c</p>\n");
}

#[test]
fn full_table() {
    assert_eq!(
        render("| a | b |\n|---|:-:|\n| 1 | 2 |\n"),
        "<div class=\"table-scroll\"><table><thead><tr><th>a</th><th>b</th></tr></thead><tbody><tr><td>1</td><td>2</td></tr></tbody></table></div>\n"
    );
}

#[test]
fn empty_document() {
    assert_eq!(render(""), "");
    assert_eq!(render("\n\n"), "");
}

#[test]
fn slugs() {
    assert_eq!(slug("Window rules"), "window-rules");
    assert_eq!(slug("  Hello, World!  "), "hello-world");
    assert_eq!(slug("a__b--c"), "a-b-c");
    assert_eq!(slug("---"), "");
    assert_eq!(slug(""), "");
}

#[test]
fn slug_is_idempotent_on_examples() {
    for t in ["Window rules", "  Hello, World!  ", "a__b--c", "Über Größe 2"] {
        let once = slug(t);
        assert_eq!(slug(&once), once);
    }
}

#[test]
fn crlf_renders_alike() {
    let s = "# Title\n\n> a\n> b\n\n| x | y |\n|---|---|\n| 1 | 2 |\n- item\n";
    assert_eq!(render(&s.replace('\n', "\r\n")), render(s));
}

#[test]
fn heading_lines_render_exactly() {
    assert_eq!(
        render("### Tiling  modes  "),
        "<h3 id=\"tiling-modes\">Tiling  modes<a class=\"anchor\" href=\"#tiling-modes\" aria-label=\"link to this section\">#</a></h3>\n"
    );
}

#[test]
fn no_raw_tags_from_the_input() {
    let html = render("<script>alert(1)</script>\n\n`<img>` and [x](<y>)\n");
    assert!(!html.contains("<script"));
    assert!(!html.contains("<img"));
    assert!(!html.contains("<y"));
}

#[test]
fn table_without_body() {
    assert_eq!(
        render("| a |\n|---|\n"),
        "<div class=\"table-scroll\"><table><thead><tr><th>a</th></tr></thead></table></div>\n"
    );
    assert_eq!(
        render("|---|\n| 1 |\n"),
        "<div class=\"table-scroll\"><table><tbody><tr><td>1</td></tr></tbody></table></div>\n"
    );
}

#[test]
fn plain_text_passes_through() {
    assert_eq!(render("just words, nothing more\n"), "<p>just words, nothing more</p>\n");
}

#[test]
fn slug_keeps_letters_and_digits() {
    let t = "Hello, World 2!";
    let without: String = slug(t).chars().filter(|c| *c != '-').collect();
    assert_eq!(without, "helloworld2");
}

#[test]
fn table_tags_follow_its_rows() {
    let h = render("| a | `<tr>` |\n|---|:-:|\n| 1 | **t** |\n|---|---|\n| 2 | [x](y) |\n");
    assert_eq!(h.matches("<tr>").count(), 3);
    assert_eq!(h.matches("<thead>").count(), 1);
    assert_eq!(h.matches("<tbody>").count(), 1);
    let only_sep = render("| 1 |\n|---|\n");
    assert_eq!(only_sep.matches("<tr>").count(), 1);
    assert!(!only_sep.contains("<tbody>"));
    let no_head = render("|--|\n| x |\n| y |\n");
    assert_eq!(no_head.matches("<tr>").count(), 2);
    assert!(!no_head.contains("<thead>"));
}

#[test]
fn heading_and_numbered_line_shapes() {
    assert_eq!(render("##### five\n"), "<p>##### five</p>\n");
    assert!(render("#no space\n").starts_with("<p>"));
    assert!(render("12. twelve\n").starts_with("<ol>"));
    assert!(render("12.twelve\n").starts_with("<p>"));
}
