use furrow::md::render;

#[test]
fn headings_get_ids_and_anchors() {
    let html = render("## Window rules\n");
    assert!(html.contains("<h2 id=\"window-rules\">"));
    assert!(html.contains("href=\"#window-rules\""));
}

#[test]
fn inline_code_is_escaped() {
    let html = render("use `<xdg_surface>` here\n");
    assert!(html.contains("<code>&lt;xdg_surface&gt;</code>"));
}

#[test]
fn tables_render_with_header() {
    let html = render("| key | type |\n|---|---|\n| `size` | int |\n");
    assert!(html.contains("<th>key</th>"));
    assert!(html.contains("<td><code>size</code></td>"));
}

#[test]
fn fences_preserve_content_verbatim() {
    let html = render("```kdl\nbind \"Super\" \"Return\" \"exec\" \"foot\"\n```\n");
    assert!(html.contains("data-lang=\"kdl\""));
    assert!(html.contains("bind &quot;Super&quot;"));
}

#[test]
fn bold_and_links_nest_in_paragraphs() {
    let html = render("see **the [docs](/docs/) page** now\n");
    assert!(html.contains("<strong>the <a href=\"/docs/\">docs</a> page</strong>"));
}
