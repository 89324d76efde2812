use furrow::html::{esc, Page, Shell};

#[test]
fn escapes_the_five() {
    assert_eq!(
        esc("a<b & 'c' \"d\">"),
        "a&lt;b &amp; &#39;c&#39; &quot;d&quot;&gt;"
    );
    assert_eq!(esc("plain é"), "plain é");
}

#[test]
fn escapes_are_distinct() {
    assert_ne!(esc("&lt;"), esc("<"));
    let e = esc("<>\"'&");
    assert!(!e.contains('<') && !e.contains('>') && !e.contains('"') && !e.contains('\''));
}

#[test]
fn page_without_og_url() {
    let shell = Shell { lang: "en", og_url: "", head: "<link>" };
    let page = Page { title: "A & B", description: "d", body: "<p>x</p>", body_class: "c" };
    assert_eq!(
        page.render(&shell),
        "<!doctype html>\n<html lang=\"en\">\n<head>\n<meta charset=\"utf-8\">\n<meta name=\"viewport\" content=\"width=device-width, initial-scale=1, viewport-fit=cover\">\n<title>A &amp; B</title>\n<meta name=\"description\" content=\"d\">\n<meta property=\"og:title\" content=\"A &amp; B\">\n<meta property=\"og:description\" content=\"d\">\n<meta property=\"og:type\" content=\"website\">\n<link>\n</head>\n<body class=\"c\">\n<p>x</p>\n</body>\n</html>\n"
    );
}

#[test]
fn page_with_og_url() {
    let shell = Shell { lang: "de", og_url: "https://x/?a&b", head: "" };
    let page = Page { title: "t", description: "\"q\"", body: "", body_class: "" };
    let html = page.render(&shell);
    assert!(html.contains("<meta property=\"og:url\" content=\"https://x/?a&amp;b\">\n\n</head>"));
    assert!(html.contains("<meta name=\"description\" content=\"&quot;q&quot;\">"));
    assert!(html.starts_with("<!doctype html>\n<html lang=\"de\">"));
}

#[test]
fn every_ampersand_opens_an_entity() {
    let e = esc("a & b && <c> \"d\" 'e' &amp;");
    for (i, _) in e.match_indices('&') {
        assert!(["&amp;", "&lt;", "&gt;", "&quot;", "&#39;"].iter().any(|x| e[i..].starts_with(x)));
    }
}

#[test]
fn page_holds_its_title_and_description() {
    let shell = Shell { lang: "en", og_url: "", head: "" };
    let page = Page { title: "<T> & 'u'", description: "a \"b\"", body: "x", body_class: "" };
    let html = page.render(&shell);
    let t = esc(page.title);
    let d = esc(page.description);
    assert!(html.contains(&format!("<title>{t}</title>")));
    assert!(html.contains(&format!("<meta name=\"description\" content=\"{d}\">")));
    assert!(html.contains(&format!("<meta property=\"og:title\" content=\"{t}\">")));
    assert!(html.contains(&format!("<meta property=\"og:description\" content=\"{d}\">")));
}
