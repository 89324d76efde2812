//! The smallest HTML layer: escaping text, and the page shell that wraps
//! every page of a site.
use vstd::prelude::*;

use crate::text::chars_of;

verus! {

/// What `esc` writes for one character.
pub open spec fn esc_char(c: char) -> Seq<char> {
    if c == '&' {
        "&amp;"@
    } else if c == '<' {
        "&lt;"@
    } else if c == '>' {
        "&gt;"@
    } else if c == '"' {
        "&quot;"@
    } else if c == '\'' {
        "&#39;"@
    } else {
        seq![c]
    }
}

/// The escape of a text: each character escaped in order.
pub open spec fn esc_seq(s: Seq<char>) -> Seq<char>
    decreases s.len(),
{
    if s.len() == 0 {
        Seq::empty()
    } else {
        esc_char(s[0]) + esc_seq(s.drop_first())
    }
}

/// Appends the escape of `s[lo..hi]` to `out`.
pub fn esc_into(out: &mut String, s: &Vec<char>, lo: usize, hi: usize)
    requires
        lo <= hi <= s@.len(),
    ensures
        final(out)@ == old(out)@ + esc_seq(s@.subrange(lo as int, hi as int)),
{
    let mut i: usize = lo;
    while i < hi
        invariant
            lo <= i <= hi <= s@.len(),
            out@ + esc_seq(s@.subrange(i as int, hi as int)) == old(out)@ + esc_seq(
                s@.subrange(lo as int, hi as int),
            ),
        decreases hi - i,
    {
        let c = s[i];
        assert(s@.subrange(i as int, hi as int).drop_first() =~= s@.subrange(i + 1, hi as int));
        if c == '&' {
            out.append("&amp;");
        } else if c == '<' {
            out.append("&lt;");
        } else if c == '>' {
            out.append("&gt;");
        } else if c == '"' {
            out.append("&quot;");
        } else if c == '\'' {
            out.append("&#39;");
        } else {
            out.push(c);
        }
        i = i + 1;
    }
}

/// Appends the escape of `s` to `out`.
fn esc_str_into(out: &mut String, s: &str)
    ensures
        final(out)@ == old(out)@ + esc_seq(s@),
{
    let v = chars_of(s);
    esc_into(out, &v, 0, v.len());
    assert(v@.subrange(0, v@.len() as int) =~= v@);
}

/// Escapes text for element content and attribute values: `&`, `<`, `>`,
/// `"` and `'` become entities, every other character stays.
pub fn esc(s: &str) -> (r: String)
    ensures
        r@ == esc_seq(s@),
{
    let mut out = String::new();
    esc_str_into(&mut out, s);
    out
}

/// The site-wide parts of the shell, written once. `head` is raw HTML put
/// before `</head>`: icons, font preloads, stylesheets.
pub struct Shell<'a> {
    pub lang: &'a str,
    /// `og:url` for the site; empty leaves the tag out.
    pub og_url: &'a str,
    pub head: &'a str,
}

/// One page: its title and description (escaped where they are used), its
/// body HTML and the class of its `body` element.
pub struct Page<'a> {
    pub title: &'a str,
    pub description: &'a str,
    pub body: &'a str,
    pub body_class: &'a str,
}

/// The `og:url` tag of a shell, or nothing when its url is empty.
pub open spec fn og_url_tag(shell: Shell) -> Seq<char> {
    if shell.og_url@.len() == 0 {
        Seq::empty()
    } else {
        "<meta property=\"og:url\" content=\""@ + esc_seq(shell.og_url@) + "\">\n"@
    }
}

/// The whole HTML document for `page` in `shell`.
pub open spec fn page_html(page: Page, shell: Shell) -> Seq<char> {
    let title = esc_seq(page.title@);
    let desc = esc_seq(page.description@);
    "<!doctype html>\n<html lang=\""@ + shell.lang@
        + "\">\n<head>\n<meta charset=\"utf-8\">\n<meta name=\"viewport\" content=\"width=device-width, initial-scale=1, viewport-fit=cover\">\n<title>"@
        + title + "</title>\n<meta name=\"description\" content=\""@ + desc
        + "\">\n<meta property=\"og:title\" content=\""@ + title
        + "\">\n<meta property=\"og:description\" content=\""@ + desc
        + "\">\n<meta property=\"og:type\" content=\"website\">\n"@ + og_url_tag(shell)
        + shell.head@ + "\n</head>\n<body class=\""@ + page.body_class@ + "\">\n"@ + page.body@
        + "\n</body>\n</html>\n"@
}

impl<'a> Page<'a> {
    /// The whole HTML document for this page in `shell`: the language, the
    /// escaped title and description (also as `og:` tags), the `og:url` tag
    /// when the shell has a url, the shell's head, and the body in a `body`
    /// element of the page's class.
    pub fn render(&self, shell: &Shell) -> (r: String)
        ensures
            r@ == page_html(*self, *shell),
    {
        let mut out = String::new();
        out.append("<!doctype html>\n<html lang=\"");
        out.append(shell.lang);
        out.append(
            "\">\n<head>\n<meta charset=\"utf-8\">\n<meta name=\"viewport\" content=\"width=device-width, initial-scale=1, viewport-fit=cover\">\n<title>",
        );
        esc_str_into(&mut out, self.title);
        out.append("</title>\n<meta name=\"description\" content=\"");
        esc_str_into(&mut out, self.description);
        out.append("\">\n<meta property=\"og:title\" content=\"");
        esc_str_into(&mut out, self.title);
        out.append("\">\n<meta property=\"og:description\" content=\"");
        esc_str_into(&mut out, self.description);
        out.append("\">\n<meta property=\"og:type\" content=\"website\">\n");
        if !shell.og_url.is_empty() {
            out.append("<meta property=\"og:url\" content=\"");
            esc_str_into(&mut out, shell.og_url);
            out.append("\">\n");
        }
        out.append(shell.head);
        out.append("\n</head>\n<body class=\"");
        out.append(self.body_class);
        out.append("\">\n");
        out.append(self.body);
        out.append("\n</body>\n</html>\n");
        out
    }
}

/// Reads the entities that `esc` writes back into the characters they
/// stand for.
pub open spec fn unescape(t: Seq<char>) -> Seq<char>
    decreases t.len(),
{
    if t.len() == 0 {
        Seq::empty()
    } else if t[0] == '&' && t.len() >= 5 && t.take(5) == "&amp;"@ {
        seq!['&'] + unescape(t.skip(5))
    } else if t[0] == '&' && t.len() >= 4 && t.take(4) == "&lt;"@ {
        seq!['<'] + unescape(t.skip(4))
    } else if t[0] == '&' && t.len() >= 4 && t.take(4) == "&gt;"@ {
        seq!['>'] + unescape(t.skip(4))
    } else if t[0] == '&' && t.len() >= 6 && t.take(6) == "&quot;"@ {
        seq!['"'] + unescape(t.skip(6))
    } else if t[0] == '&' && t.len() >= 5 && t.take(5) == "&#39;"@ {
        seq!['\''] + unescape(t.skip(5))
    } else {
        seq![t[0]] + unescape(t.drop_first())
    }
}

proof fn lemma_unescape_step(c: char, rest: Seq<char>)
    ensures
        unescape(esc_char(c) + rest) == seq![c] + unescape(rest),
{
    reveal_strlit("&amp;");
    reveal_strlit("&lt;");
    reveal_strlit("&gt;");
    reveal_strlit("&quot;");
    reveal_strlit("&#39;");
    let t = esc_char(c) + rest;
    if c != '&' && c != '<' && c != '>' && c != '"' && c != '\'' {
        assert(t[0] == c);
    } else {
        assert(t.len() >= 4);
        assert(t.take(4)[1] == t[1]);
        if t.len() >= 5 {
            assert(t.take(5)[1] == t[1]);
        }
        if t.len() >= 6 {
            assert(t.take(6)[1] == t[1]);
        }
    }
    if c == '&' {
        assert(t.take(5) =~= "&amp;"@);
        assert(t.skip(5) =~= rest);
    } else if c == '<' {
        assert(t.take(4) =~= "&lt;"@);
        assert(t.skip(4) =~= rest);
    } else if c == '>' {
        assert(t.take(4) =~= "&gt;"@);
        assert(t.skip(4) =~= rest);
    } else if c == '"' {
        assert(t.take(6) =~= "&quot;"@);
        assert(t.skip(6) =~= rest);
    } else if c == '\'' {
        assert(t.take(5) =~= "&#39;"@);
        assert(t.skip(5) =~= rest);
    } else {
        assert(t[0] == c);
        assert(t.drop_first() =~= rest);
    }
}

/// Unescaping an escaped text followed by anything gives back the text,
/// followed by the unescaping of the rest.
pub proof fn lemma_unescape_esc_then(s: Seq<char>, rest: Seq<char>)
    ensures
        unescape(esc_seq(s) + rest) == s + unescape(rest),
    decreases s.len(),
{
    if s.len() > 0 {
        lemma_unescape_esc_then(s.drop_first(), rest);
        assert(esc_seq(s) + rest =~= esc_char(s[0]) + (esc_seq(s.drop_first()) + rest));
        lemma_unescape_step(s[0], esc_seq(s.drop_first()) + rest);
        assert(s + unescape(rest) =~= seq![s[0]] + (s.drop_first() + unescape(rest)));
    } else {
        assert(esc_seq(s) + rest =~= rest);
        assert(s + unescape(rest) =~= unescape(rest));
    }
}

/// Unescaping gives back the escaped text.
pub proof fn lemma_unescape_esc(s: Seq<char>)
    ensures
        unescape(esc_seq(s)) == s,
{
    lemma_unescape_esc_then(s, Seq::empty());
    assert(esc_seq(s) + Seq::<char>::empty() =~= esc_seq(s));
    assert(s + Seq::<char>::empty() =~= s);
}

/// Escaping loses nothing: two texts with the same escape are the same text.
pub proof fn law_esc_injective(a: Seq<char>, b: Seq<char>)
    requires
        esc_seq(a) == esc_seq(b),
    ensures
        a == b,
{
    lemma_unescape_esc(a);
    lemma_unescape_esc(b);
}

/// The characters that end an attribute value or open or close a tag.
pub open spec fn is_markup(c: char) -> bool {
    c == '<' || c == '>' || c == '"' || c == '\''
}

/// Escaped text holds no `<`, `>`, `"` or `'`, so it cannot open a tag or
/// end a quoted attribute value.
pub proof fn law_esc_no_markup(s: Seq<char>)
    ensures
        forall|k: int| 0 <= k < esc_seq(s).len() ==> !is_markup(#[trigger] esc_seq(s)[k]),
    decreases s.len(),
{
    reveal_strlit("&amp;");
    reveal_strlit("&lt;");
    reveal_strlit("&gt;");
    reveal_strlit("&quot;");
    reveal_strlit("&#39;");
    if s.len() > 0 {
        law_esc_no_markup(s.drop_first());
        let head = esc_char(s[0]);
        let tail = esc_seq(s.drop_first());
        assert(forall|k: int| 0 <= k < head.len() ==> !is_markup(#[trigger] head[k]));
        assert forall|k: int| 0 <= k < esc_seq(s).len() implies !is_markup(
            #[trigger] esc_seq(s)[k],
        ) by {
            if k < head.len() {
                assert(esc_seq(s)[k] == head[k]);
            } else {
                assert(esc_seq(s)[k] == tail[k - head.len()]);
            }
        }
    }
}

/// One of the five entities that `esc` writes starts at `k` in `t`.
pub open spec fn entity_at(t: Seq<char>, k: int) -> bool {
    ||| (k + 5 <= t.len() && t.subrange(k, k + 5) == "&amp;"@)
    ||| (k + 4 <= t.len() && t.subrange(k, k + 4) == "&lt;"@)
    ||| (k + 4 <= t.len() && t.subrange(k, k + 4) == "&gt;"@)
    ||| (k + 6 <= t.len() && t.subrange(k, k + 6) == "&quot;"@)
    ||| (k + 5 <= t.len() && t.subrange(k, k + 5) == "&#39;"@)
}

proof fn lemma_entity_at_shift(h: Seq<char>, t: Seq<char>, k: int)
    requires
        0 <= k,
        entity_at(t, k),
    ensures
        entity_at(h + t, h.len() + k),
{
    let u = h + t;
    let j = h.len() + k;
    if k + 5 <= t.len() {
        assert(u.subrange(j, j + 5) =~= t.subrange(k, k + 5));
    }
    if k + 4 <= t.len() {
        assert(u.subrange(j, j + 4) =~= t.subrange(k, k + 4));
    }
    if k + 6 <= t.len() {
        assert(u.subrange(j, j + 6) =~= t.subrange(k, k + 6));
    }
}

/// Every `&` in escaped text begins one of the five entities, so escaped
/// text never holds a stray `&`.
pub proof fn law_esc_amp_is_entity(s: Seq<char>)
    ensures
        forall|k: int|
            0 <= k < esc_seq(s).len() && #[trigger] esc_seq(s)[k] == '&' ==> entity_at(
                esc_seq(s),
                k,
            ),
    decreases s.len(),
{
    reveal_strlit("&amp;");
    reveal_strlit("&lt;");
    reveal_strlit("&gt;");
    reveal_strlit("&quot;");
    reveal_strlit("&#39;");
    if s.len() > 0 {
        law_esc_amp_is_entity(s.drop_first());
        let c = s[0];
        let head = esc_char(c);
        let tail = esc_seq(s.drop_first());
        let u = esc_seq(s);
        assert(u == head + tail);
        assert forall|k: int| 0 <= k < u.len() && #[trigger] u[k] == '&' implies entity_at(u, k) by {
            if k < head.len() {
                assert(u[k] == head[k]);
                assert(k == 0);
                if c == '&' {
                    assert(u.subrange(0, 5) =~= head);
                } else if c == '<' || c == '>' {
                    assert(u.subrange(0, 4) =~= head);
                } else if c == '"' {
                    assert(u.subrange(0, 6) =~= head);
                } else {
                    assert(u.subrange(0, 5) =~= head);
                }
            } else {
                assert(u[k] == tail[k - head.len()]);
                lemma_entity_at_shift(head, tail, k - head.len());
            }
        }
    }
}

/// `x` occurs somewhere in `s`.
pub open spec fn contains(s: Seq<char>, x: Seq<char>) -> bool {
    exists|k: int| 0 <= k && k + x.len() <= s.len() && #[trigger] s.subrange(k, k + x.len()) == x
}

proof fn lemma_contains_mid(p: Seq<char>, x: Seq<char>, q: Seq<char>)
    ensures
        contains(p + x + q, x),
{
    assert((p + x + q).subrange(p.len() as int, (p.len() + x.len()) as int) =~= x);
}

proof fn lemma_contains_extend(a: Seq<char>, b: Seq<char>, x: Seq<char>)
    requires
        contains(a, x),
    ensures
        contains(a + b, x),
{
    let k = choose|k: int|
        0 <= k && k + x.len() <= a.len() && #[trigger] a.subrange(k, k + x.len()) == x;
    assert((a + b).subrange(k, k + x.len()) =~= a.subrange(k, k + x.len()));
}

/// What a page holds up to its `og:type` tag also stands in the whole page.
proof fn lemma_contains_page_tail(page: Page, shell: Shell, s: Seq<char>, x: Seq<char>)
    requires
        contains(s, x),
        s == "<!doctype html>\n<html lang=\""@ + shell.lang@
            + "\">\n<head>\n<meta charset=\"utf-8\">\n<meta name=\"viewport\" content=\"width=device-width, initial-scale=1, viewport-fit=cover\">\n<title>"@
            + esc_seq(page.title@) + "</title>\n<meta name=\"description\" content=\""@
            + esc_seq(page.description@) + "\">\n<meta property=\"og:title\" content=\""@
            + esc_seq(page.title@) + "\">\n<meta property=\"og:description\" content=\""@
            + esc_seq(page.description@)
            + "\">\n<meta property=\"og:type\" content=\"website\">\n"@,
    ensures
        contains(page_html(page, shell), x),
{
    let s1 = s + og_url_tag(shell);
    lemma_contains_extend(s, og_url_tag(shell), x);
    let s2 = s1 + shell.head@;
    lemma_contains_extend(s1, shell.head@, x);
    let s3 = s2 + "\n</head>\n<body class=\""@;
    lemma_contains_extend(s2, "\n</head>\n<body class=\""@, x);
    let s4 = s3 + page.body_class@;
    lemma_contains_extend(s3, page.body_class@, x);
    let s5 = s4 + "\">\n"@;
    lemma_contains_extend(s4, "\">\n"@, x);
    let s6 = s5 + page.body@;
    lemma_contains_extend(s5, page.body@, x);
    lemma_contains_extend(s6, "\n</body>\n</html>\n"@, x);
}

/// `x1`, `y` and `x2` in a row stand in `p + (a + x1) + y + (x2 + d)`.
proof fn lemma_contains_across(
    p: Seq<char>,
    a: Seq<char>,
    x1: Seq<char>,
    y: Seq<char>,
    x2: Seq<char>,
    d: Seq<char>,
)
    ensures
        contains(p + (a + x1) + y + (x2 + d), x1 + y + x2),
{
    assert(p + (a + x1) + y + (x2 + d) =~= (p + a) + (x1 + y + x2) + d);
    lemma_contains_mid(p + a, x1 + y + x2, d);
}

/// How the fixed text of the page head splits around its tags.
proof fn lemma_head_literals()
    ensures
        "\">\n<head>\n<meta charset=\"utf-8\">\n<meta name=\"viewport\" content=\"width=device-width, initial-scale=1, viewport-fit=cover\">\n<title>"@
            =~= "\">\n<head>\n<meta charset=\"utf-8\">\n<meta name=\"viewport\" content=\"width=device-width, initial-scale=1, viewport-fit=cover\">\n"@
            + "<title>"@,
        "</title>\n<meta name=\"description\" content=\""@ =~= "</title>"@ + ("\n"@
            + "<meta name=\"description\" content=\""@),
        "</title>\n<meta name=\"description\" content=\""@ =~= ("</title>"@ + "\n"@)
            + "<meta name=\"description\" content=\""@,
        "\">\n<meta property=\"og:title\" content=\""@ =~= "\">"@ + ("\n"@
            + "<meta property=\"og:title\" content=\""@),
        "\">\n<meta property=\"og:title\" content=\""@ =~= ("\">"@ + "\n"@)
            + "<meta property=\"og:title\" content=\""@,
        "\">\n<meta property=\"og:description\" content=\""@ =~= "\">"@ + ("\n"@
            + "<meta property=\"og:description\" content=\""@),
        "\">\n<meta property=\"og:description\" content=\""@ =~= ("\">"@ + "\n"@)
            + "<meta property=\"og:description\" content=\""@,
        "\">\n<meta property=\"og:type\" content=\"website\">\n"@ =~= "\">"@
            + "\n<meta property=\"og:type\" content=\"website\">\n"@,
{
    reveal_strlit(
        "\">\n<head>\n<meta charset=\"utf-8\">\n<meta name=\"viewport\" content=\"width=device-width, initial-scale=1, viewport-fit=cover\">\n<title>",
    );
    reveal_strlit(
        "\">\n<head>\n<meta charset=\"utf-8\">\n<meta name=\"viewport\" content=\"width=device-width, initial-scale=1, viewport-fit=cover\">\n",
    );
    reveal_strlit("<title>");
    reveal_strlit("</title>\n<meta name=\"description\" content=\"");
    reveal_strlit("</title>");
    reveal_strlit("\n");
    reveal_strlit("<meta name=\"description\" content=\"");
    reveal_strlit("\">\n<meta property=\"og:title\" content=\"");
    reveal_strlit("\">");
    reveal_strlit("<meta property=\"og:title\" content=\"");
    reveal_strlit("\">\n<meta property=\"og:description\" content=\"");
    reveal_strlit("<meta property=\"og:description\" content=\"");
    reveal_strlit("\">\n<meta property=\"og:type\" content=\"website\">\n");
    reveal_strlit("\n<meta property=\"og:type\" content=\"website\">\n");
}

/// A rendered page holds its escaped title in its `title` element and in
/// its `og:title` tag, and its escaped description in its description and
/// `og:description` tags.
pub proof fn law_page_tags(page: Page, shell: Shell)
    ensures
        contains(page_html(page, shell), "<title>"@ + esc_seq(page.title@) + "</title>"@),
        contains(
            page_html(page, shell),
            "<meta name=\"description\" content=\""@ + esc_seq(page.description@) + "\">"@,
        ),
        contains(
            page_html(page, shell),
            "<meta property=\"og:title\" content=\""@ + esc_seq(page.title@) + "\">"@,
        ),
        contains(
            page_html(page, shell),
            "<meta property=\"og:description\" content=\""@ + esc_seq(page.description@) + "\">"@,
        ),
{
    lemma_head_literals();
    let t = esc_seq(page.title@);
    let d = esc_seq(page.description@);
    let l1 = "<!doctype html>\n<html lang=\""@ + shell.lang@;
    let l2 = "\">\n<head>\n<meta charset=\"utf-8\">\n<meta name=\"viewport\" content=\"width=device-width, initial-scale=1, viewport-fit=cover\">\n<title>"@;
    let l3 = "</title>\n<meta name=\"description\" content=\""@;
    let l4 = "\">\n<meta property=\"og:title\" content=\""@;
    let l5 = "\">\n<meta property=\"og:description\" content=\""@;
    let l6 = "\">\n<meta property=\"og:type\" content=\"website\">\n"@;
    let nl = "\n"@;
    let close = "\">"@;
    let m_desc = "<meta name=\"description\" content=\""@;
    let m_og_title = "<meta property=\"og:title\" content=\""@;
    let m_og_desc = "<meta property=\"og:description\" content=\""@;
    let s5 = l1 + l2 + t + l3;
    let s7 = s5 + d + l4;
    let s9 = s7 + t + l5;
    let s11 = s9 + d + l6;
    let x1 = "<title>"@ + t + "</title>"@;
    let x2 = m_desc + d + close;
    let x3 = m_og_title + t + close;
    let x4 = m_og_desc + d + close;
    lemma_contains_across(
        l1,
        "\">\n<head>\n<meta charset=\"utf-8\">\n<meta name=\"viewport\" content=\"width=device-width, initial-scale=1, viewport-fit=cover\">\n"@,
        "<title>"@,
        t,
        "</title>"@,
        nl + m_desc,
    );
    lemma_contains_across(l1 + l2 + t, "</title>"@ + nl, m_desc, d, close, nl + m_og_title);
    lemma_contains_across(s5 + d, close + nl, m_og_title, t, close, nl + m_og_desc);
    lemma_contains_across(
        s7 + t,
        close + nl,
        m_og_desc,
        d,
        close,
        "\n<meta property=\"og:type\" content=\"website\">\n"@,
    );
    lemma_contains_extend(s5, d, x1);
    lemma_contains_extend(s5 + d, l4, x1);
    lemma_contains_extend(s7, t, x1);
    lemma_contains_extend(s7, t, x2);
    lemma_contains_extend(s7 + t, l5, x1);
    lemma_contains_extend(s7 + t, l5, x2);
    lemma_contains_extend(s9, d, x1);
    lemma_contains_extend(s9, d, x2);
    lemma_contains_extend(s9, d, x3);
    lemma_contains_extend(s9 + d, l6, x1);
    lemma_contains_extend(s9 + d, l6, x2);
    lemma_contains_extend(s9 + d, l6, x3);
    lemma_contains_page_tail(page, shell, s11, x1);
    lemma_contains_page_tail(page, shell, s11, x2);
    lemma_contains_page_tail(page, shell, s11, x3);
    lemma_contains_page_tail(page, shell, s11, x4);
}

/// A rendered page always holds the shell's head right before `</head>`,
/// whether or not the shell has an `og:url`.
pub proof fn law_page_keeps_head(page: Page, shell: Shell)
    ensures
        contains(page_html(page, shell), shell.head@ + "\n</head>"@),
{
    let pre = "<!doctype html>\n<html lang=\""@ + shell.lang@
        + "\">\n<head>\n<meta charset=\"utf-8\">\n<meta name=\"viewport\" content=\"width=device-width, initial-scale=1, viewport-fit=cover\">\n<title>"@
        + esc_seq(page.title@) + "</title>\n<meta name=\"description\" content=\""@
        + esc_seq(page.description@) + "\">\n<meta property=\"og:title\" content=\""@
        + esc_seq(page.title@) + "\">\n<meta property=\"og:description\" content=\""@
        + esc_seq(page.description@) + "\">\n<meta property=\"og:type\" content=\"website\">\n"@
        + og_url_tag(shell);
    let x = shell.head@ + "\n</head>"@;
    let open_body = "\n<body class=\""@;
    assert("\n</head>\n<body class=\""@ =~= "\n</head>"@ + open_body) by {
        reveal_strlit("\n</head>\n<body class=\"");
        reveal_strlit("\n</head>");
        reveal_strlit("\n<body class=\"");
    }
    let s = pre + shell.head@ + "\n</head>\n<body class=\""@;
    assert(s =~= pre + x + open_body);
    lemma_contains_mid(pre, x, open_body);
    let s1 = s + page.body_class@;
    lemma_contains_extend(s, page.body_class@, x);
    let s2 = s1 + "\">\n"@;
    lemma_contains_extend(s1, "\">\n"@, x);
    let s3 = s2 + page.body@;
    lemma_contains_extend(s2, page.body@, x);
    lemma_contains_extend(s3, "\n</body>\n</html>\n"@, x);
}

} // verus!
