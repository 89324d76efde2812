//! The tags in rendered HTML: every `<` that the renderer writes opens one
//! of its own tags, so no `<` of the input ever reaches the output raw; and
//! a table's tags are counted by its rows.
use vstd::prelude::*;

use crate::html::{esc_seq, is_markup, law_esc_no_markup};
use crate::md::{
    any_kept, block, body_rows, bold_at, cells_html, code_at, code_lines, fence_html, fence_lang,
    heading_html_of, heading_level, heading_text, inline_char, inline_from, inline_spec,
    is_separator, is_slug_char, item_text, kept_row, law_slug_shape, law_table_shape,
    lemma_block_next, lemma_inline_spans, level_digit, link_at, list_items, para_text,
    quote_para_html, quote_paras, quote_text, render_from, render_spec, row_cells, row_html,
    run_end, slug_spec, table_html, table_rows, Run,
};
use crate::text::{find_pair_from, lemma_find_pair_from, lines, trim, trim_end};

verus! {

/// `t` occurs in `s` at `k`.
pub open spec fn starts_at(s: Seq<char>, k: int, t: Seq<char>) -> bool {
    0 <= k && k + t.len() <= s.len() && s.subrange(k, k + t.len()) == t
}

/// Every `<` in `s` opens one of the renderer's own tags.
pub open spec fn only_own_tags(s: Seq<char>) -> bool {
    forall|k: int| 0 <= k < s.len() && #[trigger] s[k] == '<' ==> own_tag_at(s, k)
}

proof fn lemma_starts_at_concat(a: Seq<char>, b: Seq<char>)
    ensures
        forall|k: int, t: Seq<char>| #[trigger] starts_at(a, k, t) ==> starts_at(a + b, k, t),
        forall|k: int, t: Seq<char>|
            #[trigger] starts_at(b, k, t) ==> starts_at(a + b, a.len() + k, t),
{
    assert forall|k: int, t: Seq<char>| #[trigger] starts_at(a, k, t) implies starts_at(
        a + b,
        k,
        t,
    ) by {
        assert((a + b).subrange(k, k + t.len()) =~= a.subrange(k, k + t.len()));
    }
    assert forall|k: int, t: Seq<char>| #[trigger] starts_at(b, k, t) implies starts_at(
        a + b,
        a.len() + k,
        t,
    ) by {
        assert((a + b).subrange(a.len() + k, a.len() + k + t.len()) =~= b.subrange(k, k + t.len()));
    }
}

/// Text with only the renderer's own tags stays so when joined.
pub proof fn lemma_own_tags_concat(a: Seq<char>, b: Seq<char>)
    requires
        only_own_tags(a),
        only_own_tags(b),
    ensures
        only_own_tags(a + b),
{
    lemma_starts_at_concat(a, b);
    let u = a + b;
    assert forall|k: int| 0 <= k < u.len() && #[trigger] u[k] == '<' implies own_tag_at(u, k) by {
        if k < a.len() {
            assert(a[k] == '<');
            assert(own_tag_at(a, k));
        } else {
            assert(b[k - a.len()] == '<');
            assert(own_tag_at(b, k - a.len()));
            assert(a.len() + (k - a.len()) == k);
        }
    }
}

/// Text without `<` has only the renderer's own tags.
pub proof fn lemma_own_tags_plain(s: Seq<char>)
    requires
        forall|k: int| 0 <= k < s.len() ==> s[k] != '<',
    ensures
        only_own_tags(s),
{
}

/// The openings of the tags that the renderer writes.
pub open spec fn own_tag_at(s: Seq<char>, k: int) -> bool {
    ||| starts_at(s, k, "<code"@)
    ||| starts_at(s, k, "</code>"@)
    ||| starts_at(s, k, "<strong>"@)
    ||| starts_at(s, k, "</strong>"@)
    ||| starts_at(s, k, "<a href=\""@)
    ||| starts_at(s, k, "</a>"@)
    ||| starts_at(s, k, "<h1 id=\""@)
    ||| starts_at(s, k, "<h2 id=\""@)
    ||| starts_at(s, k, "<h3 id=\""@)
    ||| starts_at(s, k, "<h4 id=\""@)
    ||| starts_at(s, k, "</h1>"@)
    ||| starts_at(s, k, "</h2>"@)
    ||| starts_at(s, k, "</h3>"@)
    ||| starts_at(s, k, "</h4>"@)
    ||| starts_at(s, k, "<a class=\"anchor\" href=\"#"@)
    ||| starts_at(s, k, "<pre class=\"code\">"@)
    ||| starts_at(s, k, "</pre>"@)
    ||| starts_at(s, k, "<hr>"@)
    ||| starts_at(s, k, "<blockquote>"@)
    ||| starts_at(s, k, "</blockquote>"@)
    ||| starts_at(s, k, "<p>"@)
    ||| starts_at(s, k, "</p>"@)
    ||| starts_at(s, k, "<div class=\"table-scroll\">"@)
    ||| starts_at(s, k, "<table>"@)
    ||| starts_at(s, k, "</table>"@)
    ||| starts_at(s, k, "</div>"@)
    ||| starts_at(s, k, "<thead>"@)
    ||| starts_at(s, k, "</thead>"@)
    ||| starts_at(s, k, "<tbody>"@)
    ||| starts_at(s, k, "</tbody>"@)
    ||| starts_at(s, k, "<tr>"@)
    ||| starts_at(s, k, "</tr>"@)
    ||| starts_at(s, k, "<th>"@)
    ||| starts_at(s, k, "</th>"@)
    ||| starts_at(s, k, "<td>"@)
    ||| starts_at(s, k, "</td>"@)
    ||| starts_at(s, k, "<ul>"@)
    ||| starts_at(s, k, "</ul>"@)
    ||| starts_at(s, k, "<ol>"@)
    ||| starts_at(s, k, "</ol>"@)
    ||| starts_at(s, k, "<li>"@)
    ||| starts_at(s, k, "</li>"@)
}

/// Text whose only `<` opens one of the renderer's tags at its start.
proof fn lemma_own_tag_first(s: Seq<char>)
    requires
        own_tag_at(s, 0),
        forall|k: int| 1 <= k < s.len() ==> s[k] != '<',
    ensures
        only_own_tags(s),
{
}

/// The literal pieces of the output that hold no `<`.
proof fn lemma_plain_literals()
    ensures
        only_own_tags(" data-lang=\""@),
        only_own_tags(" id=\""@),
        only_own_tags("&amp;"@),
        only_own_tags("&gt;"@),
        only_own_tags("&lt;"@),
        only_own_tags(">"@),
        only_own_tags(">\n"@),
        only_own_tags("\""@),
        only_own_tags("\">"@),
{
    assert(only_own_tags(" data-lang=\""@)) by {
        reveal_strlit(" data-lang=\"");
        lemma_own_tags_plain(" data-lang=\""@);
    }
    assert(only_own_tags(" id=\""@)) by {
        reveal_strlit(" id=\"");
        lemma_own_tags_plain(" id=\""@);
    }
    assert(only_own_tags("&amp;"@)) by {
        reveal_strlit("&amp;");
        lemma_own_tags_plain("&amp;"@);
    }
    assert(only_own_tags("&gt;"@)) by {
        reveal_strlit("&gt;");
        lemma_own_tags_plain("&gt;"@);
    }
    assert(only_own_tags("&lt;"@)) by {
        reveal_strlit("&lt;");
        lemma_own_tags_plain("&lt;"@);
    }
    assert(only_own_tags(">"@)) by {
        reveal_strlit(">");
        lemma_own_tags_plain(">"@);
    }
    assert(only_own_tags(">\n"@)) by {
        reveal_strlit(">\n");
        lemma_own_tags_plain(">\n"@);
    }
    assert(only_own_tags("\""@)) by {
        reveal_strlit("\"");
        lemma_own_tags_plain("\""@);
    }
    assert(only_own_tags("\">"@)) by {
        reveal_strlit("\">");
        lemma_own_tags_plain("\">"@);
    }
}

/// The literal pieces of the output that open with one of the renderer's
/// tags and hold no other `<`.
proof fn lemma_one_literals()
    ensures
        only_own_tags("</a>"@),
        only_own_tags("</blockquote>\n"@),
        only_own_tags("</code>"@),
        only_own_tags("</li>"@),
        only_own_tags("</ol>\n"@),
        only_own_tags("</p>"@),
        only_own_tags("</p>\n"@),
        only_own_tags("</strong>"@),
        only_own_tags("</tbody>"@),
        only_own_tags("</td>"@),
        only_own_tags("</th>"@),
        only_own_tags("</thead>"@),
        only_own_tags("</tr>"@),
        only_own_tags("</ul>\n"@),
        only_own_tags("<a class=\"anchor\" href=\"#"@),
        only_own_tags("<a href=\""@),
        only_own_tags("<blockquote>"@),
        only_own_tags("<code>"@),
        only_own_tags("<hr>\n"@),
        only_own_tags("<li>"@),
        only_own_tags("<ol>"@),
        only_own_tags("<p>"@),
        only_own_tags("<strong>"@),
        only_own_tags("<tbody>"@),
        only_own_tags("<td>"@),
        only_own_tags("<th>"@),
        only_own_tags("<thead>"@),
        only_own_tags("<tr>"@),
        only_own_tags("<ul>"@),
        only_own_tags("<h1 id=\""@),
        only_own_tags("<h2 id=\""@),
        only_own_tags("<h3 id=\""@),
        only_own_tags("<h4 id=\""@),
{
    assert(only_own_tags("</a>"@)) by {
        reveal_strlit("</a>");
        assert("</a>"@.subrange(0, 4) =~= "</a>"@);
        lemma_own_tag_first("</a>"@);
    }
    assert(only_own_tags("</blockquote>\n"@)) by {
        reveal_strlit("</blockquote>\n");
        reveal_strlit("</blockquote>");
        assert("</blockquote>\n"@.subrange(0, 13) =~= "</blockquote>"@);
        lemma_own_tag_first("</blockquote>\n"@);
    }
    assert(only_own_tags("</code>"@)) by {
        reveal_strlit("</code>");
        assert("</code>"@.subrange(0, 7) =~= "</code>"@);
        lemma_own_tag_first("</code>"@);
    }
    assert(only_own_tags("</li>"@)) by {
        reveal_strlit("</li>");
        assert("</li>"@.subrange(0, 5) =~= "</li>"@);
        lemma_own_tag_first("</li>"@);
    }
    assert(only_own_tags("</ol>\n"@)) by {
        reveal_strlit("</ol>\n");
        reveal_strlit("</ol>");
        assert("</ol>\n"@.subrange(0, 5) =~= "</ol>"@);
        lemma_own_tag_first("</ol>\n"@);
    }
    assert(only_own_tags("</p>"@)) by {
        reveal_strlit("</p>");
        assert("</p>"@.subrange(0, 4) =~= "</p>"@);
        lemma_own_tag_first("</p>"@);
    }
    assert(only_own_tags("</p>\n"@)) by {
        reveal_strlit("</p>\n");
        reveal_strlit("</p>");
        assert("</p>\n"@.subrange(0, 4) =~= "</p>"@);
        lemma_own_tag_first("</p>\n"@);
    }
    assert(only_own_tags("</strong>"@)) by {
        reveal_strlit("</strong>");
        assert("</strong>"@.subrange(0, 9) =~= "</strong>"@);
        lemma_own_tag_first("</strong>"@);
    }
    assert(only_own_tags("</tbody>"@)) by {
        reveal_strlit("</tbody>");
        assert("</tbody>"@.subrange(0, 8) =~= "</tbody>"@);
        lemma_own_tag_first("</tbody>"@);
    }
    assert(only_own_tags("</td>"@)) by {
        reveal_strlit("</td>");
        assert("</td>"@.subrange(0, 5) =~= "</td>"@);
        lemma_own_tag_first("</td>"@);
    }
    assert(only_own_tags("</th>"@)) by {
        reveal_strlit("</th>");
        assert("</th>"@.subrange(0, 5) =~= "</th>"@);
        lemma_own_tag_first("</th>"@);
    }
    assert(only_own_tags("</thead>"@)) by {
        reveal_strlit("</thead>");
        assert("</thead>"@.subrange(0, 8) =~= "</thead>"@);
        lemma_own_tag_first("</thead>"@);
    }
    assert(only_own_tags("</tr>"@)) by {
        reveal_strlit("</tr>");
        assert("</tr>"@.subrange(0, 5) =~= "</tr>"@);
        lemma_own_tag_first("</tr>"@);
    }
    assert(only_own_tags("</ul>\n"@)) by {
        reveal_strlit("</ul>\n");
        reveal_strlit("</ul>");
        assert("</ul>\n"@.subrange(0, 5) =~= "</ul>"@);
        lemma_own_tag_first("</ul>\n"@);
    }
    assert(only_own_tags("<a class=\"anchor\" href=\"#"@)) by {
        reveal_strlit("<a class=\"anchor\" href=\"#");
        assert("<a class=\"anchor\" href=\"#"@.subrange(0, 25) =~= "<a class=\"anchor\" href=\"#"@);
        lemma_own_tag_first("<a class=\"anchor\" href=\"#"@);
    }
    assert(only_own_tags("<a href=\""@)) by {
        reveal_strlit("<a href=\"");
        assert("<a href=\""@.subrange(0, 9) =~= "<a href=\""@);
        lemma_own_tag_first("<a href=\""@);
    }
    assert(only_own_tags("<blockquote>"@)) by {
        reveal_strlit("<blockquote>");
        assert("<blockquote>"@.subrange(0, 12) =~= "<blockquote>"@);
        lemma_own_tag_first("<blockquote>"@);
    }
    assert(only_own_tags("<code>"@)) by {
        reveal_strlit("<code>");
        reveal_strlit("<code");
        assert("<code>"@.subrange(0, 5) =~= "<code"@);
        lemma_own_tag_first("<code>"@);
    }
    assert(only_own_tags("<hr>\n"@)) by {
        reveal_strlit("<hr>\n");
        reveal_strlit("<hr>");
        assert("<hr>\n"@.subrange(0, 4) =~= "<hr>"@);
        lemma_own_tag_first("<hr>\n"@);
    }
    assert(only_own_tags("<li>"@)) by {
        reveal_strlit("<li>");
        assert("<li>"@.subrange(0, 4) =~= "<li>"@);
        lemma_own_tag_first("<li>"@);
    }
    assert(only_own_tags("<ol>"@)) by {
        reveal_strlit("<ol>");
        assert("<ol>"@.subrange(0, 4) =~= "<ol>"@);
        lemma_own_tag_first("<ol>"@);
    }
    assert(only_own_tags("<p>"@)) by {
        reveal_strlit("<p>");
        assert("<p>"@.subrange(0, 3) =~= "<p>"@);
        lemma_own_tag_first("<p>"@);
    }
    assert(only_own_tags("<strong>"@)) by {
        reveal_strlit("<strong>");
        assert("<strong>"@.subrange(0, 8) =~= "<strong>"@);
        lemma_own_tag_first("<strong>"@);
    }
    assert(only_own_tags("<tbody>"@)) by {
        reveal_strlit("<tbody>");
        assert("<tbody>"@.subrange(0, 7) =~= "<tbody>"@);
        lemma_own_tag_first("<tbody>"@);
    }
    assert(only_own_tags("<td>"@)) by {
        reveal_strlit("<td>");
        assert("<td>"@.subrange(0, 4) =~= "<td>"@);
        lemma_own_tag_first("<td>"@);
    }
    assert(only_own_tags("<th>"@)) by {
        reveal_strlit("<th>");
        assert("<th>"@.subrange(0, 4) =~= "<th>"@);
        lemma_own_tag_first("<th>"@);
    }
    assert(only_own_tags("<thead>"@)) by {
        reveal_strlit("<thead>");
        assert("<thead>"@.subrange(0, 7) =~= "<thead>"@);
        lemma_own_tag_first("<thead>"@);
    }
    assert(only_own_tags("<tr>"@)) by {
        reveal_strlit("<tr>");
        assert("<tr>"@.subrange(0, 4) =~= "<tr>"@);
        lemma_own_tag_first("<tr>"@);
    }
    assert(only_own_tags("<ul>"@)) by {
        reveal_strlit("<ul>");
        assert("<ul>"@.subrange(0, 4) =~= "<ul>"@);
        lemma_own_tag_first("<ul>"@);
    }
    assert(only_own_tags("<h1 id=\""@)) by {
        reveal_strlit("<h1 id=\"");
        assert("<h1 id=\""@.subrange(0, 8) =~= "<h1 id=\""@);
        lemma_own_tag_first("<h1 id=\""@);
    }
    assert(only_own_tags("<h2 id=\""@)) by {
        reveal_strlit("<h2 id=\"");
        assert("<h2 id=\""@.subrange(0, 8) =~= "<h2 id=\""@);
        lemma_own_tag_first("<h2 id=\""@);
    }
    assert(only_own_tags("<h3 id=\""@)) by {
        reveal_strlit("<h3 id=\"");
        assert("<h3 id=\""@.subrange(0, 8) =~= "<h3 id=\""@);
        lemma_own_tag_first("<h3 id=\""@);
    }
    assert(only_own_tags("<h4 id=\""@)) by {
        reveal_strlit("<h4 id=\"");
        assert("<h4 id=\""@.subrange(0, 8) =~= "<h4 id=\""@);
        lemma_own_tag_first("<h4 id=\""@);
    }
}

/// The literal pieces of the output that hold several of the renderer's
/// tags: each is the join of pieces of the kinds above.
proof fn lemma_more_literals()
    ensures
        only_own_tags("</code></pre>\n"@),
        only_own_tags("</table></div>\n"@),
        only_own_tags("<div class=\"table-scroll\"><table>"@),
        only_own_tags("<pre class=\"code\"><code"@),
        only_own_tags("\" aria-label=\"link to this section\">#</a></h1>\n"@),
        only_own_tags("\" aria-label=\"link to this section\">#</a></h2>\n"@),
        only_own_tags("\" aria-label=\"link to this section\">#</a></h3>\n"@),
        only_own_tags("\" aria-label=\"link to this section\">#</a></h4>\n"@),
{
    assert(only_own_tags("</code></pre>\n"@)) by {
        reveal_strlit("</code></pre>\n");
        reveal_strlit("</code>");
        reveal_strlit("</pre>\n");
        assert("</code></pre>\n"@ =~= "</code>"@ + "</pre>\n"@);
        assert("</code>"@.subrange(0, 7) =~= "</code>"@);
        lemma_own_tag_first("</code>"@);
        reveal_strlit("</pre>");
        assert("</pre>\n"@.subrange(0, 6) =~= "</pre>"@);
        lemma_own_tag_first("</pre>\n"@);
        lemma_own_tags_concat("</code>"@, "</pre>\n"@);
    }
    assert(only_own_tags("</table></div>\n"@)) by {
        reveal_strlit("</table></div>\n");
        reveal_strlit("</table>");
        reveal_strlit("</div>\n");
        assert("</table></div>\n"@ =~= "</table>"@ + "</div>\n"@);
        assert("</table>"@.subrange(0, 8) =~= "</table>"@);
        lemma_own_tag_first("</table>"@);
        reveal_strlit("</div>");
        assert("</div>\n"@.subrange(0, 6) =~= "</div>"@);
        lemma_own_tag_first("</div>\n"@);
        lemma_own_tags_concat("</table>"@, "</div>\n"@);
    }
    assert(only_own_tags("<div class=\"table-scroll\"><table>"@)) by {
        reveal_strlit("<div class=\"table-scroll\"><table>");
        reveal_strlit("<div class=\"table-scroll\">");
        reveal_strlit("<table>");
        assert("<div class=\"table-scroll\"><table>"@ =~= "<div class=\"table-scroll\">"@ + "<table>"@);
        assert("<div class=\"table-scroll\">"@.subrange(0, 26) =~= "<div class=\"table-scroll\">"@);
        lemma_own_tag_first("<div class=\"table-scroll\">"@);
        assert("<table>"@.subrange(0, 7) =~= "<table>"@);
        lemma_own_tag_first("<table>"@);
        lemma_own_tags_concat("<div class=\"table-scroll\">"@, "<table>"@);
    }
    assert(only_own_tags("<pre class=\"code\"><code"@)) by {
        reveal_strlit("<pre class=\"code\"><code");
        reveal_strlit("<pre class=\"code\">");
        reveal_strlit("<code");
        assert("<pre class=\"code\"><code"@ =~= "<pre class=\"code\">"@ + "<code"@);
        assert("<pre class=\"code\">"@.subrange(0, 18) =~= "<pre class=\"code\">"@);
        lemma_own_tag_first("<pre class=\"code\">"@);
        assert("<code"@.subrange(0, 5) =~= "<code"@);
        lemma_own_tag_first("<code"@);
        lemma_own_tags_concat("<pre class=\"code\">"@, "<code"@);
    }
    assert(only_own_tags("\" aria-label=\"link to this section\">#</a></h1>\n"@)) by {
        reveal_strlit("\" aria-label=\"link to this section\">#</a></h1>\n");
        reveal_strlit("\" aria-label=\"link to this section\">#");
        reveal_strlit("</a>");
        reveal_strlit("</h1>\n");
        assert("\" aria-label=\"link to this section\">#</a></h1>\n"@ =~= "\" aria-label=\"link to this section\">#"@ + "</a>"@ + "</h1>\n"@);
        lemma_own_tags_plain("\" aria-label=\"link to this section\">#"@);
        assert("</a>"@.subrange(0, 4) =~= "</a>"@);
        lemma_own_tag_first("</a>"@);
        reveal_strlit("</h1>");
        assert("</h1>\n"@.subrange(0, 5) =~= "</h1>"@);
        lemma_own_tag_first("</h1>\n"@);
        lemma_own_tags_concat("\" aria-label=\"link to this section\">#"@, "</a>"@);
        lemma_own_tags_concat("\" aria-label=\"link to this section\">#"@ + "</a>"@, "</h1>\n"@);
    }
    assert(only_own_tags("\" aria-label=\"link to this section\">#</a></h2>\n"@)) by {
        reveal_strlit("\" aria-label=\"link to this section\">#</a></h2>\n");
        reveal_strlit("\" aria-label=\"link to this section\">#");
        reveal_strlit("</a>");
        reveal_strlit("</h2>\n");
        assert("\" aria-label=\"link to this section\">#</a></h2>\n"@ =~= "\" aria-label=\"link to this section\">#"@ + "</a>"@ + "</h2>\n"@);
        lemma_own_tags_plain("\" aria-label=\"link to this section\">#"@);
        assert("</a>"@.subrange(0, 4) =~= "</a>"@);
        lemma_own_tag_first("</a>"@);
        reveal_strlit("</h2>");
        assert("</h2>\n"@.subrange(0, 5) =~= "</h2>"@);
        lemma_own_tag_first("</h2>\n"@);
        lemma_own_tags_concat("\" aria-label=\"link to this section\">#"@, "</a>"@);
        lemma_own_tags_concat("\" aria-label=\"link to this section\">#"@ + "</a>"@, "</h2>\n"@);
    }
    assert(only_own_tags("\" aria-label=\"link to this section\">#</a></h3>\n"@)) by {
        reveal_strlit("\" aria-label=\"link to this section\">#</a></h3>\n");
        reveal_strlit("\" aria-label=\"link to this section\">#");
        reveal_strlit("</a>");
        reveal_strlit("</h3>\n");
        assert("\" aria-label=\"link to this section\">#</a></h3>\n"@ =~= "\" aria-label=\"link to this section\">#"@ + "</a>"@ + "</h3>\n"@);
        lemma_own_tags_plain("\" aria-label=\"link to this section\">#"@);
        assert("</a>"@.subrange(0, 4) =~= "</a>"@);
        lemma_own_tag_first("</a>"@);
        reveal_strlit("</h3>");
        assert("</h3>\n"@.subrange(0, 5) =~= "</h3>"@);
        lemma_own_tag_first("</h3>\n"@);
        lemma_own_tags_concat("\" aria-label=\"link to this section\">#"@, "</a>"@);
        lemma_own_tags_concat("\" aria-label=\"link to this section\">#"@ + "</a>"@, "</h3>\n"@);
    }
    assert(only_own_tags("\" aria-label=\"link to this section\">#</a></h4>\n"@)) by {
        reveal_strlit("\" aria-label=\"link to this section\">#</a></h4>\n");
        reveal_strlit("\" aria-label=\"link to this section\">#");
        reveal_strlit("</a>");
        reveal_strlit("</h4>\n");
        assert("\" aria-label=\"link to this section\">#</a></h4>\n"@ =~= "\" aria-label=\"link to this section\">#"@ + "</a>"@ + "</h4>\n"@);
        lemma_own_tags_plain("\" aria-label=\"link to this section\">#"@);
        assert("</a>"@.subrange(0, 4) =~= "</a>"@);
        lemma_own_tag_first("</a>"@);
        reveal_strlit("</h4>");
        assert("</h4>\n"@.subrange(0, 5) =~= "</h4>"@);
        lemma_own_tag_first("</h4>\n"@);
        lemma_own_tags_concat("\" aria-label=\"link to this section\">#"@, "</a>"@);
        lemma_own_tags_concat("\" aria-label=\"link to this section\">#"@ + "</a>"@, "</h4>\n"@);
    }
}

/// The literal pieces of the renderer's output hold only its own tags.
pub proof fn lemma_literals()
    ensures
        only_own_tags(" data-lang=\""@),
        only_own_tags(" id=\""@),
        only_own_tags("&amp;"@),
        only_own_tags("&gt;"@),
        only_own_tags("&lt;"@),
        only_own_tags("</a>"@),
        only_own_tags("</blockquote>\n"@),
        only_own_tags("</code>"@),
        only_own_tags("</code></pre>\n"@),
        only_own_tags("</li>"@),
        only_own_tags("</ol>\n"@),
        only_own_tags("</p>"@),
        only_own_tags("</p>\n"@),
        only_own_tags("</strong>"@),
        only_own_tags("</table></div>\n"@),
        only_own_tags("</tbody>"@),
        only_own_tags("</td>"@),
        only_own_tags("</th>"@),
        only_own_tags("</thead>"@),
        only_own_tags("</tr>"@),
        only_own_tags("</ul>\n"@),
        only_own_tags("<a class=\"anchor\" href=\"#"@),
        only_own_tags("<a href=\""@),
        only_own_tags("<blockquote>"@),
        only_own_tags("<code>"@),
        only_own_tags("<div class=\"table-scroll\"><table>"@),
        only_own_tags("<hr>\n"@),
        only_own_tags("<li>"@),
        only_own_tags("<ol>"@),
        only_own_tags("<p>"@),
        only_own_tags("<pre class=\"code\"><code"@),
        only_own_tags("<strong>"@),
        only_own_tags("<tbody>"@),
        only_own_tags("<td>"@),
        only_own_tags("<th>"@),
        only_own_tags("<thead>"@),
        only_own_tags("<tr>"@),
        only_own_tags("<ul>"@),
        only_own_tags(">"@),
        only_own_tags(">\n"@),
        only_own_tags("\""@),
        only_own_tags("\">"@),
        only_own_tags("<h1 id=\""@),
        only_own_tags("\" aria-label=\"link to this section\">#</a></h1>\n"@),
        only_own_tags("<h2 id=\""@),
        only_own_tags("\" aria-label=\"link to this section\">#</a></h2>\n"@),
        only_own_tags("<h3 id=\""@),
        only_own_tags("\" aria-label=\"link to this section\">#</a></h3>\n"@),
        only_own_tags("<h4 id=\""@),
        only_own_tags("\" aria-label=\"link to this section\">#</a></h4>\n"@),
{
    lemma_plain_literals();
    lemma_one_literals();
    lemma_more_literals();
}

// ---------------------------------------------------------------------
// The renderer's output
// ---------------------------------------------------------------------

proof fn lemma_own2(a: Seq<char>, b: Seq<char>)
    requires
        only_own_tags(a),
        only_own_tags(b),
    ensures
        only_own_tags(a + b),
{
    lemma_own_tags_concat(a, b);
}

proof fn lemma_own3(a: Seq<char>, b: Seq<char>, c: Seq<char>)
    requires
        only_own_tags(a),
        only_own_tags(b),
        only_own_tags(c),
    ensures
        only_own_tags(a + b + c),
{
    lemma_own_tags_concat(a, b);
    lemma_own_tags_concat(a + b, c);
}

proof fn lemma_own4(a: Seq<char>, b: Seq<char>, c: Seq<char>, d: Seq<char>)
    requires
        only_own_tags(a),
        only_own_tags(b),
        only_own_tags(c),
        only_own_tags(d),
    ensures
        only_own_tags(a + b + c + d),
{
    lemma_own3(a, b, c);
    lemma_own_tags_concat(a + b + c, d);
}

proof fn lemma_esc_tags(s: Seq<char>)
    ensures
        only_own_tags(esc_seq(s)),
{
    law_esc_no_markup(s);
    let e = esc_seq(s);
    assert forall|k: int| 0 <= k < e.len() implies e[k] != '<' by {
        assert(!is_markup(e[k]));
    }
}

proof fn lemma_inline_tags(s: Seq<char>, i: int)
    ensures
        only_own_tags(inline_from(s, i)),
    decreases s.len() - i,
{
    lemma_literals();
    if 0 <= i < s.len() {
        lemma_inline_spans(s, i);
        if let Some(e) = code_at(s, i) {
            lemma_esc_tags(s.subrange(i + 1, e));
            lemma_inline_tags(s, e + 1);
            lemma_own4(
                "<code>"@,
                esc_seq(s.subrange(i + 1, e)),
                "</code>"@,
                inline_from(s, e + 1),
            );
        } else if let Some(e) = bold_at(s, i) {
            lemma_inline_tags(s.subrange(i + 2, e), 0);
            lemma_inline_tags(s, e + 2);
            lemma_own4(
                "<strong>"@,
                inline_from(s.subrange(i + 2, e), 0),
                "</strong>"@,
                inline_from(s, e + 2),
            );
        } else if let Some((c, e)) = link_at(s, i) {
            lemma_esc_tags(s.subrange(c + 2, e));
            lemma_inline_tags(s.subrange(i + 1, c), 0);
            lemma_inline_tags(s, e + 1);
            let a = "<a href=\""@ + esc_seq(s.subrange(c + 2, e)) + "\">"@;
            lemma_own3("<a href=\""@, esc_seq(s.subrange(c + 2, e)), "\">"@);
            lemma_own4(a, inline_from(s.subrange(i + 1, c), 0), "</a>"@, inline_from(s, e + 1));
        } else {
            lemma_inline_tags(s, i + 1);
            let c = s[i];
            if c != '&' && c != '<' && c != '>' {
                lemma_own_tags_plain(seq![c]);
            }
            lemma_own2(inline_char(c), inline_from(s, i + 1));
        }
    } else {
        lemma_own_tags_plain(Seq::<char>::empty());
    }
}

proof fn lemma_slug_tags(t: Seq<char>)
    ensures
        only_own_tags(slug_spec(t)),
{
    law_slug_shape(t);
    let r = slug_spec(t);
    assert forall|k: int| 0 <= k < r.len() implies r[k] != '<' by {
        assert(is_slug_char(r[k]));
    }
}

proof fn lemma_heading_tags(level: int, text: Seq<char>)
    ensures
        only_own_tags(heading_html_of(level, text)),
{
    lemma_literals();
    reveal_strlit("<h");
    reveal_strlit(" id=\"");
    reveal_strlit(">\n");
    reveal_strlit("\" aria-label=\"link to this section\">#</a></h");
    let d = level_digit(level);
    let open = "<h"@ + seq![d] + " id=\""@;
    let close = "\" aria-label=\"link to this section\">#</a></h"@ + seq![d] + ">\n"@;
    if d == '1' {
        reveal_strlit("<h1 id=\"");
        reveal_strlit("\" aria-label=\"link to this section\">#</a></h1>\n");
        assert(open =~= "<h1 id=\""@);
        assert(close =~= "\" aria-label=\"link to this section\">#</a></h1>\n"@);
    } else if d == '2' {
        reveal_strlit("<h2 id=\"");
        reveal_strlit("\" aria-label=\"link to this section\">#</a></h2>\n");
        assert(open =~= "<h2 id=\""@);
        assert(close =~= "\" aria-label=\"link to this section\">#</a></h2>\n"@);
    } else if d == '3' {
        reveal_strlit("<h3 id=\"");
        reveal_strlit("\" aria-label=\"link to this section\">#</a></h3>\n");
        assert(open =~= "<h3 id=\""@);
        assert(close =~= "\" aria-label=\"link to this section\">#</a></h3>\n"@);
    } else {
        reveal_strlit("<h4 id=\"");
        reveal_strlit("\" aria-label=\"link to this section\">#</a></h4>\n");
        assert(open =~= "<h4 id=\""@);
        assert(close =~= "\" aria-label=\"link to this section\">#</a></h4>\n"@);
    }
    let id = slug_spec(text);
    lemma_slug_tags(text);
    lemma_inline_tags(text, 0);
    let first = open + id + "\">"@ + inline_spec(text);
    lemma_own4(open, id, "\">"@, inline_spec(text));
    lemma_own4(first, "<a class=\"anchor\" href=\"#"@, id, close);
    assert(heading_html_of(level, text) =~= first + "<a class=\"anchor\" href=\"#"@ + id + close);
}

proof fn lemma_code_lines_tags(ls: Seq<Seq<char>>, a: int, b: int)
    ensures
        only_own_tags(code_lines(ls, a, b)),
    decreases b - a,
{
    if a >= b || a < 0 || b > ls.len() {
        lemma_own_tags_plain(Seq::<char>::empty());
    } else {
        lemma_esc_tags(ls[a]);
        lemma_own_tags_plain(seq!['\n']);
        lemma_code_lines_tags(ls, a + 1, b);
        lemma_own3(esc_seq(ls[a]), seq!['\n'], code_lines(ls, a + 1, b));
    }
}

proof fn lemma_fence_tags(ls: Seq<Seq<char>>, i: int)
    ensures
        only_own_tags(fence_html(ls, i)),
{
    lemma_literals();
    let lang = fence_lang(trim_end(ls[i]));
    let k = run_end(ls, i + 1, Run::Code);
    let attr = if lang.len() > 0 {
        " data-lang=\""@ + esc_seq(lang) + "\""@
    } else {
        Seq::empty()
    };
    lemma_esc_tags(lang);
    lemma_own3(" data-lang=\""@, esc_seq(lang), "\""@);
    lemma_own_tags_plain(Seq::<char>::empty());
    lemma_code_lines_tags(ls, i + 1, k);
    lemma_own4("<pre class=\"code\"><code"@, attr, ">"@, code_lines(ls, i + 1, k));
    lemma_own2(
        "<pre class=\"code\"><code"@ + attr + ">"@ + code_lines(ls, i + 1, k),
        "</code></pre>\n"@,
    );
}

proof fn lemma_quote_paras_tags(q: Seq<char>, start: int)
    ensures
        only_own_tags(quote_paras(q, start)),
    decreases q.len() - start,
{
    lemma_literals();
    lemma_own_tags_plain(Seq::<char>::empty());
    if 0 <= start <= q.len() {
        let end = match find_pair_from(q, start, '\n', '\n') {
            Some(j) => j,
            None => q.len() as int,
        };
        lemma_find_pair_from(q, start, '\n', '\n');
        let p = q.subrange(start, end);
        lemma_inline_tags(trim(p), 0);
        lemma_own3("<p>"@, inline_spec(trim(p)), "</p>"@);
        if let Some(j) = find_pair_from(q, start, '\n', '\n') {
            lemma_quote_paras_tags(q, j + 2);
            lemma_own2(quote_para_html(p), quote_paras(q, j + 2));
        }
    }
}

proof fn lemma_cells_tags(cells: Seq<Seq<char>>, m: int, header: bool)
    ensures
        only_own_tags(cells_html(cells, m, header)),
    decreases cells.len() - m,
{
    lemma_literals();
    lemma_own_tags_plain(Seq::<char>::empty());
    if 0 <= m < cells.len() {
        lemma_inline_tags(cells[m], 0);
        lemma_own3("<th>"@, inline_spec(cells[m]), "</th>"@);
        lemma_own3("<td>"@, inline_spec(cells[m]), "</td>"@);
        lemma_cells_tags(cells, m + 1, header);
        let c = if header {
            "<th>"@ + inline_spec(cells[m]) + "</th>"@
        } else {
            "<td>"@ + inline_spec(cells[m]) + "</td>"@
        };
        lemma_own2(c, cells_html(cells, m + 1, header));
    }
}

proof fn lemma_table_rows_tags(ls: Seq<Seq<char>>, i: int, j: int, k: int, started: bool)
    ensures
        only_own_tags(table_rows(ls, i, j, k, started)),
    decreases k - j,
{
    lemma_literals();
    lemma_own_tags_plain(Seq::<char>::empty());
    if !(j >= k || j < 0 || k > ls.len()) {
        let cells = row_cells(trim_end(ls[j]));
        let head = j == i;
        lemma_table_rows_tags(ls, i, j + 1, k, started);
        lemma_table_rows_tags(ls, i, j + 1, k, started || !head);
        if !is_separator(cells) {
            lemma_cells_tags(cells, 0, head);
            let a = if !head && !started {
                "<tbody>"@
            } else {
                Seq::empty()
            };
            let b = if head {
                "<thead>"@
            } else {
                Seq::empty()
            };
            let c = if head {
                "</thead>"@
            } else {
                Seq::empty()
            };
            lemma_own4(a, b, "<tr>"@, cells_html(cells, 0, head));
            lemma_own3(a + b + "<tr>"@ + cells_html(cells, 0, head), "</tr>"@, c);
            lemma_own2(row_html(cells, head, started), table_rows(ls, i, j + 1, k, started || !head));
        }
    }
}

proof fn lemma_list_tags(ls: Seq<Seq<char>>, a: int, b: int, kind: Run)
    ensures
        only_own_tags(list_items(ls, a, b, kind)),
    decreases b - a,
{
    lemma_literals();
    lemma_own_tags_plain(Seq::<char>::empty());
    if !(a >= b || a < 0 || b > ls.len()) {
        let t = item_text(kind, trim_end(ls[a]));
        lemma_inline_tags(t, 0);
        lemma_list_tags(ls, a + 1, b, kind);
        lemma_own4("<li>"@, inline_spec(t), "</li>"@, list_items(ls, a + 1, b, kind));
    }
}

proof fn lemma_block_tags(ls: Seq<Seq<char>>, i: int)
    requires
        0 <= i < ls.len(),
    ensures
        only_own_tags(block(ls, i).0),
{
    lemma_literals();
    lemma_own_tags_plain(Seq::<char>::empty());
    let t = trim_end(ls[i]);
    lemma_fence_tags(ls, i);
    lemma_heading_tags(heading_level(t), heading_text(t));
    let kq = run_end(ls, i + 1, Run::Quote);
    lemma_quote_paras_tags(quote_text(ls, i, kq), 0);
    lemma_own3("<blockquote>"@, quote_paras(quote_text(ls, i, kq), 0), "</blockquote>\n"@);
    let kt = run_end(ls, i + 1, Run::Table);
    lemma_table_rows_tags(ls, i, i, kt, false);
    lemma_own3("<div class=\"table-scroll\"><table>"@, table_rows(ls, i, i, kt, false), "</table></div>\n"@);
    let kb = run_end(ls, i + 1, Run::Bullets);
    lemma_list_tags(ls, i, kb, Run::Bullets);
    lemma_own3("<ul>"@, list_items(ls, i, kb, Run::Bullets), "</ul>\n"@);
    let kn = run_end(ls, i + 1, Run::Numbered);
    lemma_list_tags(ls, i, kn, Run::Numbered);
    lemma_own3("<ol>"@, list_items(ls, i, kn, Run::Numbered), "</ol>\n"@);
    let kp = run_end(ls, i + 1, Run::Paragraph);
    lemma_inline_tags(para_text(ls, i, kp), 0);
    lemma_own3("<p>"@, inline_spec(para_text(ls, i, kp)), "</p>\n"@);
}

proof fn lemma_render_tags(ls: Seq<Seq<char>>, i: int)
    ensures
        only_own_tags(render_from(ls, i)),
    decreases ls.len() - i,
{
    if 0 <= i < ls.len() {
        lemma_block_next(ls, i);
        lemma_block_tags(ls, i);
        lemma_render_tags(ls, block(ls, i).1);
        lemma_own2(block(ls, i).0, render_from(ls, block(ls, i).1));
    } else {
        lemma_own_tags_plain(Seq::<char>::empty());
    }
}

/// No `<` of a markdown document reaches its HTML raw: every `<` that
/// `render` writes opens or closes one of the renderer's own tags (`pre`,
/// `code`, `h1` to `h4`, `a`, `hr`, `blockquote`, `p`, `div`, `table`,
/// `thead`, `tbody`, `tr`, `th`, `td`, `ul`, `ol`, `li`, `strong`).
pub proof fn law_render_only_own_tags(src: Seq<char>)
    ensures
        only_own_tags(render_spec(src)),
{
    lemma_render_tags(lines(src), 0);
}

// ---------------------------------------------------------------------
// Counting the tags of a table
// ---------------------------------------------------------------------

/// The number of places where `p` occurs in `s`.
pub open spec fn occurrences(s: Seq<char>, p: Seq<char>) -> nat
    decreases s.len(),
{
    if s.len() == 0 {
        0
    } else {
        (if starts_at(s, 0, p) {
            1nat
        } else {
            0nat
        }) + occurrences(s.drop_first(), p)
    }
}

/// A tag of a table's own: `<t`, then no other `<`, and `>` only at the
/// end.
pub open spec fn table_tag(p: Seq<char>) -> bool {
    &&& p.len() >= 3
    &&& p[0] == '<'
    &&& p[1] == 't'
    &&& p[p.len() - 1] == '>'
    &&& forall|x: int| 1 <= x < p.len() ==> #[trigger] p[x] != '<'
    &&& forall|x: int| 0 <= x < p.len() - 1 ==> #[trigger] p[x] != '>'
}

/// No `<` in `s` is its last character or followed by `t`.
pub open spec fn tidy(s: Seq<char>) -> bool {
    forall|k: int| 0 <= k < s.len() && #[trigger] s[k] == '<' ==> k + 1 < s.len() && s[k + 1] != 't'
}

/// Occurrences of a table tag add up over a join where no occurrence can
/// straddle: a part is empty, the left ends with `>`, or the right starts
/// with `<`.
proof fn lemma_occurrences_concat(a: Seq<char>, b: Seq<char>, p: Seq<char>)
    requires
        table_tag(p),
        a.len() == 0 || b.len() == 0 || a[a.len() - 1] == '>' || b[0] == '<',
    ensures
        occurrences(a + b, p) == occurrences(a, p) + occurrences(b, p),
    decreases a.len(),
{
    if a.len() == 0 {
        assert(a + b =~= b);
    } else if b.len() == 0 {
        assert(a + b =~= a);
        lemma_no_occurrences(b, p);
    } else {
        assert((a + b).drop_first() =~= a.drop_first() + b);
        lemma_occurrences_concat(a.drop_first(), b, p);
        if a.len() >= p.len() {
            assert((a + b).subrange(0, p.len() as int) =~= a.subrange(0, p.len() as int));
        } else if starts_at(a + b, 0, p) {
            let m = a.len() as int;
            assert((a + b).subrange(0, p.len() as int)[m - 1] == a[m - 1]);
            assert((a + b).subrange(0, p.len() as int)[m] == (a + b)[m]);
            assert(p[m - 1] != '>');
            assert(p[m] != '<');
        }
    }
}

/// A tidy text holds no table tag.
proof fn lemma_tidy_no_occurrences(s: Seq<char>, p: Seq<char>)
    requires
        tidy(s),
        table_tag(p),
    ensures
        occurrences(s, p) == 0,
    decreases s.len(),
{
    if s.len() > 0 {
        if starts_at(s, 0, p) {
            assert(s.subrange(0, p.len() as int)[0] == s[0]);
            assert(s.subrange(0, p.len() as int)[1] == s[1]);
        }
        assert forall|k: int| 0 <= k < s.drop_first().len() && #[trigger] s.drop_first()[k] == '<'
            implies k + 1 < s.drop_first().len() && s.drop_first()[k + 1] != 't' by {
            assert(s[k + 1] == '<');
        }
        lemma_tidy_no_occurrences(s.drop_first(), p);
    }
}

/// A text where `p` starts nowhere holds it nowhere.
proof fn lemma_no_occurrences(s: Seq<char>, p: Seq<char>)
    requires
        forall|k: int| 0 <= k < s.len() ==> !#[trigger] starts_at(s, k, p),
    ensures
        occurrences(s, p) == 0,
    decreases s.len(),
{
    if s.len() > 0 {
        assert forall|k: int| 0 <= k < s.drop_first().len() implies !#[trigger] starts_at(
            s.drop_first(),
            k,
            p,
        ) by {
            if starts_at(s.drop_first(), k, p) {
                assert(s.subrange(k + 1, k + 1 + p.len()) =~= s.drop_first().subrange(
                    k,
                    k + p.len(),
                ));
                assert(starts_at(s, k + 1, p));
            }
        }
        lemma_no_occurrences(s.drop_first(), p);
    }
}

/// A table tag occurs once in itself.
proof fn lemma_occurs_once(p: Seq<char>)
    requires
        table_tag(p),
    ensures
        occurrences(p, p) == 1,
{
    assert(p.subrange(0, p.len() as int) =~= p);
    lemma_no_occurrences(p.drop_first(), p);
}

proof fn lemma_tidy_concat(a: Seq<char>, b: Seq<char>)
    requires
        tidy(a),
        tidy(b),
    ensures
        tidy(a + b),
{
    let u = a + b;
    assert forall|k: int| 0 <= k < u.len() && #[trigger] u[k] == '<' implies k + 1 < u.len() && u[k
        + 1] != 't' by {
        if k < a.len() {
            assert(a[k] == '<');
        } else {
            assert(b[k - a.len()] == '<');
        }
    }
}

proof fn lemma_tidy_plain(s: Seq<char>)
    requires
        forall|k: int| 0 <= k < s.len() ==> s[k] != '<',
    ensures
        tidy(s),
{
}

/// The tags that inline markup writes never start with `<t`.
proof fn lemma_inline_tidy(s: Seq<char>, i: int)
    ensures
        tidy(inline_from(s, i)),
    decreases s.len() - i,
{
    assert(tidy("<code>"@)) by {
        reveal_strlit("<code>");
    }
    assert(tidy("</code>"@)) by {
        reveal_strlit("</code>");
    }
    assert(tidy("<strong>"@)) by {
        reveal_strlit("<strong>");
    }
    assert(tidy("</strong>"@)) by {
        reveal_strlit("</strong>");
    }
    assert(tidy("<a href=\""@)) by {
        reveal_strlit("<a href=\"");
    }
    assert(tidy("\">"@)) by {
        reveal_strlit("\">");
    }
    assert(tidy("</a>"@)) by {
        reveal_strlit("</a>");
    }
    lemma_tidy_plain(Seq::<char>::empty());
    if 0 <= i < s.len() {
        lemma_inline_spans(s, i);
        if let Some(e) = code_at(s, i) {
            lemma_esc_tidy(s.subrange(i + 1, e));
            lemma_inline_tidy(s, e + 1);
            lemma_tidy_concat("<code>"@, esc_seq(s.subrange(i + 1, e)));
            lemma_tidy_concat("<code>"@ + esc_seq(s.subrange(i + 1, e)), "</code>"@);
            lemma_tidy_concat(
                "<code>"@ + esc_seq(s.subrange(i + 1, e)) + "</code>"@,
                inline_from(s, e + 1),
            );
        } else if let Some(e) = bold_at(s, i) {
            lemma_inline_tidy(s.subrange(i + 2, e), 0);
            lemma_inline_tidy(s, e + 2);
            let inner = inline_from(s.subrange(i + 2, e), 0);
            lemma_tidy_concat("<strong>"@, inner);
            lemma_tidy_concat("<strong>"@ + inner, "</strong>"@);
            lemma_tidy_concat("<strong>"@ + inner + "</strong>"@, inline_from(s, e + 2));
        } else if let Some((c, e)) = link_at(s, i) {
            lemma_esc_tidy(s.subrange(c + 2, e));
            lemma_inline_tidy(s.subrange(i + 1, c), 0);
            lemma_inline_tidy(s, e + 1);
            let href = esc_seq(s.subrange(c + 2, e));
            let text = inline_from(s.subrange(i + 1, c), 0);
            lemma_tidy_concat("<a href=\""@, href);
            lemma_tidy_concat("<a href=\""@ + href, "\">"@);
            lemma_tidy_concat("<a href=\""@ + href + "\">"@, text);
            lemma_tidy_concat("<a href=\""@ + href + "\">"@ + text, "</a>"@);
            lemma_tidy_concat("<a href=\""@ + href + "\">"@ + text + "</a>"@, inline_from(s, e + 1));
        } else {
            lemma_inline_tidy(s, i + 1);
            assert(tidy(inline_char(s[i]))) by {
                reveal_strlit("&amp;");
                reveal_strlit("&lt;");
                reveal_strlit("&gt;");
            }
            lemma_tidy_concat(inline_char(s[i]), inline_from(s, i + 1));
        }
    }
}

proof fn lemma_esc_tidy(s: Seq<char>)
    ensures
        tidy(esc_seq(s)),
{
    let e = esc_seq(s);
    law_esc_no_markup(s);
    assert forall|k: int| 0 <= k < e.len() implies e[k] != '<' by {
        assert(!is_markup(e[k]));
    }
}

/// The three tags a table's rows are counted by.
proof fn lemma_table_tags()
    ensures
        table_tag("<tr>"@),
        table_tag("<thead>"@),
        table_tag("<tbody>"@),
{
    reveal_strlit("<tr>");
    reveal_strlit("<thead>");
    reveal_strlit("<tbody>");
}

/// `p` starts nowhere in `s` when no place of `s` has `<`, `t` and the
/// third character of `p` in a row.
proof fn lemma_no_prefix3(s: Seq<char>, p: Seq<char>)
    requires
        p.len() >= 3,
        forall|k: int|
            0 <= k && k + 2 < s.len() ==> !(#[trigger] s[k] == p[0] && s[k + 1] == p[1] && s[k + 2]
                == p[2]),
    ensures
        occurrences(s, p) == 0,
{
    assert forall|k: int| 0 <= k < s.len() implies !#[trigger] starts_at(s, k, p) by {
        if starts_at(s, k, p) {
            assert(s.subrange(k, k + p.len())[0] == s[k]);
            assert(s.subrange(k, k + p.len())[1] == s[k + 1]);
            assert(s.subrange(k, k + p.len())[2] == s[k + 2]);
        }
    }
    lemma_no_occurrences(s, p);
}
/// How often each of the three counted tags occurs in the fixed pieces of
/// a table.
proof fn lemma_table_literal_counts()
    ensures
        occurrences("<div class=\"table-scroll\"><table>"@, "<tr>"@) == 0,
        occurrences("</table></div>\n"@, "<tr>"@) == 0,
        occurrences("<td>"@, "<tr>"@) == 0,
        occurrences("</td>"@, "<tr>"@) == 0,
        occurrences("<th>"@, "<tr>"@) == 0,
        occurrences("</th>"@, "<tr>"@) == 0,
        occurrences("</tr>"@, "<tr>"@) == 0,
        occurrences("</thead>"@, "<tr>"@) == 0,
        occurrences("</tbody>"@, "<tr>"@) == 0,
        occurrences("<tr>"@, "<tr>"@) == 1,
        occurrences("<thead>"@, "<tr>"@) == 0,
        occurrences("<tbody>"@, "<tr>"@) == 0,
        occurrences("<div class=\"table-scroll\"><table>"@, "<thead>"@) == 0,
        occurrences("</table></div>\n"@, "<thead>"@) == 0,
        occurrences("<td>"@, "<thead>"@) == 0,
        occurrences("</td>"@, "<thead>"@) == 0,
        occurrences("<th>"@, "<thead>"@) == 0,
        occurrences("</th>"@, "<thead>"@) == 0,
        occurrences("</tr>"@, "<thead>"@) == 0,
        occurrences("</thead>"@, "<thead>"@) == 0,
        occurrences("</tbody>"@, "<thead>"@) == 0,
        occurrences("<tr>"@, "<thead>"@) == 0,
        occurrences("<thead>"@, "<thead>"@) == 1,
        occurrences("<tbody>"@, "<thead>"@) == 0,
        occurrences("<div class=\"table-scroll\"><table>"@, "<tbody>"@) == 0,
        occurrences("</table></div>\n"@, "<tbody>"@) == 0,
        occurrences("<td>"@, "<tbody>"@) == 0,
        occurrences("</td>"@, "<tbody>"@) == 0,
        occurrences("<th>"@, "<tbody>"@) == 0,
        occurrences("</th>"@, "<tbody>"@) == 0,
        occurrences("</tr>"@, "<tbody>"@) == 0,
        occurrences("</thead>"@, "<tbody>"@) == 0,
        occurrences("</tbody>"@, "<tbody>"@) == 0,
        occurrences("<tr>"@, "<tbody>"@) == 0,
        occurrences("<thead>"@, "<tbody>"@) == 0,
        occurrences("<tbody>"@, "<tbody>"@) == 1,
        "<tr>"@ != "<thead>"@,
        "<tr>"@ != "<tbody>"@,
        "<thead>"@ != "<tbody>"@,
        "<div class=\"table-scroll\"><table>"@[0] == '<',
        "</table></div>\n"@[0] == '<',
        "<td>"@[0] == '<',
        "</td>"@[0] == '<',
        "<th>"@[0] == '<',
        "</th>"@[0] == '<',
        "</tr>"@[0] == '<',
        "</thead>"@[0] == '<',
        "</tbody>"@[0] == '<',
        "<tr>"@[0] == '<',
        "<thead>"@[0] == '<',
        "<tbody>"@[0] == '<',
{
    lemma_table_tags();
    reveal_strlit("<div class=\"table-scroll\"><table>");
    reveal_strlit("</table></div>\n");
    reveal_strlit("<td>");
    reveal_strlit("</td>");
    reveal_strlit("<th>");
    reveal_strlit("</th>");
    reveal_strlit("</tr>");
    reveal_strlit("</thead>");
    reveal_strlit("</tbody>");
    reveal_strlit("<tr>");
    reveal_strlit("<thead>");
    reveal_strlit("<tbody>");
    lemma_occurs_once("<tr>"@);
    lemma_no_prefix3("<div class=\"table-scroll\"><table>"@, "<tr>"@);
    lemma_no_prefix3("</table></div>\n"@, "<tr>"@);
    lemma_no_prefix3("<td>"@, "<tr>"@);
    lemma_no_prefix3("</td>"@, "<tr>"@);
    lemma_no_prefix3("<th>"@, "<tr>"@);
    lemma_no_prefix3("</th>"@, "<tr>"@);
    lemma_no_prefix3("</tr>"@, "<tr>"@);
    lemma_no_prefix3("</thead>"@, "<tr>"@);
    lemma_no_prefix3("</tbody>"@, "<tr>"@);
    lemma_no_prefix3("<thead>"@, "<tr>"@);
    lemma_no_prefix3("<tbody>"@, "<tr>"@);
    lemma_occurs_once("<thead>"@);
    lemma_no_prefix3("<div class=\"table-scroll\"><table>"@, "<thead>"@);
    lemma_no_prefix3("</table></div>\n"@, "<thead>"@);
    lemma_no_prefix3("<td>"@, "<thead>"@);
    lemma_no_prefix3("</td>"@, "<thead>"@);
    lemma_no_occurrences("<th>"@, "<thead>"@);
    lemma_no_prefix3("</th>"@, "<thead>"@);
    lemma_no_prefix3("</tr>"@, "<thead>"@);
    lemma_no_prefix3("</thead>"@, "<thead>"@);
    lemma_no_prefix3("</tbody>"@, "<thead>"@);
    lemma_no_prefix3("<tr>"@, "<thead>"@);
    lemma_no_prefix3("<tbody>"@, "<thead>"@);
    lemma_occurs_once("<tbody>"@);
    lemma_no_prefix3("<div class=\"table-scroll\"><table>"@, "<tbody>"@);
    lemma_no_prefix3("</table></div>\n"@, "<tbody>"@);
    lemma_no_prefix3("<td>"@, "<tbody>"@);
    lemma_no_prefix3("</td>"@, "<tbody>"@);
    lemma_no_prefix3("<th>"@, "<tbody>"@);
    lemma_no_prefix3("</th>"@, "<tbody>"@);
    lemma_no_prefix3("</tr>"@, "<tbody>"@);
    lemma_no_prefix3("</thead>"@, "<tbody>"@);
    lemma_no_prefix3("</tbody>"@, "<tbody>"@);
    lemma_no_prefix3("<tr>"@, "<tbody>"@);
    lemma_no_prefix3("<thead>"@, "<tbody>"@);
    assert("<thead>"@.len() != "<tbody>"@.len() || "<thead>"@[2] != "<tbody>"@[2]);
}

/// The number of rows from `j` up to `k` that are not separators.
pub open spec fn kept_count(ls: Seq<Seq<char>>, j: int, k: int) -> nat
    decreases k - j,
{
    if j >= k {
        0
    } else {
        (if kept_row(ls, j) {
            1nat
        } else {
            0nat
        }) + kept_count(ls, j + 1, k)
    }
}

proof fn lemma_kept_count_any(ls: Seq<Seq<char>>, j: int, k: int)
    ensures
        (kept_count(ls, j, k) > 0) == any_kept(ls, j, k),
    decreases k - j,
{
    if j < k {
        lemma_kept_count_any(ls, j + 1, k);
    }
}

/// One of the three counted tags.
pub open spec fn counted_tag(p: Seq<char>) -> bool {
    p == "<tr>"@ || p == "<thead>"@ || p == "<tbody>"@
}

proof fn lemma_cells_count(cells: Seq<Seq<char>>, m: int, header: bool, p: Seq<char>)
    requires
        counted_tag(p),
    ensures
        occurrences(cells_html(cells, m, header), p) == 0,
    decreases cells.len() - m,
{
    lemma_table_tags();
    lemma_table_literal_counts();
    if 0 <= m < cells.len() {
        let (open, close) = if header {
            ("<th>"@, "</th>"@)
        } else {
            ("<td>"@, "</td>"@)
        };
        let text = inline_spec(cells[m]);
        lemma_inline_tidy(cells[m], 0);
        lemma_tidy_no_occurrences(text, p);
        reveal_strlit("<th>");
        reveal_strlit("<td>");
        reveal_strlit("</th>");
        reveal_strlit("</td>");
        lemma_occurrences_concat(open, text, p);
        lemma_occurrences_concat(open + text, close, p);
        lemma_cells_count(cells, m + 1, header, p);
        lemma_occurrences_concat(open + text + close, cells_html(cells, m + 1, header), p);
    } else {
        lemma_no_occurrences(cells_html(cells, m, header), p);
    }
}

/// `"<tr>"`, a row's cells and `"</tr>"`: one `<tr>` and nothing else
/// counted.
proof fn lemma_row_count(cells: Seq<Seq<char>>, header: bool, p: Seq<char>)
    requires
        counted_tag(p),
    ensures
        occurrences("<tr>"@ + cells_html(cells, 0, header) + "</tr>"@, p) == if p == "<tr>"@ {
            1nat
        } else {
            0nat
        },
{
    lemma_table_tags();
    lemma_table_literal_counts();
    lemma_cells_count(cells, 0, header, p);
    reveal_strlit("<tr>");
    lemma_occurrences_concat("<tr>"@, cells_html(cells, 0, header), p);
    lemma_occurrences_concat("<tr>"@ + cells_html(cells, 0, header), "</tr>"@, p);
}

proof fn lemma_body_rows_count(ls: Seq<Seq<char>>, j: int, k: int, p: Seq<char>)
    requires
        0 <= j <= k <= ls.len(),
        counted_tag(p),
    ensures
        occurrences(body_rows(ls, j, k), p) == if p == "<tr>"@ {
            kept_count(ls, j, k)
        } else {
            0nat
        },
    decreases k - j,
{
    lemma_table_tags();
    lemma_table_literal_counts();
    if j < k {
        lemma_body_rows_count(ls, j + 1, k, p);
        let cells = row_cells(trim_end(ls[j]));
        let row = if kept_row(ls, j) {
            "<tr>"@ + cells_html(cells, 0, false) + "</tr>"@
        } else {
            Seq::empty()
        };
        if kept_row(ls, j) {
            lemma_row_count(cells, false, p);
            reveal_strlit("</tr>");
        } else {
            lemma_no_occurrences(row, p);
        }
        lemma_occurrences_concat(row, body_rows(ls, j + 1, k), p);
    } else {
        lemma_no_occurrences(body_rows(ls, j, k), p);
    }
}

proof fn lemma_table_count(ls: Seq<Seq<char>>, i: int, k: int, p: Seq<char>)
    requires
        0 <= i < k <= ls.len(),
        counted_tag(p),
    ensures
        occurrences(table_html(ls, i, k), p) == if p == "<tr>"@ {
            kept_count(ls, i, k)
        } else if p == "<thead>"@ {
            if kept_row(ls, i) {
                1nat
            } else {
                0nat
            }
        } else if any_kept(ls, i + 1, k) {
            1nat
        } else {
            0nat
        },
{
    lemma_table_tags();
    lemma_table_literal_counts();
    law_table_shape(ls, i, k);
    lemma_kept_count_any(ls, i + 1, k);
    let l1 = "<div class=\"table-scroll\"><table>"@;
    let l2 = "</table></div>\n"@;
    let cells = row_cells(trim_end(ls[i]));
    let head = if kept_row(ls, i) {
        "<thead>"@ + "<tr>"@ + cells_html(cells, 0, true) + "</tr>"@ + "</thead>"@
    } else {
        Seq::empty()
    };
    let body = if any_kept(ls, i + 1, k) {
        "<tbody>"@ + body_rows(ls, i + 1, k) + "</tbody>"@
    } else {
        Seq::empty()
    };
    if kept_row(ls, i) {
        lemma_row_count(cells, true, p);
        assert("<thead>"@ + "<tr>"@ + cells_html(cells, 0, true) + "</tr>"@ =~= "<thead>"@ + (
        "<tr>"@ + cells_html(cells, 0, true) + "</tr>"@));
        lemma_occurrences_concat("<thead>"@, "<tr>"@ + cells_html(cells, 0, true) + "</tr>"@, p);
        lemma_occurrences_concat(
            "<thead>"@ + "<tr>"@ + cells_html(cells, 0, true) + "</tr>"@,
            "</thead>"@,
            p,
        );
        assert(head[0] == '<');
    } else {
        lemma_no_occurrences(head, p);
    }
    if any_kept(ls, i + 1, k) {
        lemma_body_rows_count(ls, i + 1, k, p);
        lemma_occurrences_concat("<tbody>"@, body_rows(ls, i + 1, k), p);
        lemma_occurrences_concat("<tbody>"@ + body_rows(ls, i + 1, k), "</tbody>"@, p);
        assert(body[0] == '<');
    } else {
        lemma_no_occurrences(body, p);
    }
    lemma_occurrences_concat(l1, head, p);
    lemma_occurrences_concat(l1 + head, body, p);
    lemma_occurrences_concat(l1 + head + body, l2, p);
}

/// A table has one `<tr>` for each row that is not a separator, a
/// `<thead>` exactly when its first row is kept, and a `<tbody>` exactly
/// when a later row is.
pub proof fn law_table_tag_counts(ls: Seq<Seq<char>>, i: int, k: int)
    requires
        0 <= i < k <= ls.len(),
    ensures
        occurrences(table_html(ls, i, k), "<tr>"@) == kept_count(ls, i, k),
        occurrences(table_html(ls, i, k), "<thead>"@) == if kept_row(ls, i) {
            1nat
        } else {
            0nat
        },
        occurrences(table_html(ls, i, k), "<tbody>"@) == if any_kept(ls, i + 1, k) {
            1nat
        } else {
            0nat
        },
{
    lemma_table_literal_counts();
    lemma_table_count(ls, i, k, "<tr>"@);
    lemma_table_count(ls, i, k, "<thead>"@);
    lemma_table_count(ls, i, k, "<tbody>"@);
}

} // verus!
