//! A renderer for the markdown subset that documentation pages use:
//! headings with anchor slugs, paragraphs, lists, fenced code, inline
//! code, bold and links, tables, and blockquote callouts.
use vstd::prelude::*;

use crate::html::{esc_into, esc_seq, lemma_unescape_esc_then, unescape};
use crate::text::{
    is_ws, lines_from, strip_cr, trim_end_len,
    chars_of, copy_range, find_char, find_from, find_pair, find_pair_from, lemma_find_from,
    lemma_find_pair_from, lemma_trim_end_len_c, lemma_trim_start_at_c, lines, lines_view,
    push_range, split_lines, trim, trim_end, trim_end_len_c, trim_end_vec, trim_matches,
    trim_matches_vec, trim_start_at_c, trim_vec,
};

verus! {

// ---------------------------------------------------------------------
// Inline markup
// ---------------------------------------------------------------------

/// A code span opening at `i`: the position of its closing backtick.
pub open spec fn code_at(s: Seq<char>, i: int) -> Option<int> {
    if 0 <= i < s.len() && s[i] == '`' {
        find_from(s, i + 1, '`')
    } else {
        None
    }
}

/// Bold text opening at `i`: the position of its closing `**`.
pub open spec fn bold_at(s: Seq<char>, i: int) -> Option<int> {
    if 0 <= i && i + 1 < s.len() && s[i] == '*' && s[i + 1] == '*' {
        find_pair_from(s, i + 2, '*', '*')
    } else {
        None
    }
}

/// A link `[text](url)` opening at `i`: the positions of its `](` and of
/// the `)` that closes the url.
pub open spec fn link_at(s: Seq<char>, i: int) -> Option<(int, int)> {
    if 0 <= i < s.len() && s[i] == '[' {
        match find_pair_from(s, i, ']', '(') {
            Some(c) => match find_from(s, c + 2, ')') {
                Some(e) => Some((c, e)),
                None => None,
            },
            None => None,
        }
    } else {
        None
    }
}

/// What a plain character of inline text becomes.
pub open spec fn inline_char(c: char) -> Seq<char> {
    if c == '&' {
        "&amp;"@
    } else if c == '<' {
        "&lt;"@
    } else if c == '>' {
        "&gt;"@
    } else {
        seq![c]
    }
}

pub proof fn lemma_inline_spans(s: Seq<char>, i: int)
    ensures
        code_at(s, i) matches Some(e) ==> 0 <= i < e < s.len(),
        bold_at(s, i) matches Some(e) ==> 0 <= i && i + 2 <= e && e + 1 < s.len(),
        link_at(s, i) matches Some((c, e)) ==> 0 <= i < c && c + 2 <= e < s.len(),
{
    lemma_find_from(s, i + 1, '`');
    lemma_find_pair_from(s, i + 2, '*', '*');
    lemma_find_pair_from(s, i, ']', '(');
    if let Some(c) = find_pair_from(s, i, ']', '(') {
        lemma_find_from(s, c + 2, ')');
    }
}

/// The HTML for the inline markup of `s[i..]`: code spans, bold, links,
/// and plain text with `&`, `<` and `>` escaped.
pub open spec fn inline_from(s: Seq<char>, i: int) -> Seq<char>
    decreases s.len() - i,
{
    if i < 0 || i >= s.len() {
        Seq::empty()
    } else {
        proof {
            lemma_inline_spans(s, i);
        }
        if let Some(e) = code_at(s, i) {
            "<code>"@ + esc_seq(s.subrange(i + 1, e)) + "</code>"@ + inline_from(s, e + 1)
        } else if let Some(e) = bold_at(s, i) {
            "<strong>"@ + inline_from(s.subrange(i + 2, e), 0) + "</strong>"@ + inline_from(
                s,
                e + 2,
            )
        } else if let Some((c, e)) = link_at(s, i) {
            "<a href=\""@ + esc_seq(s.subrange(c + 2, e)) + "\">"@ + inline_from(
                s.subrange(i + 1, c),
                0,
            ) + "</a>"@ + inline_from(s, e + 1)
        } else {
            inline_char(s[i]) + inline_from(s, i + 1)
        }
    }
}

/// The HTML for the inline markup of `s`.
pub open spec fn inline_spec(s: Seq<char>) -> Seq<char> {
    inline_from(s, 0)
}

/// Text without any of the characters that inline markup reads.
pub open spec fn is_plain_inline(s: Seq<char>) -> bool {
    forall|k: int|
        0 <= k < s.len() ==> {
            let c = #[trigger] s[k];
            c != '`' && c != '*' && c != '[' && c != '&' && c != '<' && c != '>'
        }
}

proof fn lemma_inline_plain_from(s: Seq<char>, i: int)
    requires
        is_plain_inline(s),
        0 <= i <= s.len(),
    ensures
        inline_from(s, i) == s.skip(i),
    decreases s.len() - i,
{
    if i < s.len() {
        lemma_inline_plain_from(s, i + 1);
        let c = s[i];
        assert(c != '`' && c != '*' && c != '[' && c != '&' && c != '<' && c != '>');
        assert(s.skip(i) =~= seq![c] + s.skip(i + 1));
    } else {
        assert(s.skip(i) =~= Seq::<char>::empty());
    }
}

/// Text without markup characters (no backtick, `*`, `[`, `&`, `<`, `>`)
/// comes out of inline rendering unchanged.
pub proof fn law_inline_plain(s: Seq<char>)
    requires
        is_plain_inline(s),
    ensures
        inline_spec(s) == s,
{
    lemma_inline_plain_from(s, 0);
    assert(s.skip(0) =~= s);
}

// ---------------------------------------------------------------------
// Slugs
// ---------------------------------------------------------------------

pub open spec fn is_ascii_alnum(c: char) -> bool {
    ('a' <= c && c <= 'z') || ('A' <= c && c <= 'Z') || ('0' <= c && c <= '9')
}

pub open spec fn ascii_lower(c: char) -> char {
    if 'A' <= c && c <= 'Z' {
        ((c as u8) + 32u8) as char
    } else {
        c
    }
}

/// One character's step in building a slug.
pub open spec fn slug_step(s: Seq<char>, c: char) -> Seq<char> {
    if is_ascii_alnum(c) {
        s.push(ascii_lower(c))
    } else if (c == ' ' || c == '-' || c == '_') && !(s.len() > 0 && s.last() == '-') {
        s.push('-')
    } else {
        s
    }
}

/// The slug of `t` before its outer dashes are trimmed.
pub open spec fn slug_raw(t: Seq<char>) -> Seq<char>
    decreases t.len(),
{
    if t.len() == 0 {
        Seq::empty()
    } else {
        slug_step(slug_raw(t.drop_last()), t.last())
    }
}

/// The anchor slug of a heading's text: ASCII letters and digits in lower
/// case, each run of spaces, dashes and underscores one dash, all else
/// dropped, and no dash at either end.
pub open spec fn slug_spec(t: Seq<char>) -> Seq<char> {
    trim_matches(slug_raw(t), '-')
}

/// A character that a slug may hold.
pub open spec fn is_slug_char(c: char) -> bool {
    ('a' <= c && c <= 'z') || ('0' <= c && c <= '9') || c == '-'
}

/// Slug characters only, with no two dashes in a row.
pub open spec fn dash_separated(s: Seq<char>) -> bool {
    &&& forall|k: int| 0 <= k < s.len() ==> is_slug_char(#[trigger] s[k])
    &&& forall|k: int| 0 <= k && k + 1 < s.len() ==> !(#[trigger] s[k] == '-' && s[k + 1] == '-')
}

/// The shape of a slug: lower-case letters, digits and single dashes, with
/// no dash at either end.
pub open spec fn is_slug(s: Seq<char>) -> bool {
    &&& dash_separated(s)
    &&& s.len() > 0 ==> s[0] != '-' && s[s.len() - 1] != '-'
}

proof fn lemma_slug_raw_shape(t: Seq<char>)
    ensures
        dash_separated(slug_raw(t)),
    decreases t.len(),
{
    if t.len() > 0 {
        lemma_slug_raw_shape(t.drop_last());
        let s = slug_raw(t.drop_last());
        let c = t.last();
        let r = slug_step(s, c);
        assert forall|k: int| 0 <= k < r.len() implies is_slug_char(#[trigger] r[k]) by {
            if k < s.len() {
                assert(r[k] == s[k]);
            }
        }
        assert forall|k: int| 0 <= k && k + 1 < r.len() implies !(#[trigger] r[k] == '-' && r[k
            + 1] == '-') by {
            if k + 1 < s.len() {
                assert(r[k] == s[k] && r[k + 1] == s[k + 1]);
            }
        }
    }
}

proof fn lemma_trim_dashes(s: Seq<char>)
    requires
        dash_separated(s),
    ensures
        is_slug(trim_matches(s, '-')),
{
    let n = s.len() as int;
    lemma_trim_end_len_c(s, n, '-');
    let e = trim_end_len_c(s, n, '-');
    let t = s.take(e);
    lemma_trim_start_at_c(t, 0, '-');
    let i = trim_start_at_c(t, 0, '-');
    let r = t.skip(i);
    assert(r =~= s.subrange(i, e));
    assert forall|k: int| 0 <= k < r.len() implies is_slug_char(#[trigger] r[k]) by {
        assert(r[k] == s[i + k]);
    }
    assert forall|k: int| 0 <= k && k + 1 < r.len() implies !(#[trigger] r[k] == '-' && r[k + 1]
        == '-') by {
        assert(r[k] == s[i + k] && r[k + 1] == s[i + k + 1]);
    }
}

/// Every slug has the shape of one: lower-case letters, digits and single
/// dashes, with no dash at either end.
pub proof fn law_slug_shape(t: Seq<char>)
    ensures
        is_slug(slug_spec(t)),
{
    lemma_slug_raw_shape(t);
    lemma_trim_dashes(slug_raw(t));
}

proof fn lemma_slug_raw_of_slug(r: Seq<char>, n: int)
    requires
        is_slug(r),
        0 <= n <= r.len(),
    ensures
        slug_raw(r.take(n)) == r.take(n),
    decreases n,
{
    if n > 0 {
        lemma_slug_raw_of_slug(r, n - 1);
        assert(r.take(n).drop_last() =~= r.take(n - 1));
        assert(r.take(n).last() == r[n - 1]);
        let c = r[n - 1];
        assert(is_slug_char(c));
        if c == '-' {
            assert(n - 1 > 0);
            assert(r[n - 2] != '-');
            assert(r.take(n - 1).last() == r[n - 2]);
        }
        assert(r.take(n) =~= r.take(n - 1).push(c));
    }
}

proof fn lemma_slug_raw_drop(a: Seq<char>, c: char, b: Seq<char>)
    requires
        !is_ascii_alnum(c),
        c != ' ' && c != '-' && c != '_',
    ensures
        slug_raw(a + seq![c] + b) == slug_raw(a + b),
    decreases b.len(),
{
    if b.len() == 0 {
        assert(a + seq![c] + b =~= (a + b).push(c));
        assert((a + seq![c] + b).drop_last() =~= a + b);
    } else {
        lemma_slug_raw_drop(a, c, b.drop_last());
        assert((a + seq![c] + b).drop_last() =~= a + seq![c] + b.drop_last());
        assert((a + b).drop_last() =~= a + b.drop_last());
    }
}

/// Characters other than ASCII letters, digits, spaces, dashes and
/// underscores leave no trace in a slug: the slug of a text is the slug of
/// the text without such a character.
pub proof fn law_slug_drops_other_chars(a: Seq<char>, c: char, b: Seq<char>)
    requires
        !is_ascii_alnum(c),
        c != ' ' && c != '-' && c != '_',
    ensures
        slug_spec(a + seq![c] + b) == slug_spec(a + b),
{
    lemma_slug_raw_drop(a, c, b);
}

/// A slug is its own slug: slugging twice is slugging once.
pub proof fn law_slug_idempotent(t: Seq<char>)
    ensures
        slug_spec(slug_spec(t)) == slug_spec(t),
{
    law_slug_shape(t);
    let r = slug_spec(t);
    lemma_slug_raw_of_slug(r, r.len() as int);
    assert(r.take(r.len() as int) =~= r);
    let n = r.len() as int;
    assert(trim_end_len_c(r, n, '-') == n);
    assert(r.take(n) =~= r);
    assert(trim_start_at_c(r, 0, '-') == 0);
    assert(r.skip(0) =~= r);
}

/// The ASCII letters and digits of `t`, in lower case.
pub open spec fn slug_letters(t: Seq<char>) -> Seq<char>
    decreases t.len(),
{
    if t.len() == 0 {
        Seq::empty()
    } else {
        slug_letters(t.drop_last()) + (if is_ascii_alnum(t.last()) {
            seq![ascii_lower(t.last())]
        } else {
            Seq::empty()
        })
    }
}

/// `s` with its dashes removed.
pub open spec fn without_dashes(s: Seq<char>) -> Seq<char>
    decreases s.len(),
{
    if s.len() == 0 {
        Seq::empty()
    } else {
        without_dashes(s.drop_last()) + (if s.last() == '-' {
            Seq::empty()
        } else {
            seq![s.last()]
        })
    }
}

proof fn lemma_without_dashes_concat(a: Seq<char>, b: Seq<char>)
    ensures
        without_dashes(a + b) == without_dashes(a) + without_dashes(b),
    decreases b.len(),
{
    if b.len() == 0 {
        assert(a + b =~= a);
        assert(without_dashes(a) + without_dashes(b) =~= without_dashes(a));
    } else {
        lemma_without_dashes_concat(a, b.drop_last());
        assert((a + b).drop_last() =~= a + b.drop_last());
        assert((a + b).last() == b.last());
    }
}

proof fn lemma_without_dashes_all_dashes(s: Seq<char>)
    requires
        forall|x: int| 0 <= x < s.len() ==> s[x] == '-',
    ensures
        without_dashes(s) == Seq::<char>::empty(),
    decreases s.len(),
{
    if s.len() > 0 {
        lemma_without_dashes_all_dashes(s.drop_last());
    }
}

proof fn lemma_slug_raw_letters(t: Seq<char>)
    ensures
        without_dashes(slug_raw(t)) == slug_letters(t),
    decreases t.len(),
{
    if t.len() > 0 {
        lemma_slug_raw_letters(t.drop_last());
        lemma_slug_raw_shape(t);
        let s = slug_raw(t.drop_last());
        let c = t.last();
        if is_ascii_alnum(c) {
            let r = slug_raw(t);
            assert(r == s.push(ascii_lower(c)));
            assert(is_slug_char(r[r.len() - 1]));
            assert(ascii_lower(c) != '-');
            assert(r.drop_last() =~= s);
        } else if (c == ' ' || c == '-' || c == '_') && !(s.len() > 0 && s.last() == '-') {
            assert(s.push('-').drop_last() =~= s);
        }
    }
}

proof fn lemma_trim_end_len_c_removed(s: Seq<char>, n: int, c: char)
    requires
        0 <= n <= s.len(),
    ensures
        forall|x: int| trim_end_len_c(s, n, c) <= x < n ==> s[x] == c,
    decreases n,
{
    if 0 < n && s[n - 1] == c {
        lemma_trim_end_len_c_removed(s, n - 1, c);
    }
}

proof fn lemma_trim_start_at_c_removed(s: Seq<char>, i: int, c: char)
    requires
        0 <= i <= s.len(),
    ensures
        forall|x: int| i <= x < trim_start_at_c(s, i, c) ==> s[x] == c,
    decreases s.len() - i,
{
    if i < s.len() && s[i] == c {
        lemma_trim_start_at_c_removed(s, i + 1, c);
    }
}

/// A slug keeps every ASCII letter and digit of its text, in lower case
/// and in order: removing its dashes leaves exactly those.
pub proof fn law_slug_letters(t: Seq<char>)
    ensures
        without_dashes(slug_spec(t)) == slug_letters(t),
{
    lemma_slug_raw_letters(t);
    let s = slug_raw(t);
    let n = s.len() as int;
    lemma_trim_end_len_c(s, n, '-');
    lemma_trim_end_len_c_removed(s, n, '-');
    let e = trim_end_len_c(s, n, '-');
    let u = s.take(e);
    lemma_trim_start_at_c(u, 0, '-');
    lemma_trim_start_at_c_removed(u, 0, '-');
    let i = trim_start_at_c(u, 0, '-');
    let head = u.take(i);
    let mid = u.skip(i);
    let tail = s.skip(e);
    assert(s =~= head + mid + tail);
    lemma_without_dashes_concat(head + mid, tail);
    lemma_without_dashes_concat(head, mid);
    lemma_without_dashes_all_dashes(head);
    lemma_without_dashes_all_dashes(tail);
    assert(without_dashes(s) =~= without_dashes(mid));
}

// ---------------------------------------------------------------------
// Line kinds (each on a line with its trailing whitespace trimmed)
// ---------------------------------------------------------------------

/// A code fence: the line starts with three backticks.
pub open spec fn is_fence(t: Seq<char>) -> bool {
    t.len() >= 3 && t[0] == '`' && t[1] == '`' && t[2] == '`'
}

/// Where the run of `c`s starting at `k` ends.
pub open spec fn run_of(t: Seq<char>, k: int, c: char) -> int
    decreases t.len() - k,
{
    if 0 <= k < t.len() && t[k] == c {
        run_of(t, k + 1, c)
    } else {
        k
    }
}

pub open spec fn is_digit(c: char) -> bool {
    '0' <= c && c <= '9'
}

/// Where the run of ASCII digits starting at `k` ends.
pub open spec fn digit_run(t: Seq<char>, k: int) -> int
    decreases t.len() - k,
{
    if 0 <= k < t.len() && is_digit(t[k]) {
        digit_run(t, k + 1)
    } else {
        k
    }
}

/// The level of a heading line (one to four `#` and a space), or 0.
pub open spec fn heading_level(t: Seq<char>) -> int {
    let h = run_of(t, 0, '#');
    if 1 <= h <= 4 && h < t.len() && t[h] == ' ' {
        h
    } else {
        0
    }
}

/// The text of a heading line.
pub open spec fn heading_text(t: Seq<char>) -> Seq<char> {
    trim(t.skip(heading_level(t) + 1))
}

/// A horizontal rule: the line is `---`.
pub open spec fn is_hr(t: Seq<char>) -> bool {
    t.len() == 3 && t[0] == '-' && t[1] == '-' && t[2] == '-'
}

/// A line that starts with `> `.
pub open spec fn quote_prefixed(t: Seq<char>) -> bool {
    t.len() >= 2 && t[0] == '>' && t[1] == ' '
}

/// A blockquote line: `> ` and text, or `>` alone.
pub open spec fn is_quote(t: Seq<char>) -> bool {
    quote_prefixed(t) || (t.len() == 1 && t[0] == '>')
}

/// A table row: the line starts with `|`.
pub open spec fn is_row(t: Seq<char>) -> bool {
    t.len() >= 1 && t[0] == '|'
}

/// A bullet item: the line starts with `- `.
pub open spec fn is_bullet(t: Seq<char>) -> bool {
    t.len() >= 2 && t[0] == '-' && t[1] == ' '
}

/// A numbered item (digits, `.` and a space): where its text starts.
pub open spec fn ordered_at(t: Seq<char>) -> Option<int> {
    let d = digit_run(t, 0);
    if d > 0 && d + 2 <= t.len() && t[d] == '.' && t[d + 1] == ' ' {
        Some(d + 2)
    } else {
        None
    }
}

/// A line that ends a paragraph.
pub open spec fn para_break(t: Seq<char>) -> bool {
    ||| t.len() == 0
    ||| t[0] == '#'
    ||| is_fence(t)
    ||| is_bullet(t)
    ||| quote_prefixed(t)
    ||| is_row(t)
    ||| is_hr(t)
    ||| ordered_at(t) is Some
}

/// The kinds of block that run over consecutive lines.
#[derive(Clone, Copy)]
pub enum Run {
    /// the inside of a fenced code block, up to its closing fence
    Code,
    Quote,
    Table,
    Bullets,
    Numbered,
    Paragraph,
}

/// Whether a line (trailing whitespace trimmed) continues a block of `kind`.
pub open spec fn continues(kind: Run, t: Seq<char>) -> bool {
    match kind {
        Run::Code => !is_fence(t),
        Run::Quote => is_quote(t),
        Run::Table => is_row(t),
        Run::Bullets => is_bullet(t),
        Run::Numbered => ordered_at(t) is Some,
        Run::Paragraph => !para_break(t),
    }
}

/// The first line at or after `j` that does not continue a block of `kind`,
/// or the number of lines.
pub open spec fn run_end(ls: Seq<Seq<char>>, j: int, kind: Run) -> int
    decreases ls.len() - j,
{
    if j < 0 || j >= ls.len() {
        j
    } else if continues(kind, trim_end(ls[j])) {
        run_end(ls, j + 1, kind)
    } else {
        j
    }
}

pub proof fn lemma_run_end(ls: Seq<Seq<char>>, j: int, kind: Run)
    requires
        0 <= j <= ls.len(),
    ensures
        j <= run_end(ls, j, kind) <= ls.len(),
        forall|k: int| j <= k < run_end(ls, j, kind) ==> continues(kind, #[trigger] trim_end(ls[k])),
        run_end(ls, j, kind) < ls.len() ==> !continues(kind, trim_end(ls[run_end(ls, j, kind)])),
    decreases ls.len() - j,
{
    if j < ls.len() && continues(kind, trim_end(ls[j])) {
        lemma_run_end(ls, j + 1, kind);
    }
}

// ---------------------------------------------------------------------
// Blocks
// ---------------------------------------------------------------------

/// The lines `ls[a..b]` inside a code block, each escaped and ended by `\n`.
pub open spec fn code_lines(ls: Seq<Seq<char>>, a: int, b: int) -> Seq<char>
    decreases b - a,
{
    if a >= b || a < 0 || b > ls.len() {
        Seq::empty()
    } else {
        esc_seq(ls[a]) + seq!['\n'] + code_lines(ls, a + 1, b)
    }
}

/// The lines `ls[a..b]` as they stand, each ended by `\n`.
pub open spec fn raw_lines(ls: Seq<Seq<char>>, a: int, b: int) -> Seq<char>
    decreases b - a,
{
    if a >= b || a < 0 || b > ls.len() {
        Seq::empty()
    } else {
        ls[a] + seq!['\n'] + raw_lines(ls, a + 1, b)
    }
}

/// A code block keeps its lines verbatim: unescaping what it writes gives
/// back each line as it stands, ended by `\n`.
pub proof fn law_code_verbatim(ls: Seq<Seq<char>>, a: int, b: int)
    ensures
        unescape(code_lines(ls, a, b)) == raw_lines(ls, a, b),
    decreases b - a,
{
    if !(a >= b || a < 0 || b > ls.len()) {
        law_code_verbatim(ls, a + 1, b);
        let rest = code_lines(ls, a + 1, b);
        assert(code_lines(ls, a, b) =~= esc_seq(ls[a]) + (seq!['\n'] + rest));
        lemma_unescape_esc_then(ls[a], seq!['\n'] + rest);
        assert(unescape(seq!['\n'] + rest) == seq!['\n'] + unescape((seq!['\n'] + rest).drop_first()));
        assert((seq!['\n'] + rest).drop_first() =~= rest);
        assert(raw_lines(ls, a, b) =~= ls[a] + (seq!['\n'] + raw_lines(ls, a + 1, b)));
    } else {
        assert(unescape(Seq::<char>::empty()) == Seq::<char>::empty());
    }
}

/// The language named after an opening fence.
pub open spec fn fence_lang(t: Seq<char>) -> Seq<char> {
    trim(t.skip(3))
}

/// The HTML for the code block that opens at line `i`.
pub open spec fn fence_html(ls: Seq<Seq<char>>, i: int) -> Seq<char> {
    let lang = fence_lang(trim_end(ls[i]));
    let k = run_end(ls, i + 1, Run::Code);
    "<pre class=\"code\"><code"@ + (if lang.len() > 0 {
        " data-lang=\""@ + esc_seq(lang) + "\""@
    } else {
        Seq::empty()
    }) + ">"@ + code_lines(ls, i + 1, k) + "</code></pre>\n"@
}

/// The line after the code block that opens at line `i` (its closing
/// fence is part of it).
pub open spec fn fence_next(ls: Seq<Seq<char>>, i: int) -> int {
    let k = run_end(ls, i + 1, Run::Code);
    if k < ls.len() {
        k + 1
    } else {
        k
    }
}

pub open spec fn level_digit(level: int) -> char {
    if level == 1 {
        '1'
    } else if level == 2 {
        '2'
    } else if level == 3 {
        '3'
    } else {
        '4'
    }
}

/// The HTML for a heading line: its id is the slug of its text, and it
/// ends with an anchor that links to itself.
pub open spec fn heading_html(t: Seq<char>) -> Seq<char> {
    heading_html_of(heading_level(t), heading_text(t))
}

/// The HTML for a heading of `level` whose text is `text`.
pub open spec fn heading_html_of(level: int, text: Seq<char>) -> Seq<char> {
    let level = seq![level_digit(level)];
    let id = slug_spec(text);
    "<h"@ + level + " id=\""@ + id + "\">"@ + inline_spec(text) + "<a class=\"anchor\" href=\"#"@
        + id + "\" aria-label=\"link to this section\">#</a></h"@ + level + ">\n"@
}

/// What a blockquote line adds to the text of its quote: an empty line
/// starts a new paragraph, and the text of others is joined by a space.
pub open spec fn push_quote(q: Seq<char>, t: Seq<char>) -> Seq<char> {
    let content = if quote_prefixed(t) {
        t.skip(2)
    } else {
        Seq::empty()
    };
    if content.len() == 0 {
        q + seq!['\n', '\n']
    } else if q.len() > 0 && !(q.len() >= 2 && q[q.len() - 1] == '\n' && q[q.len() - 2] == '\n') {
        q.push(' ') + content
    } else {
        q + content
    }
}

/// The text of the blockquote lines `ls[a..b]`.
pub open spec fn quote_text(ls: Seq<Seq<char>>, a: int, b: int) -> Seq<char>
    decreases b - a,
{
    if b <= a || a < 0 || b > ls.len() {
        Seq::empty()
    } else {
        push_quote(quote_text(ls, a, b - 1), trim_end(ls[b - 1]))
    }
}

/// A paragraph of a blockquote, unless it is blank.
pub open spec fn quote_para_html(p: Seq<char>) -> Seq<char> {
    if trim(p).len() == 0 {
        Seq::empty()
    } else {
        "<p>"@ + inline_spec(trim(p)) + "</p>"@
    }
}

/// The paragraphs of the quote text `q[start..]`, split at each `\n\n`.
pub open spec fn quote_paras(q: Seq<char>, start: int) -> Seq<char>
    decreases q.len() - start,
{
    if start < 0 || start > q.len() {
        Seq::empty()
    } else {
        match find_pair_from(q, start, '\n', '\n') {
            Some(j) => {
                proof {
                    lemma_find_pair_from(q, start, '\n', '\n');
                }
                quote_para_html(q.subrange(start, j)) + quote_paras(q, j + 2)
            },
            None => quote_para_html(q.subrange(start, q.len() as int)),
        }
    }
}

/// The HTML for the blockquote on lines `ls[i..k]`.
pub open spec fn quote_html(ls: Seq<Seq<char>>, i: int, k: int) -> Seq<char> {
    "<blockquote>"@ + quote_paras(quote_text(ls, i, k), 0) + "</blockquote>\n"@
}

/// The pieces of `s[start..]` between `|`s, each trimmed.
pub open spec fn cells_from(s: Seq<char>, start: int) -> Seq<Seq<char>>
    decreases s.len() - start,
{
    if start < 0 || start > s.len() {
        Seq::empty()
    } else {
        match find_from(s, start, '|') {
            Some(j) => {
                proof {
                    lemma_find_from(s, start, '|');
                }
                seq![trim(s.subrange(start, j))] + cells_from(s, j + 1)
            },
            None => seq![trim(s.subrange(start, s.len() as int))],
        }
    }
}

/// The cells of a table row.
pub open spec fn row_cells(t: Seq<char>) -> Seq<Seq<char>> {
    cells_from(trim_matches(t, '|'), 0)
}

/// A separator row: every cell is made of `-` and `:` only, and none is empty.
pub open spec fn is_separator(cells: Seq<Seq<char>>) -> bool {
    forall|k: int|
        0 <= k < cells.len() ==> #[trigger] cells[k].len() > 0 && forall|m: int|
            0 <= m < cells[k].len() ==> cells[k][m] == '-' || cells[k][m] == ':'
}

/// The cells `cells[m..]` as header (`th`) or body (`td`) cells.
pub open spec fn cells_html(cells: Seq<Seq<char>>, m: int, header: bool) -> Seq<char>
    decreases cells.len() - m,
{
    if m < 0 || m >= cells.len() {
        Seq::empty()
    } else {
        (if header {
            "<th>"@ + inline_spec(cells[m]) + "</th>"@
        } else {
            "<td>"@ + inline_spec(cells[m]) + "</td>"@
        }) + cells_html(cells, m + 1, header)
    }
}

/// The HTML for one table row that is not a separator: the first row of a
/// table is its header; the first body row opens the body.
pub open spec fn row_html(cells: Seq<Seq<char>>, head: bool, started: bool) -> Seq<char> {
    (if !head && !started {
        "<tbody>"@
    } else {
        Seq::empty()
    }) + (if head {
        "<thead>"@
    } else {
        Seq::empty()
    }) + "<tr>"@ + cells_html(cells, 0, head) + "</tr>"@ + (if head {
        "</thead>"@
    } else {
        Seq::empty()
    })
}

/// The rows `ls[j..k]` of the table whose first row is `ls[i]`; `started`
/// tells whether the body has been opened.
pub open spec fn table_rows(ls: Seq<Seq<char>>, i: int, j: int, k: int, started: bool) -> Seq<
    char,
>
    decreases k - j,
{
    if j >= k || j < 0 || k > ls.len() {
        if started {
            "</tbody>"@
        } else {
            Seq::empty()
        }
    } else {
        let cells = row_cells(trim_end(ls[j]));
        if is_separator(cells) {
            table_rows(ls, i, j + 1, k, started)
        } else {
            let head = j == i;
            row_html(cells, head, started) + table_rows(ls, i, j + 1, k, started || !head)
        }
    }
}

/// The HTML for the table on lines `ls[i..k]`.
pub open spec fn table_html(ls: Seq<Seq<char>>, i: int, k: int) -> Seq<char> {
    "<div class=\"table-scroll\"><table>"@ + table_rows(ls, i, i, k, false)
        + "</table></div>\n"@
}

/// Row `j` is a row of the table, not a separator.
pub open spec fn kept_row(ls: Seq<Seq<char>>, j: int) -> bool {
    !is_separator(row_cells(trim_end(ls[j])))
}

/// Some row of `ls[j..k]` is not a separator.
pub open spec fn any_kept(ls: Seq<Seq<char>>, j: int, k: int) -> bool
    decreases k - j,
{
    if j >= k {
        false
    } else {
        kept_row(ls, j) || any_kept(ls, j + 1, k)
    }
}

/// The body rows of `ls[j..k]`: one `tr` of `td` cells for each row that
/// is not a separator.
pub open spec fn body_rows(ls: Seq<Seq<char>>, j: int, k: int) -> Seq<char>
    decreases k - j,
{
    if j >= k {
        Seq::empty()
    } else {
        (if kept_row(ls, j) {
            "<tr>"@ + cells_html(row_cells(trim_end(ls[j])), 0, false) + "</tr>"@
        } else {
            Seq::empty()
        }) + body_rows(ls, j + 1, k)
    }
}

proof fn lemma_table_body(ls: Seq<Seq<char>>, i: int, j: int, k: int)
    requires
        0 <= i < j <= k <= ls.len(),
    ensures
        table_rows(ls, i, j, k, true) == body_rows(ls, j, k) + "</tbody>"@,
        table_rows(ls, i, j, k, false) == (if any_kept(ls, j, k) {
            "<tbody>"@ + body_rows(ls, j, k) + "</tbody>"@
        } else {
            Seq::empty()
        }),
    decreases k - j,
{
    if j == k {
        assert(body_rows(ls, j, k) + "</tbody>"@ =~= "</tbody>"@);
    } else {
        lemma_table_body(ls, i, j + 1, k);
        let cells = row_cells(trim_end(ls[j]));
        if kept_row(ls, j) {
            let tr = "<tr>"@ + cells_html(cells, 0, false) + "</tr>"@;
            assert(row_html(cells, false, true) =~= tr);
            assert(row_html(cells, false, false) =~= "<tbody>"@ + tr);
            assert(table_rows(ls, i, j, k, true) =~= tr + (body_rows(ls, j + 1, k) + "</tbody>"@));
            assert(table_rows(ls, i, j, k, false) =~= "<tbody>"@ + tr + (body_rows(ls, j + 1, k)
                + "</tbody>"@));
        }
    }
}

/// The shape of a table: a header row exactly when its first row is not a
/// separator, a body exactly when some later row is not one, and one `tr`
/// for each row that is not a separator, in order.
pub proof fn law_table_shape(ls: Seq<Seq<char>>, i: int, k: int)
    requires
        0 <= i < k <= ls.len(),
    ensures
        table_html(ls, i, k) == "<div class=\"table-scroll\"><table>"@ + (if kept_row(ls, i) {
            "<thead>"@ + "<tr>"@ + cells_html(row_cells(trim_end(ls[i])), 0, true) + "</tr>"@
                + "</thead>"@
        } else {
            Seq::empty()
        }) + (if any_kept(ls, i + 1, k) {
            "<tbody>"@ + body_rows(ls, i + 1, k) + "</tbody>"@
        } else {
            Seq::empty()
        }) + "</table></div>\n"@,
{
    lemma_table_body(ls, i, i + 1, k);
    let cells = row_cells(trim_end(ls[i]));
    if kept_row(ls, i) {
        assert(row_html(cells, true, false) =~= "<thead>"@ + "<tr>"@ + cells_html(cells, 0, true)
            + "</tr>"@ + "</thead>"@);
    }
    assert(table_html(ls, i, k) =~= "<div class=\"table-scroll\"><table>"@ + (if kept_row(ls, i) {
        "<thead>"@ + "<tr>"@ + cells_html(cells, 0, true) + "</tr>"@ + "</thead>"@
    } else {
        Seq::empty()
    }) + (if any_kept(ls, i + 1, k) {
        "<tbody>"@ + body_rows(ls, i + 1, k) + "</tbody>"@
    } else {
        Seq::empty()
    }) + "</table></div>\n"@);
}

/// The text of the list item on line `t` of a list of `kind`.
pub open spec fn item_text(kind: Run, t: Seq<char>) -> Seq<char> {
    match kind {
        Run::Numbered => t.skip(ordered_at(t)->0),
        _ => t.skip(2),
    }
}

/// The items on lines `ls[a..b]` of a list of `kind`.
pub open spec fn list_items(ls: Seq<Seq<char>>, a: int, b: int, kind: Run) -> Seq<char>
    decreases b - a,
{
    if a >= b || a < 0 || b > ls.len() {
        Seq::empty()
    } else {
        "<li>"@ + inline_spec(item_text(kind, trim_end(ls[a]))) + "</li>"@ + list_items(
            ls,
            a + 1,
            b,
            kind,
        )
    }
}

/// The text of the paragraph on lines `ls[i..b]`: the lines joined by spaces.
pub open spec fn para_text(ls: Seq<Seq<char>>, i: int, b: int) -> Seq<char>
    decreases b - i,
{
    if b <= i + 1 || i < 0 || b > ls.len() {
        trim_end(ls[i])
    } else {
        para_text(ls, i, b - 1).push(' ') + trim_end(ls[b - 1])
    }
}

/// The block that starts at line `i`: its HTML, and the line after it.
pub open spec fn block(ls: Seq<Seq<char>>, i: int) -> (Seq<char>, int) {
    let t = trim_end(ls[i]);
    if is_fence(t) {
        (fence_html(ls, i), fence_next(ls, i))
    } else if heading_level(t) > 0 {
        (heading_html(t), i + 1)
    } else if is_hr(t) {
        ("<hr>\n"@, i + 1)
    } else if is_quote(t) {
        let k = run_end(ls, i + 1, Run::Quote);
        (quote_html(ls, i, k), k)
    } else if is_row(t) {
        let k = run_end(ls, i + 1, Run::Table);
        (table_html(ls, i, k), k)
    } else if is_bullet(t) {
        let k = run_end(ls, i + 1, Run::Bullets);
        ("<ul>"@ + list_items(ls, i, k, Run::Bullets) + "</ul>\n"@, k)
    } else if ordered_at(t) is Some {
        let k = run_end(ls, i + 1, Run::Numbered);
        ("<ol>"@ + list_items(ls, i, k, Run::Numbered) + "</ol>\n"@, k)
    } else if t.len() == 0 {
        (Seq::empty(), i + 1)
    } else {
        let k = run_end(ls, i + 1, Run::Paragraph);
        ("<p>"@ + inline_spec(para_text(ls, i, k)) + "</p>\n"@, k)
    }
}

pub proof fn lemma_block_next(ls: Seq<Seq<char>>, i: int)
    requires
        0 <= i < ls.len(),
    ensures
        i < block(ls, i).1 <= ls.len(),
{
    lemma_run_end(ls, i + 1, Run::Code);
    lemma_run_end(ls, i + 1, Run::Quote);
    lemma_run_end(ls, i + 1, Run::Table);
    lemma_run_end(ls, i + 1, Run::Bullets);
    lemma_run_end(ls, i + 1, Run::Numbered);
    lemma_run_end(ls, i + 1, Run::Paragraph);
}

/// The HTML for the blocks from line `i` on.
pub open spec fn render_from(ls: Seq<Seq<char>>, i: int) -> Seq<char>
    decreases ls.len() - i,
{
    if i < 0 || i >= ls.len() {
        Seq::empty()
    } else {
        proof {
            lemma_block_next(ls, i);
        }
        block(ls, i).0 + render_from(ls, block(ls, i).1)
    }
}

/// The HTML for a markdown document.
pub open spec fn render_spec(src: Seq<char>) -> Seq<char> {
    render_from(lines(src), 0)
}

// ---------------------------------------------------------------------
// Laws of line kinds and of whole documents
// ---------------------------------------------------------------------

/// `k` hashes.
pub open spec fn hashes(k: nat) -> Seq<char> {
    Seq::new(k, |i: int| '#')
}

proof fn lemma_run_of_hashes(t: Seq<char>, k: nat, i: int)
    requires
        k < t.len(),
        t.take(k as int) == hashes(k),
        t[k as int] != '#',
        0 <= i <= k,
    ensures
        run_of(t, i, '#') == k,
    decreases k - i,
{
    if i < k {
        assert(t[i] == t.take(k as int)[i]);
        lemma_run_of_hashes(t, k, i + 1);
    }
}

proof fn lemma_run_of_stops(t: Seq<char>, i: int, c: char)
    requires
        0 <= i <= t.len(),
    ensures
        i <= run_of(t, i, c) <= t.len(),
        forall|x: int| i <= x < run_of(t, i, c) ==> t[x] == c,
        run_of(t, i, c) < t.len() ==> t[run_of(t, i, c)] != c,
    decreases t.len() - i,
{
    if i < t.len() && t[i] == c {
        lemma_run_of_stops(t, i + 1, c);
    }
}

/// A heading line round-trips: one to four `#`, a space and a text give
/// back that level and the trimmed text; a line is a heading exactly when
/// it starts with one to four `#` and then a space; and a line of any
/// level is exactly that many `#`, a space and the rest.
pub proof fn law_heading_round_trip(k: nat, r: Seq<char>, t: Seq<char>)
    requires
        1 <= k <= 4,
    ensures
        heading_level(hashes(k) + seq![' '] + r) == k,
        heading_text(hashes(k) + seq![' '] + r) == trim(r),
        heading_level(t) > 0 <==> exists|j: int|
            1 <= j <= 4 && j < t.len() && t[j] == ' ' && #[trigger] t.take(j) == hashes(j as nat),
        heading_level(t) > 0 ==> 1 <= heading_level(t) <= 4 && t == hashes(
            heading_level(t) as nat,
        ) + seq![' '] + t.skip(heading_level(t) + 1),
{
    let line = hashes(k) + seq![' '] + r;
    assert(line.take(k as int) =~= hashes(k));
    lemma_run_of_hashes(line, k, 0);
    assert(line.skip(k + 1int) =~= r);
    lemma_run_of_stops(t, 0, '#');
    let h = heading_level(t);
    if h > 0 {
        assert(t =~= hashes(h as nat) + seq![' '] + t.skip(h + 1));
        assert(t.take(h) =~= hashes(h as nat));
    }
    if exists|j: int|
        1 <= j <= 4 && j < t.len() && t[j] == ' ' && #[trigger] t.take(j) == hashes(j as nat) {
        let j = choose|j: int|
            1 <= j <= 4 && j < t.len() && t[j] == ' ' && #[trigger] t.take(j) == hashes(j as nat);
        lemma_run_of_hashes(t, j as nat, 0);
    }
}

proof fn lemma_digit_run_of(t: Seq<char>, d: nat, i: int)
    requires
        d < t.len(),
        forall|x: int| 0 <= x < d ==> is_digit(#[trigger] t[x]),
        !is_digit(t[d as int]),
        0 <= i <= d,
    ensures
        digit_run(t, i) == d,
    decreases d - i,
{
    if i < d {
        lemma_digit_run_of(t, d, i + 1);
    }
}

proof fn lemma_digit_run_stops(t: Seq<char>, i: int)
    requires
        0 <= i <= t.len(),
    ensures
        i <= digit_run(t, i) <= t.len(),
        forall|x: int| i <= x < digit_run(t, i) ==> is_digit(#[trigger] t[x]),
    decreases t.len() - i,
{
    if i < t.len() && is_digit(t[i]) {
        lemma_digit_run_stops(t, i + 1);
    }
}

/// A numbered item round-trips: digits, `. ` and a text give the text
/// back; and any line with an item text is digits, `. ` and that text.
pub proof fn law_ordered_round_trip(d: Seq<char>, r: Seq<char>, t: Seq<char>)
    requires
        d.len() > 0,
        forall|x: int| 0 <= x < d.len() ==> is_digit(#[trigger] d[x]),
    ensures
        ordered_at(d + seq!['.', ' '] + r) == Some(d.len() + 2int),
        (d + seq!['.', ' '] + r).skip(d.len() + 2int) == r,
        ordered_at(t) is Some <==> exists|n: int|
            1 <= n && n + 2 <= t.len() && #[trigger] t[n] == '.' && t[n + 1] == ' ' && forall|x: int|
                0 <= x < n ==> is_digit(#[trigger] t[x]),
        ordered_at(t) matches Some(j) ==> {
            &&& 3 <= j <= t.len()
            &&& forall|x: int| 0 <= x < j - 2 ==> is_digit(#[trigger] t[x])
            &&& t[j - 2] == '.'
            &&& t[j - 1] == ' '
        },
{
    let line = d + seq!['.', ' '] + r;
    assert forall|x: int| 0 <= x < d.len() implies is_digit(#[trigger] line[x]) by {
        assert(line[x] == d[x]);
    }
    lemma_digit_run_of(line, d.len(), 0);
    assert(line.skip(d.len() + 2int) =~= r);
    lemma_digit_run_stops(t, 0);
    if exists|n: int|
        1 <= n && n + 2 <= t.len() && #[trigger] t[n] == '.' && t[n + 1] == ' ' && forall|x: int|
            0 <= x < n ==> is_digit(#[trigger] t[x]) {
        let n = choose|n: int|
            1 <= n && n + 2 <= t.len() && #[trigger] t[n] == '.' && t[n + 1] == ' ' && forall|x: int|
                0 <= x < n ==> is_digit(#[trigger] t[x]);
        lemma_digit_run_of(t, n as nat, 0);
    }
    if ordered_at(t) is Some {
        let n = digit_run(t, 0);
        assert(t[n] == '.');
    }
}

pub proof fn lemma_find_from_absent(s: Seq<char>, i: int, c: char)
    requires
        0 <= i,
        forall|x: int| i <= x < s.len() ==> s[x] != c,
    ensures
        find_from(s, i, c) is None,
    decreases s.len() - i,
{
    if i < s.len() {
        lemma_find_from_absent(s, i + 1, c);
    }
}

proof fn lemma_trim_end_len_stops(s: Seq<char>, n: int)
    requires
        0 <= n <= s.len(),
    ensures
        0 <= trim_end_len(s, n) <= n,
        trim_end_len(s, n) > 0 ==> !is_ws(s[trim_end_len(s, n) - 1]),
    decreases n,
{
    if 0 < n && is_ws(s[n - 1]) {
        lemma_trim_end_len_stops(s, n - 1);
    }
}

proof fn lemma_trim_end_len_concat(a: Seq<char>, b: Seq<char>, m: int)
    requires
        0 <= m <= b.len(),
        trim_end_len(b, m) > 0,
    ensures
        trim_end_len(a + b, a.len() + m) == a.len() + trim_end_len(b, m),
    decreases m,
{
    let u = a + b;
    assert(u[a.len() + m - 1] == b[m - 1]);
    if is_ws(b[m - 1]) {
        lemma_trim_end_len_concat(a, b, m - 1);
    }
}

/// A line of one to four `#`, a space and a text (with no line break and
/// not blank) renders as exactly the heading of that level, whose id is
/// the slug of the trimmed text and whose content is its inline markup.
pub proof fn law_heading_line(k: nat, t: Seq<char>)
    requires
        1 <= k <= 4,
        forall|x: int| 0 <= x < t.len() ==> t[x] != '\n',
        trim(t).len() > 0,
    ensures
        render_spec(hashes(k) + seq![' '] + t) == heading_html_of(k as int, trim(t)),
{
    let a = hashes(k) + seq![' '];
    let line = a + t;
    assert forall|x: int| 0 <= x < line.len() implies line[x] != '\n' by {
        if x >= a.len() {
            assert(line[x] == t[x - a.len()]);
        }
    }
    lemma_find_from_absent(line, 0, '\n');
    assert(line.subrange(0, line.len() as int) =~= line);
    assert(lines(line) =~= seq![line]);
    let ls = seq![line];
    // the trimmed line is the hashes, the space and the trimmed text
    let e = trim_end_len(t, t.len() as int);
    lemma_trim_end_len_stops(t, t.len() as int);
    assert(e > 0);
    lemma_trim_end_len_concat(a, t, t.len() as int);
    assert(line.len() == a.len() + t.len());
    let tl = trim_end(line);
    assert(tl =~= a + trim_end(t));
    // trimming the end twice is trimming it once
    let te = trim_end(t);
    lemma_trim_end_len_stops(te, te.len() as int);
    assert(!is_ws(te[e - 1]));
    assert(trim_end_len(te, te.len() as int) == te.len());
    assert(trim_end(te) =~= te);
    law_heading_round_trip(k, te, tl);
    assert(hashes(k) + seq![' '] + te =~= tl);
    assert(tl[0] == '#');
    assert(!is_fence(tl));
    reveal_with_fuel(render_from, 2);
    assert(render_from(ls, 1) == Seq::<char>::empty());
    assert(block(ls, 0) == (heading_html(tl), 1int));
}

/// `s` with each `\n` written as `\r\n`.
pub open spec fn crlf(s: Seq<char>) -> Seq<char>
    decreases s.len(),
{
    if s.len() == 0 {
        Seq::empty()
    } else {
        (if s[0] == '\n' {
            seq!['\r', '\n']
        } else {
            seq![s[0]]
        }) + crlf(s.drop_first())
    }
}

proof fn lemma_find_from_shift(s: Seq<char>, i: int, j: int, c: char)
    requires
        0 <= i <= s.len(),
        0 <= j,
    ensures
        find_from(s, i + j, c) == (match find_from(s.skip(i), j, c) {
            Some(x) => Some(x + i),
            None => None,
        }),
    decreases s.len() - i - j,
{
    if i + j < s.len() && s[i + j] != c {
        lemma_find_from_shift(s, i, j + 1, c);
    }
}

proof fn lemma_lines_shift(s: Seq<char>, i: int, j: int)
    requires
        0 <= i <= s.len(),
        0 <= j,
    ensures
        lines_from(s, i + j) == lines_from(s.skip(i), j),
    decreases s.len() - i - j,
{
    let t = s.skip(i);
    lemma_find_from_shift(s, i, j, '\n');
    if i + j < s.len() {
        lemma_find_from(s, i + j, '\n');
        if let Some(x) = find_from(s, i + j, '\n') {
            assert(s.subrange(i + j, x) =~= t.subrange(j, x - i));
            lemma_lines_shift(s, i, x - i + 1);
        } else {
            assert(s.subrange(i + j, s.len() as int) =~= t.subrange(j, t.len() as int));
        }
    }
}

proof fn lemma_crlf_concat(a: Seq<char>, b: Seq<char>)
    ensures
        crlf(a + b) == crlf(a) + crlf(b),
    decreases a.len(),
{
    if a.len() == 0 {
        assert(a + b =~= b);
        assert(crlf(a) + crlf(b) =~= crlf(b));
    } else {
        lemma_crlf_concat(a.drop_first(), b);
        assert((a + b).drop_first() =~= a.drop_first() + b);
        assert((a + b)[0] == a[0]);
    }
}

proof fn lemma_crlf_plain(a: Seq<char>)
    requires
        forall|x: int| 0 <= x < a.len() ==> a[x] != '\n',
    ensures
        crlf(a) == a,
    decreases a.len(),
{
    if a.len() > 0 {
        lemma_crlf_plain(a.drop_first());
        assert(a =~= seq![a[0]] + a.drop_first());
    }
}

proof fn lemma_lines_crlf(s: Seq<char>)
    requires
        forall|x: int| 0 <= x < s.len() ==> s[x] != '\r',
    ensures
        lines(crlf(s)) == lines(s),
    decreases s.len(),
{
    let c = crlf(s);
    if s.len() > 0 {
        lemma_find_from(s, 0, '\n');
        match find_from(s, 0, '\n') {
            Some(j) => {
                let x = s.subrange(0, j);
                let rest = s.skip(j + 1);
                assert(s =~= x + (seq!['\n'] + rest));
                lemma_crlf_concat(x, seq!['\n'] + rest);
                lemma_crlf_concat(seq!['\n'], rest);
                assert forall|y: int| 0 <= y < x.len() implies x[y] != '\n' by {
                    assert(x[y] == s[y]);
                }
                lemma_crlf_plain(x);
                assert(seq!['\n'].drop_first() =~= Seq::<char>::empty());
                assert(crlf(seq!['\n']) =~= seq!['\r', '\n'] + crlf(Seq::<char>::empty()));
                assert(crlf(seq!['\n']) =~= seq!['\r', '\n']);
                assert(c =~= x + seq!['\r', '\n'] + crlf(rest));
                assert forall|y: int| 0 <= y < j + 1 implies c[y] != '\n' by {
                    if y < j {
                        assert(c[y] == x[y]);
                    } else {
                        assert(c[y] == '\r');
                    }
                }
                assert(c[j + 1] == '\n');
                lemma_find_from_first(c, 0, j + 1, '\n');
                assert(c.subrange(0, j + 1) =~= x.push('\r'));
                assert(strip_cr(x.push('\r')) =~= x);
                assert(j == 0 || x.last() != '\r');
                assert(strip_cr(x) == x);
                assert(c.skip(j + 2) =~= crlf(rest));
                lemma_lines_shift(c, j + 2, 0);
                lemma_lines_shift(s, j + 1, 0);
                assert forall|y: int| 0 <= y < rest.len() implies rest[y] != '\r' by {
                    assert(rest[y] == s[j + 1 + y]);
                }
                lemma_lines_crlf(rest);
                assert(lines(c) =~= seq![x] + lines(crlf(rest)));
                assert(lines(s) =~= seq![x] + lines(rest));
            },
            None => {
                lemma_crlf_plain(s);
            },
        }
    }
}

proof fn lemma_find_from_first(s: Seq<char>, i: int, j: int, c: char)
    requires
        0 <= i <= j < s.len(),
        s[j] == c,
        forall|y: int| i <= y < j ==> s[y] != c,
    ensures
        find_from(s, i, c) == Some(j),
    decreases j - i,
{
    if i < j {
        lemma_find_from_first(s, i + 1, j, c);
    }
}

/// Line endings do not matter: writing each `\n` of a text (without `\r`)
/// as `\r\n` renders the same HTML.
pub proof fn law_crlf_renders_alike(s: Seq<char>)
    requires
        forall|x: int| 0 <= x < s.len() ==> s[x] != '\r',
    ensures
        render_spec(crlf(s)) == render_spec(s),
{
    lemma_lines_crlf(s);
}

// ---------------------------------------------------------------------
// Rendering
// ---------------------------------------------------------------------

/// Appends the HTML for the inline markup of `s`.
#[verifier::rlimit(40)]
pub fn inline(out: &mut String, s: &Vec<char>)
    ensures
        final(out)@ == old(out)@ + inline_spec(s@),
    decreases s@.len(),
{
    let mut i: usize = 0;
    while i < s.len()
        invariant
            i <= s@.len(),
            out@ + inline_from(s@, i as int) == old(out)@ + inline_spec(s@),
        decreases s@.len() - i,
    {
        proof {
            lemma_inline_spans(s@, i as int);
        }
        if s[i] == '`' {
            if let Some(e) = find_char(s, i + 1, '`') {
                out.append("<code>");
                esc_into(out, s, i + 1, e);
                out.append("</code>");
                i = e + 1;
                continue;
            }
        }
        if i + 1 < s.len() && s[i] == '*' && s[i + 1] == '*' {
            if let Some(e) = find_pair(s, i + 2, '*', '*') {
                out.append("<strong>");
                let inner = copy_range(s, i + 2, e);
                inline(out, &inner);
                out.append("</strong>");
                i = e + 2;
                continue;
            }
        }
        if s[i] == '[' {
            if let Some(c) = find_pair(s, i, ']', '(') {
                proof {
                    lemma_find_pair_from(s@, i as int, ']', '(');
                    lemma_find_from(s@, c + 2, ')');
                }
                if let Some(e) = find_char(s, c + 2, ')') {
                    out.append("<a href=\"");
                    esc_into(out, s, c + 2, e);
                    out.append("\">");
                    let text = copy_range(s, i + 1, c);
                    inline(out, &text);
                    out.append("</a>");
                    i = e + 1;
                    continue;
                }
            }
        }
        let ch = s[i];
        if ch == '&' {
            out.append("&amp;");
        } else if ch == '<' {
            out.append("&lt;");
        } else if ch == '>' {
            out.append("&gt;");
        } else {
            out.push(ch);
        }
        i = i + 1;
    }
}

/// Appends the characters of `w` to `v`.
fn extend_chars(v: &mut Vec<char>, w: &Vec<char>)
    ensures
        final(v)@ == old(v)@ + w@,
{
    let mut k: usize = 0;
    while k < w.len()
        invariant
            k <= w@.len(),
            v@ == old(v)@ + w@.take(k as int),
        decreases w@.len() - k,
    {
        v.push(w[k]);
        assert(w@.take(k + 1) =~= w@.take(k as int).push(w@[k as int]));
        k = k + 1;
    }
    assert(w@.take(w@.len() as int) =~= w@);
}

fn ascii_alnum(c: char) -> (r: bool)
    ensures
        r == is_ascii_alnum(c),
{
    ('a' <= c && c <= 'z') || ('A' <= c && c <= 'Z') || ('0' <= c && c <= '9')
}

fn to_lower(c: char) -> (r: char)
    ensures
        r == ascii_lower(c),
{
    if 'A' <= c && c <= 'Z' {
        ((c as u8) + 32u8) as char
    } else {
        c
    }
}

/// The slug of `t`, as characters.
fn slug_chars(t: &Vec<char>) -> (r: Vec<char>)
    ensures
        r@ == slug_spec(t@),
{
    let mut v: Vec<char> = Vec::new();
    let mut i: usize = 0;
    while i < t.len()
        invariant
            i <= t@.len(),
            v@ == slug_raw(t@.take(i as int)),
        decreases t@.len() - i,
    {
        let c = t[i];
        assert(t@.take(i + 1).drop_last() =~= t@.take(i as int));
        if ascii_alnum(c) {
            v.push(to_lower(c));
        } else if (c == ' ' || c == '-' || c == '_') && !(v.len() > 0 && v[v.len() - 1] == '-') {
            v.push('-');
        }
        i = i + 1;
    }
    assert(t@.take(t@.len() as int) =~= t@);
    trim_matches_vec(&v, '-')
}

/// The anchor slug of a heading's text: ASCII letters and digits in lower
/// case, each run of spaces, dashes and underscores one dash, everything
/// else dropped, and no dash at either end.
pub fn slug(text: &str) -> (r: String)
    ensures
        r@ == slug_spec(text@),
{
    let t = chars_of(text);
    let v = slug_chars(&t);
    let mut out = String::new();
    push_range(&mut out, &v, 0, v.len());
    assert(v@.subrange(0, v@.len() as int) =~= v@);
    out
}

fn fence_line(t: &Vec<char>) -> (r: bool)
    ensures
        r == is_fence(t@),
{
    t.len() >= 3 && t[0] == '`' && t[1] == '`' && t[2] == '`'
}

fn digit(c: char) -> (r: bool)
    ensures
        r == is_digit(c),
{
    '0' <= c && c <= '9'
}

fn heading(t: &Vec<char>) -> (r: usize)
    ensures
        r == heading_level(t@),
{
    let mut h: usize = 0;
    while h < t.len() && t[h] == '#'
        invariant
            h <= t@.len(),
            run_of(t@, h as int, '#') == run_of(t@, 0, '#'),
        decreases t@.len() - h,
    {
        h = h + 1;
    }
    if 1 <= h && h <= 4 && h < t.len() && t[h] == ' ' {
        h
    } else {
        0
    }
}

fn hr_line(t: &Vec<char>) -> (r: bool)
    ensures
        r == is_hr(t@),
{
    t.len() == 3 && t[0] == '-' && t[1] == '-' && t[2] == '-'
}

fn quote_prefixed_line(t: &Vec<char>) -> (r: bool)
    ensures
        r == quote_prefixed(t@),
{
    t.len() >= 2 && t[0] == '>' && t[1] == ' '
}

fn quote_line(t: &Vec<char>) -> (r: bool)
    ensures
        r == is_quote(t@),
{
    quote_prefixed_line(t) || (t.len() == 1 && t[0] == '>')
}

fn row_line(t: &Vec<char>) -> (r: bool)
    ensures
        r == is_row(t@),
{
    t.len() >= 1 && t[0] == '|'
}

fn bullet_line(t: &Vec<char>) -> (r: bool)
    ensures
        r == is_bullet(t@),
{
    t.len() >= 2 && t[0] == '-' && t[1] == ' '
}

/// Where the text of a numbered item starts, if `t` is one.
fn ordered_item(t: &Vec<char>) -> (r: Option<usize>)
    ensures
        r == (match ordered_at(t@) {
            Some(k) => Some(k as usize),
            None => None::<usize>,
        }),
{
    let mut d: usize = 0;
    while d < t.len() && digit(t[d])
        invariant
            d <= t@.len(),
            digit_run(t@, d as int) == digit_run(t@, 0),
        decreases t@.len() - d,
    {
        d = d + 1;
    }
    if d > 0 && d < t.len() && t.len() - d >= 2 && t[d] == '.' && t[d + 1] == ' ' {
        Some(d + 2)
    } else {
        None
    }
}

fn breaks_paragraph(t: &Vec<char>) -> (r: bool)
    ensures
        r == para_break(t@),
{
    t.len() == 0 || t[0] == '#' || fence_line(t) || bullet_line(t) || quote_prefixed_line(t)
        || row_line(t) || hr_line(t) || ordered_item(t).is_some()
}

fn line_continues(kind: Run, t: &Vec<char>) -> (r: bool)
    ensures
        r == continues(kind, t@),
{
    match kind {
        Run::Code => !fence_line(t),
        Run::Quote => quote_line(t),
        Run::Table => row_line(t),
        Run::Bullets => bullet_line(t),
        Run::Numbered => ordered_item(t).is_some(),
        Run::Paragraph => !breaks_paragraph(t),
    }
}

/// The first line at or after `j` that does not continue a block of `kind`.
fn run_end_of(ls: &Vec<Vec<char>>, j: usize, kind: Run) -> (r: usize)
    requires
        j <= ls@.len(),
    ensures
        r == run_end(lines_view(ls@), j as int, kind),
{
    let ghost l = lines_view(ls@);
    let mut k: usize = j;
    while k < ls.len()
        invariant
            j <= k <= ls@.len(),
            l == lines_view(ls@),
            run_end(l, k as int, kind) == run_end(l, j as int, kind),
        decreases ls@.len() - k,
    {
        let t = trim_end_vec(&ls[k]);
        assert(l[k as int] == ls@[k as int]@);
        if !line_continues(kind, &t) {
            return k;
        }
        k = k + 1;
    }
    k
}

/// Appends the code block that opens at line `i` (whose trimmed text is
/// `t`) and returns the line after it.
fn render_fence(out: &mut String, ls: &Vec<Vec<char>>, i: usize, t: &Vec<char>) -> (r: usize)
    requires
        i < ls.len(),
        t@ == trim_end(lines_view(ls@)[i as int]),
        is_fence(t@),
    ensures
        final(out)@ == old(out)@ + fence_html(lines_view(ls@), i as int),
        r == fence_next(lines_view(ls@), i as int),
{
    let ghost l = lines_view(ls@);
    let rest = copy_range(t, 3, t.len());
    assert(rest@ =~= t@.skip(3));
    let lang = trim_vec(&rest);
    out.append("<pre class=\"code\"><code");
    if lang.len() > 0 {
        out.append(" data-lang=\"");
        esc_into(out, &lang, 0, lang.len());
        assert(lang@.subrange(0, lang@.len() as int) =~= lang@);
        out.append("\"");
    }
    out.append(">");
    let ghost opened = out@;
    let k = run_end_of(ls, i + 1, Run::Code);
    proof {
        lemma_run_end(l, i + 1, Run::Code);
    }
    let mut j: usize = i + 1;
    while j < k
        invariant
            i + 1 <= j <= k <= ls@.len(),
            l == lines_view(ls@),
            out@ + code_lines(l, j as int, k as int) == opened + code_lines(l, i + 1, k as int),
        decreases k - j,
    {
        let line = &ls[j];
        assert(l[j as int] == line@);
        esc_into(out, line, 0, line.len());
        assert(line@.subrange(0, line@.len() as int) =~= line@);
        out.push('\n');
        j = j + 1;
    }
    out.append("</code></pre>\n");
    if k < ls.len() {
        k + 1
    } else {
        k
    }
}

/// Appends a heading line.
fn render_heading(out: &mut String, t: &Vec<char>)
    requires
        heading_level(t@) > 0,
    ensures
        final(out)@ == old(out)@ + heading_html(t@),
{
    let level = heading(t);
    let d = if level == 1 {
        '1'
    } else if level == 2 {
        '2'
    } else if level == 3 {
        '3'
    } else {
        '4'
    };
    let rest = copy_range(t, level + 1, t.len());
    assert(rest@ =~= t@.skip(level + 1));
    let text = trim_vec(&rest);
    let id = slug_chars(&text);
    assert(id@.subrange(0, id@.len() as int) =~= id@);
    out.append("<h");
    out.push(d);
    out.append(" id=\"");
    push_range(out, &id, 0, id.len());
    out.append("\">");
    inline(out, &text);
    out.append("<a class=\"anchor\" href=\"#");
    push_range(out, &id, 0, id.len());
    out.append("\" aria-label=\"link to this section\">#</a></h");
    out.push(d);
    out.append(">\n");
}

/// What one more blockquote line adds to the quote text `q`.
pub fn push_quote_line(q: &mut Vec<char>, t: &Vec<char>)
    ensures
        final(q)@ == push_quote(old(q)@, t@),
{
    if quote_prefixed_line(t) && t.len() > 2 {
        let content = copy_range(t, 2, t.len());
        assert(content@ =~= t@.skip(2));
        let n = q.len();
        if n > 0 && !(n >= 2 && q[n - 1] == '\n' && q[n - 2] == '\n') {
            q.push(' ');
        }
        extend_chars(q, &content);
    } else {
        assert(quote_prefixed(t@) ==> t@.skip(2).len() == 0);
        q.push('\n');
        q.push('\n');
        assert(q@ =~= old(q)@ + seq!['\n', '\n']);
    }
}

/// Appends one paragraph of a blockquote, `q[a..b]`, unless it is blank.
fn render_quote_para(out: &mut String, q: &Vec<char>, a: usize, b: usize)
    requires
        a <= b <= q@.len(),
    ensures
        final(out)@ == old(out)@ + quote_para_html(q@.subrange(a as int, b as int)),
{
    let p = copy_range(q, a, b);
    let tp = trim_vec(&p);
    if tp.len() > 0 {
        out.append("<p>");
        inline(out, &tp);
        out.append("</p>");
    }
}

/// Appends the blockquote that starts at line `i` and returns the line after it.
fn render_quote(out: &mut String, ls: &Vec<Vec<char>>, i: usize) -> (r: usize)
    requires
        i < ls.len(),
    ensures
        r == run_end(lines_view(ls@), i + 1, Run::Quote),
        final(out)@ == old(out)@ + quote_html(lines_view(ls@), i as int, r as int),
{
    let ghost l = lines_view(ls@);
    let k = run_end_of(ls, i + 1, Run::Quote);
    proof {
        lemma_run_end(l, i + 1, Run::Quote);
    }
    let mut q: Vec<char> = Vec::new();
    let mut j: usize = i;
    while j < k
        invariant
            i <= j <= k <= ls@.len(),
            l == lines_view(ls@),
            q@ == quote_text(l, i as int, j as int),
        decreases k - j,
    {
        let t = trim_end_vec(&ls[j]);
        assert(l[j as int] == ls@[j as int]@);
        push_quote_line(&mut q, &t);
        j = j + 1;
    }
    out.append("<blockquote>");
    let ghost opened = out@;
    let mut start: usize = 0;
    loop
        invariant_except_break
            start <= q@.len(),
            q@.len() == q.len(),
            out@ + quote_paras(q@, start as int) == opened + quote_paras(q@, 0),
        ensures
            out@ == opened + quote_paras(q@, 0),
        decreases q@.len() - start,
    {
        match find_pair(&q, start, '\n', '\n') {
            Some(e) => {
                proof {
                    lemma_find_pair_from(q@, start as int, '\n', '\n');
                }
                render_quote_para(out, &q, start, e);
                start = e + 2;
            },
            None => {
                render_quote_para(out, &q, start, q.len());
                break;
            },
        }
    }
    out.append("</blockquote>\n");
    k
}

/// The cells of a table row.
fn cells_of_row(t: &Vec<char>) -> (r: Vec<Vec<char>>)
    ensures
        lines_view(r@) == row_cells(t@),
{
    let s = trim_matches_vec(t, '|');
    let mut cells: Vec<Vec<char>> = Vec::new();
    let mut start: usize = 0;
    loop
        invariant_except_break
            start <= s@.len(),
            s@.len() == s.len(),
            lines_view(cells@) + cells_from(s@, start as int) == cells_from(s@, 0),
        ensures
            lines_view(cells@) == cells_from(s@, 0),
        decreases s@.len() - start,
    {
        let ghost before = lines_view(cells@);
        match find_char(&s, start, '|') {
            Some(e) => {
                proof {
                    lemma_find_from(s@, start as int, '|');
                }
                let piece = copy_range(&s, start, e);
                let cell = trim_vec(&piece);
                cells.push(cell);
                assert(lines_view(cells@) =~= before.push(cell@));
                assert(lines_view(cells@) + cells_from(s@, e + 1) =~= before + cells_from(
                    s@,
                    start as int,
                ));
                start = e + 1;
            },
            None => {
                let piece = copy_range(&s, start, s.len());
                let cell = trim_vec(&piece);
                cells.push(cell);
                assert(lines_view(cells@) =~= before.push(cell@));
                assert(lines_view(cells@) =~= before + cells_from(s@, start as int));
                break;
            },
        }
    }
    cells
}

/// Whether every cell is made of `-` and `:` only, and none is empty.
fn separator_row(cells: &Vec<Vec<char>>) -> (r: bool)
    ensures
        r == is_separator(lines_view(cells@)),
{
    let ghost c = lines_view(cells@);
    let mut k: usize = 0;
    while k < cells.len()
        invariant
            k <= cells@.len(),
            c == lines_view(cells@),
            forall|x: int|
                0 <= x < k ==> #[trigger] c[x].len() > 0 && forall|m: int|
                    0 <= m < c[x].len() ==> c[x][m] == '-' || c[x][m] == ':',
        decreases cells@.len() - k,
    {
        let cell = &cells[k];
        assert(c[k as int] == cell@);
        if cell.len() == 0 {
            assert(c[k as int].len() == 0);
            return false;
        }
        let mut m: usize = 0;
        while m < cell.len()
            invariant
                m <= cell@.len(),
                k < cells@.len(),
                c == lines_view(cells@),
                c[k as int] == cell@,
                cell@.len() > 0,
                forall|x: int|
                    0 <= x < k ==> #[trigger] c[x].len() > 0 && forall|z: int|
                        0 <= z < c[x].len() ==> c[x][z] == '-' || c[x][z] == ':',
                forall|y: int| 0 <= y < m ==> cell@[y] == '-' || cell@[y] == ':',
            decreases cell@.len() - m,
        {
            if cell[m] != '-' && cell[m] != ':' {
                assert(c[k as int].len() > 0 && c[k as int][m as int] == cell@[m as int]);
                return false;
            }
            m = m + 1;
        }
        k = k + 1;
    }
    true
}

/// Appends the cells of a row as header or body cells.
fn render_cells(out: &mut String, cells: &Vec<Vec<char>>, header: bool)
    ensures
        final(out)@ == old(out)@ + cells_html(lines_view(cells@), 0, header),
{
    let ghost c = lines_view(cells@);
    let mut m: usize = 0;
    while m < cells.len()
        invariant
            m <= cells@.len(),
            c == lines_view(cells@),
            out@ + cells_html(c, m as int, header) == old(out)@ + cells_html(c, 0, header),
        decreases cells@.len() - m,
    {
        assert(c[m as int] == cells@[m as int]@);
        if header {
            out.append("<th>");
            inline(out, &cells[m]);
            out.append("</th>");
        } else {
            out.append("<td>");
            inline(out, &cells[m]);
            out.append("</td>");
        }
        m = m + 1;
    }
}

/// Appends one table row that is not a separator.
fn render_row(out: &mut String, cells: &Vec<Vec<char>>, head: bool, started: bool)
    ensures
        final(out)@ == old(out)@ + row_html(lines_view(cells@), head, started),
{
    if !head && !started {
        out.append("<tbody>");
    }
    if head {
        out.append("<thead>");
    }
    out.append("<tr>");
    render_cells(out, cells, head);
    out.append("</tr>");
    if head {
        out.append("</thead>");
    }
}

/// Appends the table that starts at line `i` and returns the line after it.
pub fn table(out: &mut String, ls: &Vec<Vec<char>>, i: usize) -> (r: usize)
    requires
        i < ls.len(),
    ensures
        r == run_end(lines_view(ls@), i + 1, Run::Table),
        final(out)@ == old(out)@ + table_html(lines_view(ls@), i as int, r as int),
{
    let ghost l = lines_view(ls@);
    let k = run_end_of(ls, i + 1, Run::Table);
    proof {
        lemma_run_end(l, i + 1, Run::Table);
    }
    out.append("<div class=\"table-scroll\"><table>");
    let ghost opened = out@;
    let mut started = false;
    let mut j: usize = i;
    while j < k
        invariant
            i <= j <= k <= ls@.len(),
            l == lines_view(ls@),
            out@ + table_rows(l, i as int, j as int, k as int, started) == opened + table_rows(
                l,
                i as int,
                i as int,
                k as int,
                false,
            ),
        decreases k - j,
    {
        let t = trim_end_vec(&ls[j]);
        assert(l[j as int] == ls@[j as int]@);
        let cells = cells_of_row(&t);
        if !separator_row(&cells) {
            let head = j == i;
            render_row(out, &cells, head, started);
            if !head {
                started = true;
            }
        }
        j = j + 1;
    }
    if started {
        out.append("</tbody>");
    }
    out.append("</table></div>\n");
    k
}

/// Appends the list (bullets or numbered) that starts at line `i` and
/// returns the line after it.
fn render_list(out: &mut String, ls: &Vec<Vec<char>>, i: usize, kind: Run) -> (r: usize)
    requires
        i < ls.len(),
        kind == Run::Bullets || kind == Run::Numbered,
        continues(kind, trim_end(lines_view(ls@)[i as int])),
    ensures
        r == run_end(lines_view(ls@), i + 1, kind),
        final(out)@ == old(out)@ + list_items(lines_view(ls@), i as int, r as int, kind),
{
    let ghost l = lines_view(ls@);
    let k = run_end_of(ls, i + 1, kind);
    proof {
        lemma_run_end(l, i + 1, kind);
    }
    let mut j: usize = i;
    while j < k
        invariant
            i <= j <= k <= ls@.len(),
            l == lines_view(ls@),
            kind == Run::Bullets || kind == Run::Numbered,
            continues(kind, trim_end(l[i as int])),
            forall|x: int| i + 1 <= x < k ==> continues(kind, #[trigger] trim_end(l[x])),
            out@ + list_items(l, j as int, k as int, kind) == old(out)@ + list_items(
                l,
                i as int,
                k as int,
                kind,
            ),
        decreases k - j,
    {
        let t = trim_end_vec(&ls[j]);
        assert(l[j as int] == ls@[j as int]@);
        assert(continues(kind, t@));
        let start = match kind {
            Run::Numbered => match ordered_item(&t) {
                Some(s) => s,
                None => 2,
            },
            _ => 2,
        };
        let item = copy_range(&t, start, t.len());
        assert(item@ =~= item_text(kind, t@));
        out.append("<li>");
        inline(out, &item);
        out.append("</li>");
        j = j + 1;
    }
    k
}

/// Appends the paragraph that starts at line `i` (whose trimmed text is
/// `t`) and returns the line after it.
fn render_para(out: &mut String, ls: &Vec<Vec<char>>, i: usize, t: &Vec<char>) -> (r: usize)
    requires
        i < ls.len(),
        t@ == trim_end(lines_view(ls@)[i as int]),
    ensures
        r == run_end(lines_view(ls@), i + 1, Run::Paragraph),
        final(out)@ == old(out)@ + "<p>"@ + inline_spec(para_text(lines_view(ls@), i as int, r as int))
            + "</p>\n"@,
{
    let ghost l = lines_view(ls@);
    let k = run_end_of(ls, i + 1, Run::Paragraph);
    proof {
        lemma_run_end(l, i + 1, Run::Paragraph);
    }
    let mut text = copy_range(t, 0, t.len());
    assert(text@ =~= t@);
    let mut j: usize = i + 1;
    while j < k
        invariant
            i + 1 <= j <= k <= ls@.len(),
            l == lines_view(ls@),
            text@ == para_text(l, i as int, j as int),
        decreases k - j,
    {
        let next = trim_end_vec(&ls[j]);
        assert(l[j as int] == ls@[j as int]@);
        text.push(' ');
        extend_chars(&mut text, &next);
        j = j + 1;
    }
    out.append("<p>");
    inline(out, &text);
    out.append("</p>\n");
    k
}

/// Renders a markdown document to HTML: fenced code blocks, headings with
/// anchor slugs, rules, blockquotes, tables, bullet and numbered lists and
/// paragraphs, each line classified with its trailing whitespace trimmed.
pub fn render(src: &str) -> (r: String)
    ensures
        r@ == render_spec(src@),
{
    let chars = chars_of(src);
    let ls = split_lines(&chars);
    let ghost l = lines_view(ls@);
    let mut out = String::new();
    let mut i: usize = 0;
    while i < ls.len()
        invariant
            i <= ls@.len(),
            l == lines_view(ls@),
            l == lines(src@),
            out@ + render_from(l, i as int) == render_from(l, 0),
        decreases ls@.len() - i,
    {
        let ghost before = out@;
        proof {
            lemma_block_next(l, i as int);
        }
        let t = trim_end_vec(&ls[i]);
        assert(l[i as int] == ls@[i as int]@);
        let next = if fence_line(&t) {
            render_fence(&mut out, &ls, i, &t)
        } else if heading(&t) > 0 {
            render_heading(&mut out, &t);
            i + 1
        } else if hr_line(&t) {
            out.append("<hr>\n");
            i + 1
        } else if quote_line(&t) {
            render_quote(&mut out, &ls, i)
        } else if row_line(&t) {
            table(&mut out, &ls, i)
        } else if bullet_line(&t) {
            out.append("<ul>");
            let k = render_list(&mut out, &ls, i, Run::Bullets);
            out.append("</ul>\n");
            k
        } else if ordered_item(&t).is_some() {
            out.append("<ol>");
            let k = render_list(&mut out, &ls, i, Run::Numbered);
            out.append("</ol>\n");
            k
        } else if t.len() == 0 {
            i + 1
        } else {
            render_para(&mut out, &ls, i, &t)
        };
        assert(out@ == before + block(l, i as int).0);
        assert(next == block(l, i as int).1);
        i = next;
    }
    out
}

proof fn lemma_trim_end_len_first(s: Seq<char>, n: int)
    requires
        1 <= n <= s.len(),
        !is_ws(s[0]),
    ensures
        1 <= trim_end_len(s, n) <= n,
    decreases n,
{
    if n > 1 && is_ws(s[n - 1]) {
        lemma_trim_end_len_first(s, n - 1);
    }
}

/// A line that starts with something other than whitespace keeps that
/// first character when its end is trimmed.
proof fn lemma_trim_end_first(s: Seq<char>)
    requires
        s.len() > 0,
        !is_ws(s[0]),
    ensures
        trim_end(s).len() > 0,
        trim_end(s)[0] == s[0],
{
    lemma_trim_end_len_first(s, s.len() as int);
}

/// A line that starts with `#` ends the paragraph before it: a paragraph
/// line followed by such a line renders as that paragraph and then as the
/// line alone, whatever it turns out to be (a heading or a paragraph of
/// its own). `p` is any line that starts a paragraph: no line break, and a
/// first character that opens no other block.
pub proof fn law_hash_line_ends_paragraph(p: Seq<char>, h: Seq<char>)
    requires
        forall|x: int| 0 <= x < p.len() ==> p[x] != '\n' && p[x] != '\r',
        p.len() > 0,
        !is_ws(p[0]),
        !is_digit(p[0]),
        p[0] != '#' && p[0] != '`' && p[0] != '-' && p[0] != '>' && p[0] != '|',
        forall|x: int| 0 <= x < h.len() ==> h[x] != '\n',
        h.len() > 0,
        h[0] == '#',
    ensures
        render_spec(p + seq!['\n'] + h) == "<p>"@ + inline_spec(trim_end(p)) + "</p>\n"@
            + render_spec(h),
{
    let s = p + seq!['\n'] + h;
    let n = p.len() as int;
    // the document's lines are `p` and `h`
    lemma_find_from(s, 0, '\n');
    assert(s[n] == '\n');
    assert forall|y: int| 0 <= y < n implies s[y] != '\n' by {
        assert(s[y] == p[y]);
    }
    assert(find_from(s, 0, '\n') == Some(n));
    assert(s.subrange(0, n) =~= p);
    assert(strip_cr(p) == p);
    lemma_find_from(s, n + 1, '\n');
    assert forall|y: int| n + 1 <= y < s.len() implies s[y] != '\n' by {
        assert(s[y] == h[y - n - 1]);
    }
    lemma_find_from_absent(s, n + 1, '\n');
    assert(s.subrange(n + 1, s.len() as int) =~= h);
    assert(lines_from(s, n + 1) =~= seq![h]);
    assert(lines(s) =~= seq![p, h]);
    lemma_find_from_absent(h, 0, '\n');
    assert(h.subrange(0, h.len() as int) =~= h);
    assert(lines(h) =~= seq![h]);
    let ls = seq![p, h];
    let one = seq![h];
    // the first line opens a paragraph that the `#` line ends
    let t = trim_end(p);
    lemma_trim_end_first(p);
    let th = trim_end(h);
    lemma_trim_end_first(h);
    assert(ls[0] == p && ls[1] == h && one[0] == h);
    assert(run_of(t, 0, '#') == 0);
    assert(digit_run(t, 0) == 0);
    assert(!is_fence(t) && heading_level(t) == 0 && !is_hr(t) && !is_quote(t) && !is_row(t)
        && !is_bullet(t) && ordered_at(t) is None);
    assert(para_break(th));
    assert(run_end(ls, 1, Run::Paragraph) == 1);
    assert(para_text(ls, 0, 1) == t);
    assert(block(ls, 0) == ("<p>"@ + inline_spec(t) + "</p>\n"@, 1int));
    // the `#` line is a block of its own, the same in both documents
    assert(digit_run(th, 0) == 0);
    assert(!is_fence(th) && !is_hr(th) && !is_quote(th) && !is_row(th) && !is_bullet(th)
        && ordered_at(th) is None);
    assert(run_end(ls, 2, Run::Paragraph) == 2);
    assert(run_end(one, 1, Run::Paragraph) == 1);
    assert(para_text(ls, 1, 2) == th);
    assert(para_text(one, 0, 1) == th);
    assert(block(ls, 1).0 == block(one, 0).0);
    assert(block(ls, 1).1 == 2);
    assert(block(one, 0).1 == 1);
    assert(render_from(ls, 2) == Seq::<char>::empty());
    assert(render_from(one, 1) == Seq::<char>::empty());
    assert(render_from(ls, 1) == block(ls, 1).0);
    assert(render_from(one, 0) == block(one, 0).0);
    assert(render_from(ls, 0) == block(ls, 0).0 + render_from(ls, 1));
}

} // verus!
