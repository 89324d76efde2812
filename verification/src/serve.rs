//! The decisions of the development server: which file a request asks
//! for, which requests are refused, the MIME type of a served file, and
//! the head of a response. The listening loop itself lives with the
//! program that runs it.
use vstd::prelude::*;

use crate::text::{
    chars_of, copy_range, decimal, find_char, find_from, is_whitespace, is_ws, lemma_find_from,
    push_decimal, push_range, trim_start_at,
};

verus! {

/// Where the run of non-whitespace characters starting at `i` ends.
pub open spec fn word_end(s: Seq<char>, i: int) -> int
    decreases s.len() - i,
{
    if 0 <= i < s.len() && !is_ws(s[i]) {
        word_end(s, i + 1)
    } else {
        i
    }
}

/// The second whitespace-separated word of `s` (`split_whitespace().nth(1)`).
pub open spec fn second_word(s: Seq<char>) -> Option<Seq<char>> {
    let a0 = trim_start_at(s, 0);
    let e0 = word_end(s, a0);
    let a1 = trim_start_at(s, e0);
    let e1 = word_end(s, a1);
    if a0 >= s.len() || a1 >= s.len() {
        None
    } else {
        Some(s.subrange(a1, e1))
    }
}

/// The path a request line asks for: its second word (or `/`), up to its
/// first `?` or `#`.
pub open spec fn request_path(req: Seq<char>) -> Seq<char> {
    let target = match second_word(req) {
        Some(w) => w,
        None => seq!['/'],
    };
    let q = match find_from(target, 0, '?') {
        Some(k) => k,
        None => target.len() as int,
    };
    let h = match find_from(target, 0, '#') {
        Some(k) => k,
        None => target.len() as int,
    };
    target.take(if q < h {
        q
    } else {
        h
    })
}

/// What the server does with a request.
pub enum Route {
    /// serve this file, relative to the site's root
    File(String),
    /// refuse: the path reaches for a dotfile or out of the site
    Forbidden,
}

/// What the server does with a request, as a value.
pub enum RouteSpec {
    File(Seq<char>),
    Forbidden,
}

/// Whether `p` holds `..` anywhere.
pub open spec fn has_dot_dot(p: Seq<char>) -> bool {
    exists|k: int| 0 <= k && k + 1 < p.len() && #[trigger] p[k] == '.' && p[k + 1] == '.'
}

/// Whether some segment of `p` (a part between `/`s) starts with `.`: the
/// path leads to or through a dotfile.
pub open spec fn has_dot_segment(p: Seq<char>) -> bool {
    ||| (p.len() > 0 && p[0] == '.')
    ||| exists|k: int| 0 <= k && k + 1 < p.len() && #[trigger] p[k] == '/' && p[k + 1] == '.'
}

/// What the server does with the request `req`: `/` is the site's index;
/// any other path, without its leading slashes, is refused when it holds
/// `..` or a segment that starts with `.`, and served otherwise.
pub open spec fn route_spec(req: Seq<char>) -> RouteSpec {
    let path = request_path(req);
    if path =~= seq!['/'] {
        RouteSpec::File("index.html"@)
    } else {
        let rel = path.skip(trim_start_at_slash(path, 0));
        if has_dot_dot(rel) || has_dot_segment(rel) {
            RouteSpec::Forbidden
        } else {
            RouteSpec::File(rel)
        }
    }
}

/// Where `s[i..]` starts once its leading `/`s are dropped.
pub open spec fn trim_start_at_slash(s: Seq<char>, i: int) -> int
    decreases s.len() - i,
{
    if 0 <= i < s.len() && s[i] == '/' {
        trim_start_at_slash(s, i + 1)
    } else {
        i
    }
}

pub open spec fn route_view(r: Route) -> RouteSpec {
    match r {
        Route::File(f) => RouteSpec::File(f@),
        Route::Forbidden => RouteSpec::Forbidden,
    }
}

/// The path the request line `req` asks for.
fn path_of_request(req: &Vec<char>) -> (r: Vec<char>)
    ensures
        r@ == request_path(req@),
{
    let ghost s = req@;
    let mut a0: usize = 0;
    while a0 < req.len() && is_whitespace(req[a0])
        invariant
            a0 <= s.len(),
            s == req@,
            trim_start_at(s, a0 as int) == trim_start_at(s, 0),
        decreases s.len() - a0,
    {
        a0 = a0 + 1;
    }
    let mut e0: usize = a0;
    while e0 < req.len() && !is_whitespace(req[e0])
        invariant
            a0 <= e0 <= s.len(),
            s == req@,
            word_end(s, e0 as int) == word_end(s, a0 as int),
        decreases s.len() - e0,
    {
        e0 = e0 + 1;
    }
    let mut a1: usize = e0;
    while a1 < req.len() && is_whitespace(req[a1])
        invariant
            e0 <= a1 <= s.len(),
            s == req@,
            trim_start_at(s, a1 as int) == trim_start_at(s, e0 as int),
        decreases s.len() - a1,
    {
        a1 = a1 + 1;
    }
    let mut e1: usize = a1;
    while e1 < req.len() && !is_whitespace(req[e1])
        invariant
            a1 <= e1 <= s.len(),
            s == req@,
            word_end(s, e1 as int) == word_end(s, a1 as int),
        decreases s.len() - e1,
    {
        e1 = e1 + 1;
    }
    let target = if a0 >= req.len() || a1 >= req.len() {
        let mut v: Vec<char> = Vec::new();
        v.push('/');
        assert(v@ =~= seq!['/']);
        v
    } else {
        copy_range(req, a1, e1)
    };
    let mut end: usize = target.len();
    match find_char(&target, 0, '?') {
        Some(k) => {
            end = k;
        },
        None => {},
    }
    match find_char(&target, 0, '#') {
        Some(k) => {
            if k < end {
                end = k;
            }
        },
        None => {},
    }
    proof {
        lemma_find_from(target@, 0, '?');
        lemma_find_from(target@, 0, '#');
    }
    let r = copy_range(&target, 0, end);
    assert(r@ =~= target@.take(end as int));
    r
}

/// What the server does with the request whose text is `req`: the file it
/// serves, relative to the site's root, or a refusal for paths that hold
/// `..` or lead to or through a dotfile.
pub fn route(req: &str) -> (r: Route)
    ensures
        route_view(r) == route_spec(req@),
{
    let chars = chars_of(req);
    let path = path_of_request(&chars);
    if path.len() == 1 && path[0] == '/' {
        let mut f = String::new();
        f.append("index.html");
        assert(path@ =~= seq!['/']);
        return Route::File(f);
    }
    assert(!(path@ =~= seq!['/']));
    let mut i: usize = 0;
    while i < path.len() && path[i] == '/'
        invariant
            i <= path@.len(),
            trim_start_at_slash(path@, i as int) == trim_start_at_slash(path@, 0),
        decreases path@.len() - i,
    {
        i = i + 1;
    }
    let rel = copy_range(&path, i, path.len());
    assert(rel@ =~= path@.skip(i as int));
    if rel.len() > 0 && rel[0] == '.' {
        return Route::Forbidden;
    }
    let ghost p = path@;
    let mut k: usize = 0;
    while rel.len() > 1 && k < rel.len() - 1
        invariant
            p == request_path(req@),
            !(p =~= seq!['/']),
            rel@ == p.skip(trim_start_at_slash(p, 0)),
            !(rel@.len() > 0 && rel@[0] == '.'),
            forall|x: int| 0 <= x < k && x + 1 < rel@.len() ==> !(#[trigger] rel@[x] == '.' && rel@[x + 1] == '.'),
            forall|x: int| 0 <= x < k && x + 1 < rel@.len() ==> !(#[trigger] rel@[x] == '/' && rel@[x + 1] == '.'),
        decreases rel@.len() - k,
    {
        if rel[k] == '.' && rel[k + 1] == '.' {
            assert(has_dot_dot(rel@));
            return Route::Forbidden;
        }
        if rel[k] == '/' && rel[k + 1] == '.' {
            assert(has_dot_segment(rel@));
            return Route::Forbidden;
        }
        k = k + 1;
    }
    assert(!has_dot_dot(rel@));
    assert(!has_dot_segment(rel@));
    let mut f = String::new();
    push_range(&mut f, &rel, 0, rel.len());
    assert(rel@.subrange(0, rel@.len() as int) =~= rel@);
    Route::File(f)
}

/// The extension of a path: what follows its last `.`, or the whole path
/// when it has none.
pub open spec fn extension(path: Seq<char>) -> Seq<char> {
    path.skip(last_dot(path, path.len() as int) + 1)
}

/// The last `.` before position `n`, or -1.
pub open spec fn last_dot(s: Seq<char>, n: int) -> int
    decreases n,
{
    if n <= 0 || n > s.len() {
        -1
    } else if s[n - 1] == '.' {
        n - 1
    } else {
        last_dot(s, n - 1)
    }
}

/// The content type of a served file, by its extension.
pub open spec fn mime_spec(path: Seq<char>) -> Seq<char> {
    let e = extension(path);
    if e == "html"@ {
        "text/html; charset=utf-8"@
    } else if e == "css"@ {
        "text/css; charset=utf-8"@
    } else if e == "svg"@ {
        "image/svg+xml"@
    } else if e == "woff2"@ {
        "font/woff2"@
    } else if e == "png"@ {
        "image/png"@
    } else if e == "txt"@ {
        "text/plain; charset=utf-8"@
    } else {
        "application/octet-stream"@
    }
}

/// Whether the characters of `v` are those of `s`.
fn same_chars(v: &Vec<char>, s: &str) -> (r: bool)
    ensures
        r == (v@ == s@),
{
    let w = chars_of(s);
    if v.len() != w.len() {
        return false;
    }
    let mut k: usize = 0;
    while k < v.len()
        invariant
            k <= v@.len(),
            v@.len() == w@.len(),
            w@ == s@,
            forall|x: int| 0 <= x < k ==> v@[x] == w@[x],
        decreases v@.len() - k,
    {
        if v[k] != w[k] {
            assert(v@[k as int] != w@[k as int]);
            return false;
        }
        k = k + 1;
    }
    assert(v@ =~= w@);
    true
}

/// The content type of a served file, by its extension: html, css, svg,
/// woff2, png and txt are known, anything else is an octet stream.
pub fn mime(path: &str) -> (r: &'static str)
    ensures
        r@ == mime_spec(path@),
{
    let p = chars_of(path);
    let mut n: usize = p.len();
    while n > 0 && p[n - 1] != '.'
        invariant
            n <= p@.len(),
            last_dot(p@, n as int) == last_dot(p@, p@.len() as int),
        decreases n,
    {
        n = n - 1;
    }
    let e = copy_range(&p, n, p.len());
    assert(e@ =~= extension(p@));
    if same_chars(&e, "html") {
        "text/html; charset=utf-8"
    } else if same_chars(&e, "css") {
        "text/css; charset=utf-8"
    } else if same_chars(&e, "svg") {
        "image/svg+xml"
    } else if same_chars(&e, "woff2") {
        "font/woff2"
    } else if same_chars(&e, "png") {
        "image/png"
    } else if same_chars(&e, "txt") {
        "text/plain; charset=utf-8"
    } else {
        "application/octet-stream"
    }
}

/// The status line text for a response code: 200 and 403 are named, every
/// other code answers as 404.
pub open spec fn status_spec(code: u16) -> Seq<char> {
    if code == 200 {
        "200 OK"@
    } else if code == 403 {
        "403 Forbidden"@
    } else {
        "404 Not Found"@
    }
}

/// The head of a response with status `code`, content type `ctype` and a
/// body of `body_len` bytes.
pub open spec fn response_head_spec(code: u16, ctype: Seq<char>, body_len: nat) -> Seq<char> {
    "HTTP/1.1 "@ + status_spec(code) + "\r\nContent-Type: "@ + ctype + "\r\nContent-Length: "@
        + decimal(body_len) + "\r\nCache-Control: no-store\r\nConnection: close\r\n\r\n"@
}

/// The head of a response: status line, content type and length, no
/// caching, and a closed connection.
pub fn response_head(code: u16, ctype: &str, body_len: u64) -> (r: String)
    ensures
        r@ == response_head_spec(code, ctype@, body_len as nat),
{
    let mut out = String::new();
    out.append("HTTP/1.1 ");
    if code == 200 {
        out.append("200 OK");
    } else if code == 403 {
        out.append("403 Forbidden");
    } else {
        out.append("404 Not Found");
    }
    out.append("\r\nContent-Type: ");
    out.append(ctype);
    out.append("\r\nContent-Length: ");
    push_decimal(&mut out, body_len);
    out.append("\r\nCache-Control: no-store\r\nConnection: close\r\n\r\n");
    out
}

/// The answer to a request: its status code, its content type, and the
/// body it carries, where that is not the file that was read (`None`).
pub struct Reply<'a> {
    pub code: u16,
    pub ctype: &'a str,
    pub body: Option<&'a str>,
}

/// How a request is answered once it has been routed and, if it names a
/// file, that file has been read (`read_ok`) and typed (`file_ctype`): a
/// refused path gets 403 and the text `forbidden`, a file that was read
/// gets 200 with its own type and bytes, and any other gets 404 with the
/// site's not-found text.
pub fn reply<'a>(route: &Route, read_ok: bool, file_ctype: &'a str, not_found: &'a str) -> (r:
    Reply<'a>)
    ensures
        route is Forbidden ==> {
            &&& r.code == 403
            &&& r.ctype@ == "text/plain"@
            &&& r.body matches Some(b) && b@ == "forbidden"@
        },
        route is File && read_ok ==> r.code == 200 && r.ctype@ == file_ctype@ && r.body is None,
        route is File && !read_ok ==> {
            &&& r.code == 404
            &&& r.ctype@ == "text/plain"@
            &&& r.body matches Some(b) && b@ == not_found@
        },
{
    match route {
        Route::Forbidden => Reply { code: 403, ctype: "text/plain", body: Some("forbidden") },
        Route::File(_) => {
            if read_ok {
                Reply { code: 200, ctype: file_ctype, body: None }
            } else {
                Reply { code: 404, ctype: "text/plain", body: Some(not_found) }
            }
        },
    }
}

proof fn lemma_last_dot_after(a: Seq<char>, e: Seq<char>, n: int)
    requires
        forall|x: int| 0 <= x < e.len() ==> e[x] != '.',
        a.len() + 1 <= n <= a.len() + 1 + e.len(),
    ensures
        last_dot(a + seq!['.'] + e, n) == a.len(),
    decreases n,
{
    let s = a + seq!['.'] + e;
    if n > a.len() + 1 {
        assert(s[n - 1] == e[n - 1 - a.len() - 1]);
        lemma_last_dot_after(a, e, n - 1);
    }
}

/// The extension of a path is what follows its last dot.
pub proof fn lemma_extension_after_last_dot(a: Seq<char>, e: Seq<char>)
    requires
        forall|x: int| 0 <= x < e.len() ==> e[x] != '.',
    ensures
        extension(a + seq!['.'] + e) == e,
{
    lemma_last_dot_after(a, e, (a.len() + 1 + e.len()) as int);
    assert((a + seq!['.'] + e).skip(a.len() + 1int) =~= e);
}

/// A file's type goes by the text after the last dot of its path alone:
/// whatever comes before it, `a.e` is typed as `x.e`; so every path that
/// ends in `.css` is served as CSS.
pub proof fn law_mime_by_last_extension(a: Seq<char>, e: Seq<char>)
    requires
        forall|x: int| 0 <= x < e.len() ==> e[x] != '.',
    ensures
        mime_spec(a + seq!['.'] + e) == mime_spec(seq!['x', '.'] + e),
        mime_spec(a + ".css"@) == "text/css; charset=utf-8"@,
{
    lemma_extension_after_last_dot(a, e);
    lemma_extension_after_last_dot(seq!['x'], e);
    assert(seq!['x', '.'] + e =~= seq!['x'] + seq!['.'] + e);
    reveal_strlit(".css");
    reveal_strlit("html");
    reveal_strlit("css");
    let css = "css"@;
    assert(a + ".css"@ =~= a + seq!['.'] + css);
    lemma_extension_after_last_dot(a, css);
}

/// The server never serves outside the site nor a dotfile: a file it
/// serves holds no `..`, starts with neither `.` nor `/`, and has no
/// segment that starts with `.`.
pub proof fn law_route_stays_inside(req: Seq<char>)
    ensures
        route_spec(req) matches RouteSpec::File(p) ==> {
            &&& !has_dot_dot(p)
            &&& !(p.len() > 0 && p[0] == '.')
            &&& !(p.len() > 0 && p[0] == '/')
            &&& forall|k: int| 0 <= k && k + 1 < p.len() ==> !(#[trigger] p[k] == '/' && p[k + 1] == '.')
        },
{
    let path = request_path(req);
    if path =~= seq!['/'] {
        reveal_strlit("index.html");
        let f = "index.html"@;
        assert forall|k: int| 0 <= k && k + 1 < f.len() implies !(#[trigger] f[k] == '.' && f[k
            + 1] == '.') by {
            if k == 5 {
                assert(f[k + 1] == 'h');
            } else {
                assert(f[k] != '.');
            }
        }
        assert forall|k: int| 0 <= k && k + 1 < f.len() implies !(#[trigger] f[k] == '/' && f[k
            + 1] == '.') by {
            assert(f[k] != '/');
        }
    } else {
        lemma_trim_start_at_slash_stops(path, 0);
    }
}

proof fn lemma_trim_start_at_slash_stops(s: Seq<char>, i: int)
    requires
        0 <= i <= s.len(),
    ensures
        i <= trim_start_at_slash(s, i) <= s.len(),
        trim_start_at_slash(s, i) < s.len() ==> s[trim_start_at_slash(s, i)] != '/',
    decreases s.len() - i,
{
    if i < s.len() && s[i] == '/' {
        lemma_trim_start_at_slash_stops(s, i + 1);
    }
}

} // verus!
