use furrow::serve::{mime, reply, response_head, route, Route};

fn file(r: Route) -> Option<String> {
    match r {
        Route::File(f) => Some(f),
        Route::Forbidden => None,
    }
}

#[test]
fn routes() {
    assert_eq!(file(route("GET / HTTP/1.1\r\nHost: x\r\n")), Some("index.html".to_string()));
    assert_eq!(file(route("GET /about/?x=1 HTTP/1.1")), Some("about/".to_string()));
    assert_eq!(file(route("GET //x#frag HTTP/1.1")), Some("x".to_string()));
    assert_eq!(file(route("")), Some("index.html".to_string()));
    assert_eq!(file(route("GET /a/b.css")), Some("a/b.css".to_string()));
}

#[test]
fn refused_routes() {
    assert!(file(route("GET /../etc/passwd HTTP/1.1")).is_none());
    assert!(file(route("GET /.git/config HTTP/1.1")).is_none());
    assert!(file(route("GET /a/..b HTTP/1.1")).is_none());
    assert!(file(route("GET /sub/.env HTTP/1.1")).is_none());
    assert!(file(route("GET /a/b/.git/HEAD HTTP/1.1")).is_none());
    assert_eq!(file(route("GET /a.b/c.d HTTP/1.1")), Some("a.b/c.d".to_string()));
}

#[test]
fn mime_types() {
    assert_eq!(mime("dist/index.html"), "text/html; charset=utf-8");
    assert_eq!(mime("style.css"), "text/css; charset=utf-8");
    assert_eq!(mime("i.svg"), "image/svg+xml");
    assert_eq!(mime("f.woff2"), "font/woff2");
    assert_eq!(mime("p.png"), "image/png");
    assert_eq!(mime("r.txt"), "text/plain; charset=utf-8");
    assert_eq!(mime("a.tar.gz"), "application/octet-stream");
    assert_eq!(mime("html"), "text/html; charset=utf-8");
    assert_eq!(mime("noext"), "application/octet-stream");
}

#[test]
fn response_heads() {
    assert_eq!(
        response_head(200, "text/plain", 5),
        "HTTP/1.1 200 OK\r\nContent-Type: text/plain\r\nContent-Length: 5\r\nCache-Control: no-store\r\nConnection: close\r\n\r\n"
    );
    assert!(response_head(403, "t", 0).starts_with("HTTP/1.1 403 Forbidden\r\n"));
    assert!(response_head(500, "t", 1234).starts_with("HTTP/1.1 404 Not Found\r\n"));
    assert!(response_head(500, "t", 1234).contains("Content-Length: 1234\r\n"));
}

#[test]
fn replies() {
    let refused = reply(&Route::Forbidden, false, "text/html", "gone");
    assert_eq!(refused.code, 403);
    assert_eq!(refused.ctype, "text/plain");
    assert_eq!(refused.body, Some("forbidden"));
    let served = reply(&Route::File("a.css".to_string()), true, "text/css", "gone");
    assert_eq!(served.code, 200);
    assert_eq!(served.ctype, "text/css");
    assert_eq!(served.body, None);
    let missing = reply(&Route::File("a.css".to_string()), false, "text/css", "gone");
    assert_eq!(missing.code, 404);
    assert_eq!(missing.ctype, "text/plain");
    assert_eq!(missing.body, Some("gone"));
}
