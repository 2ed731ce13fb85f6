use ikuko::cli::{Args, Cli};
use ikuko::config::DirectoryConfig;
use ikuko::listing::{render_listing, sort_entries, DirEntry};
use ikuko::mime::{mime_for_name, MimeType};
use ikuko::path::{join_under, resolve, within_root, ResolveError};
use ikuko::port::next_port;
use ikuko::range::{parse_range, span, ByteRange};
use ikuko::response::{etag, respond, slash_location, Body, Entry, Method, Request, Response};

fn request(method: Method, name: &str, trailing_slash: bool) -> Request {
    Request {
        method,
        name: name.as_bytes().to_vec(),
        trailing_slash,
        if_none_match: None,
        if_modified_since: None,
        range: None,
    }
}

fn args(list: &[&str]) -> Vec<Vec<u8>> {
    list.iter().map(|a| a.as_bytes().to_vec()).collect()
}

fn file(size: u64) -> Entry {
    Entry::File { size, modified: 1_700_000_000 }
}

fn same_headers(a: &Response, b: &Response) -> bool {
    a.status == b.status
        && a.etag == b.etag
        && a.last_modified == b.last_modified
        && a.content_type == b.content_type
        && a.content_length == b.content_length
        && a.content_range == b.content_range
        && a.accept_ranges == b.accept_ranges
        && a.redirect_to_slash == b.redirect_to_slash
}

#[test]
fn dot_dot_above_root_is_refused() {
    assert_eq!(resolve(b"/docs/../../etc/passwd").unwrap_err(), ResolveError::PathEscape);
    assert_eq!(resolve(b"/..").unwrap_err(), ResolveError::PathEscape);
    assert_eq!(resolve(b"/%2e%2e/secret").unwrap_err(), ResolveError::PathEscape);
    assert_eq!(resolve(b"/a/%2E%2E/%2e%2e/x").unwrap_err(), ResolveError::PathEscape);
}

#[test]
fn dot_dot_within_root_is_followed() {
    let p = resolve(b"/a/./b/../c").unwrap();
    assert_eq!(p.segments, vec![b"a".to_vec(), b"c".to_vec()]);
    assert!(!p.trailing_slash);
    let p = resolve(b"//x//y/").unwrap();
    assert_eq!(p.segments, vec![b"x".to_vec(), b"y".to_vec()]);
    assert!(p.trailing_slash);
    let root = resolve(b"/").unwrap();
    assert!(root.segments.is_empty());
    assert!(root.trailing_slash);
}

#[test]
fn percent_escapes_are_decoded() {
    let p = resolve(b"/my%20file.txt").unwrap();
    assert_eq!(p.segments, vec![b"my file.txt".to_vec()]);
    assert_eq!(resolve(b"/bad%zzescape").unwrap_err(), ResolveError::Malformed);
    assert_eq!(resolve(b"/cut%4").unwrap_err(), ResolveError::Malformed);
    assert_eq!(resolve(b"/nul%00byte").unwrap_err(), ResolveError::Malformed);
}

#[test]
fn canonical_path_must_stay_in_root() {
    assert!(within_root(b"/srv", b"/srv"));
    assert!(within_root(b"/srv", b"/srv/a.txt"));
    assert!(within_root(b"/", b"/etc/passwd"));
    assert!(!within_root(b"/srv", b"/srv2/a.txt"));
    assert!(!within_root(b"/srv", b"/etc/passwd"));
    assert!(!within_root(b"/srv", b"/sr"));
}

#[test]
fn names_join_under_root() {
    let p = resolve(b"/docs/a.txt").unwrap();
    assert_eq!(join_under(b"/srv", &p.segments), b"/srv/docs/a.txt".to_vec());
    assert_eq!(join_under(b"/srv", &Vec::new()), b"/srv".to_vec());
}

#[test]
fn head_mirrors_get() {
    let get = respond(&request(Method::Get, "index.html", false), file(12), true);
    let head = respond(&request(Method::Head, "index.html", false), file(12), true);
    assert!(same_headers(&get, &head));
    assert_eq!(get.content_length, Some(12));
    assert_eq!(get.content_type, Some(MimeType::Html));
    assert_eq!(get.body, Body::Full);
    assert_eq!(head.body, Body::Empty);

    let mut g = request(Method::Get, "a.bin", false);
    g.range = Some(b"bytes=2-5".to_vec());
    let mut h = request(Method::Head, "a.bin", false);
    h.range = Some(b"bytes=2-5".to_vec());
    let get = respond(&g, file(10), true);
    let head = respond(&h, file(10), true);
    assert!(same_headers(&get, &head));
    assert_eq!(get.body, Body::Partial { offset: 2, length: 4 });
    assert_eq!(head.body, Body::Empty);
}

#[test]
fn open_range_from_zero_is_whole_file() {
    let mut req = request(Method::Get, "index.html", false);
    req.range = Some(b"bytes=0-".to_vec());
    let r = respond(&req, file(12), true);
    assert_eq!(r.status, 206);
    assert_eq!(r.content_range, Some(b"bytes 0-11/12".to_vec()));
    assert_eq!(r.content_length, Some(12));
    assert_eq!(r.body, Body::Partial { offset: 0, length: 12 });
}

#[test]
fn validators_are_stable() {
    let first = respond(&request(Method::Get, "index.html", false), file(12), true);
    let second = respond(&request(Method::Get, "index.html", false), file(12), true);
    assert_eq!(first.etag, second.etag);
    assert_eq!(first.last_modified, second.last_modified);
    assert_eq!(first.etag, Some(b"W/\"12-1700000000\"".to_vec()));
    assert_eq!(first.last_modified, Some(1_700_000_000));
}

#[test]
fn etag_spelling() {
    assert_eq!(etag(12, 34), b"W/\"12-34\"".to_vec());
    assert_eq!(etag(0, 0), b"W/\"0-0\"".to_vec());
    assert_eq!(etag(u64::MAX, 7), b"W/\"18446744073709551615-7\"".to_vec());
}

#[test]
fn if_none_match_current_and_stale() {
    let current = respond(&request(Method::Get, "index.html", false), file(12), true).etag.unwrap();
    let mut req = request(Method::Get, "index.html", false);
    req.if_none_match = Some(current);
    let r = respond(&req, file(12), true);
    assert_eq!(r.status, 304);
    assert_eq!(r.body, Body::Empty);
    assert!(r.etag.is_some());

    req.if_none_match = Some(b"W/\"11-1\"".to_vec());
    let r = respond(&req, file(12), true);
    assert_eq!(r.status, 200);
    assert_eq!(r.body, Body::Full);

    req.if_none_match = Some(b"\"12-1700000000\"".to_vec());
    assert_eq!(respond(&req, file(12), true).status, 304);
    req.if_none_match = Some(b"*".to_vec());
    assert_eq!(respond(&req, file(12), true).status, 304);
}

#[test]
fn if_modified_since() {
    let mut req = request(Method::Get, "a.txt", false);
    req.if_modified_since = Some(1_700_000_000);
    assert_eq!(respond(&req, file(5), true).status, 304);
    req.if_modified_since = Some(1_699_999_999);
    assert_eq!(respond(&req, file(5), true).status, 200);
}

#[test]
fn example_tree_under_srv() {
    let docs = resolve(b"/docs").unwrap();
    assert!(!docs.trailing_slash);
    let r = respond(&request(Method::Get, "docs", docs.trailing_slash), Entry::Directory, true);
    assert_eq!(r.status, 301);
    assert!(r.redirect_to_slash);
    assert_eq!(slash_location(b"/docs"), b"/docs/".to_vec());

    let docs = resolve(b"/docs/").unwrap();
    assert_eq!(join_under(b"/srv", &docs.segments), b"/srv/docs".to_vec());
    let r = respond(&request(Method::Get, "docs", docs.trailing_slash), Entry::Directory, true);
    assert_eq!(r.status, 200);
    assert_eq!(r.body, Body::Listing);
    let page = render_listing(&sort_entries(vec![DirEntry { name: b"a.txt".to_vec(), is_dir: false }]));
    let text = String::from_utf8(page).unwrap();
    assert!(text.contains("a.txt"));

    assert_eq!(resolve(b"/docs/../../etc/passwd").unwrap_err(), ResolveError::PathEscape);

    let index = resolve(b"/index.html").unwrap();
    let r = respond(&request(Method::Get, "index.html", index.trailing_slash), file(12), true);
    assert_eq!(r.status, 200);
    assert_eq!(r.content_length, Some(12));
}

#[test]
fn missing_and_unlisted() {
    assert_eq!(respond(&request(Method::Get, "x", false), Entry::NotFound, true).status, 404);
    assert_eq!(respond(&request(Method::Get, "d", true), Entry::Directory, false).status, 404);
    assert_eq!(respond(&request(Method::Head, "d", true), Entry::Directory, true).body, Body::Empty);
}

#[test]
fn unsatisfiable_range() {
    let mut req = request(Method::Get, "a.bin", false);
    req.range = Some(b"bytes=200-300".to_vec());
    let r = respond(&req, file(100), true);
    assert_eq!(r.status, 416);
    assert_eq!(r.content_range, Some(b"bytes */100".to_vec()));
    assert_eq!(r.body, Body::Empty);
}

#[test]
fn range_forms() {
    assert_eq!(parse_range(b"bytes=5-9"), Some(ByteRange::Bounded(5, 9)));
    assert_eq!(parse_range(b"bytes=5-"), Some(ByteRange::From(5)));
    assert_eq!(parse_range(b"bytes=-5"), Some(ByteRange::Suffix(5)));
    assert_eq!(parse_range(b"bytes=9-5"), None);
    assert_eq!(parse_range(b"bytes=a-5"), None);
    assert_eq!(parse_range(b"items=1-2"), None);
    assert_eq!(parse_range(b"bytes=1-2,4-5"), None);
    assert_eq!(parse_range(b"bytes=99999999999999999999-"), None);
    assert_eq!(span(ByteRange::Suffix(5), 100), Some((95, 99)));
    assert_eq!(span(ByteRange::Suffix(500), 100), Some((0, 99)));
    assert_eq!(span(ByteRange::Suffix(0), 100), None);
    assert_eq!(span(ByteRange::Bounded(90, 200), 100), Some((90, 99)));
    assert_eq!(span(ByteRange::From(0), 0), None);

    let mut req = request(Method::Get, "a.bin", false);
    req.range = Some(b"bytes=-10".to_vec());
    let r = respond(&req, file(100), true);
    assert_eq!(r.status, 206);
    assert_eq!(r.content_range, Some(b"bytes 90-99/100".to_vec()));
    req.range = Some(b"bytes=9-5".to_vec());
    assert_eq!(respond(&req, file(100), true).status, 200);
}

#[test]
fn port_retry_goes_down_and_wraps() {
    assert_eq!(next_port(8080), 8079);
    assert_eq!(next_port(2), 1);
    assert_eq!(next_port(1), 65535);
    assert_eq!(next_port(65535), 65534);
}

#[test]
fn arguments() {
    let a = Args::new(args(&[])).unwrap();
    assert_eq!(a.port, 65535);
    assert!(a.path.is_none());
    let a = Args::new(args(&["-p", "8000", "/srv"])).unwrap();
    assert_eq!(a.port, 8000);
    assert_eq!(a.path, Some(b"/srv".to_vec()));
    let a = Args::new(args(&["/srv", "--port", "1"])).unwrap();
    assert_eq!(a.port, 1);
    assert_eq!(Args::new(args(&["-h"])).unwrap_err(), 0);
    assert_eq!(Args::new(args(&["--help", "-x"])).unwrap_err(), 0);
    assert_eq!(Args::new(args(&["-x"])).unwrap_err(), 2);
    assert_eq!(Args::new(args(&["-p"])).unwrap_err(), 2);
    assert_eq!(Args::new(args(&["-p", "0"])).unwrap_err(), 3);
    assert_eq!(Args::new(args(&["-p", "65536"])).unwrap_err(), 3);
    assert_eq!(Args::new(args(&["-p", "http"])).unwrap_err(), 3);
    assert_eq!(Args::new(args(&["a", "b"])).unwrap_err(), 3);
    let c = Cli::from_args(args(&["www"])).unwrap();
    assert_eq!(c.port, 8080);
    assert_eq!(c.path, Some(b"www".to_vec()));
}

#[test]
fn content_types() {
    assert_eq!(mime_for_name(b"index.html"), MimeType::Html);
    assert_eq!(mime_for_name(b"app.js"), MimeType::JavaScript);
    assert_eq!(mime_for_name(b"a.tar.png"), MimeType::Png);
    assert_eq!(mime_for_name(b"a.txt"), MimeType::Text);
    assert_eq!(mime_for_name(b"README"), MimeType::OctetStream);
    assert_eq!(mime_for_name(b"a.unknown"), MimeType::OctetStream);
    assert_eq!(mime_for_name(b".html"), MimeType::Html);
    assert_eq!(MimeType::OctetStream.as_str(), "application/octet-stream");
}

#[test]
fn listing_is_sorted_and_escaped() {
    let entries = vec![
        DirEntry { name: b"b.txt".to_vec(), is_dir: false },
        DirEntry { name: b"B".to_vec(), is_dir: true },
        DirEntry { name: b"a&b".to_vec(), is_dir: false },
    ];
    let sorted = sort_entries(entries);
    let names: Vec<Vec<u8>> = sorted.iter().map(|e| e.name.clone()).collect();
    assert_eq!(names, vec![b"B".to_vec(), b"a&b".to_vec(), b"b.txt".to_vec()]);
    let page = String::from_utf8(render_listing(&sorted)).unwrap();
    assert_eq!(
        page,
        "<!DOCTYPE html>\n<html><body><ul>\n\
         <li><a href=\"B/\">B/</a></li>\n\
         <li><a href=\"a%26b\">a&amp;b</a></li>\n\
         <li><a href=\"b.txt\">b.txt</a></li>\n\
         </ul></body></html>\n"
    );
}

#[test]
fn served_directory() {
    let c = DirectoryConfig::new(None);
    assert_eq!(c.serve_dir(), b".");
    let c = DirectoryConfig::new(Some(b"/srv".to_vec()));
    assert_eq!(c.serve_dir(), b"/srv");
    assert!(c.handle_directory(b"/srv/docs"));
}

#[test]
fn if_none_match_list() {
    let mut req = request(Method::Get, "index.html", false);
    req.if_none_match = Some(b"\"abc\", W/\"12-1700000000\"".to_vec());
    assert_eq!(respond(&req, file(12), true).status, 304);
    req.if_none_match = Some(b"\"abc\",\t\"def\"".to_vec());
    assert_eq!(respond(&req, file(12), true).status, 200);
    assert!(ikuko::response::if_none_match_matches(b" * ", 12, 1));
    assert!(!ikuko::response::if_none_match_matches(b"", 12, 1));
}
