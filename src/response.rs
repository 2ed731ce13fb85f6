//! The response decision: status, validators, range and body for one request.

use vstd::prelude::*;
use crate::mime::{MimeType, mime_for_name, mime_of_name};
use crate::numeric::{decimal_digits, push_all, push_decimal};
use crate::range::{ByteRange, lemma_from_start_header, parse_range, range_of_header, span, span_of};

verus! {

/// The request methods served.
#[derive(Clone, Copy, Debug, PartialEq, Eq, Structural)]
pub enum Method {
    Get,
    Head,
}

/// What the resolved path names on disk.
#[derive(Clone, Copy, Debug, PartialEq, Eq, Structural)]
pub enum Entry {
    NotFound,
    Directory,
    /// A regular file: its size in bytes and modification time in seconds since
    /// the epoch.
    File { size: u64, modified: u64 },
}

/// The parts of a request that the decision reads.
#[derive(Debug)]
pub struct Request {
    pub method: Method,
    /// The last name of the resolved path; it gives the content type.
    pub name: Vec<u8>,
    /// The request path ended in `/`.
    pub trailing_slash: bool,
    pub if_none_match: Option<Vec<u8>>,
    /// `If-Modified-Since`, in seconds since the epoch.
    pub if_modified_since: Option<u64>,
    pub range: Option<Vec<u8>>,
}

/// What is sent after the headers.
#[derive(Clone, Copy, Debug, PartialEq, Eq, Structural)]
pub enum Body {
    Empty,
    /// The whole file.
    Full,
    /// `length` bytes of the file from `offset`.
    Partial { offset: u64, length: u64 },
    /// The listing of the directory.
    Listing,
}

/// The response to send.
#[derive(Debug)]
pub struct Response {
    pub status: u16,
    pub etag: Option<Vec<u8>>,
    /// `Last-Modified`, in seconds since the epoch.
    pub last_modified: Option<u64>,
    pub content_type: Option<MimeType>,
    pub content_length: Option<u64>,
    pub content_range: Option<Vec<u8>>,
    /// Send `Accept-Ranges: bytes`.
    pub accept_ranges: bool,
    /// Redirect to the request path with `/` appended.
    pub redirect_to_slash: bool,
    pub body: Body,
}

/// A `Response` as mathematical values.
pub struct ResponseModel {
    pub status: u16,
    pub etag: Option<Seq<u8>>,
    pub last_modified: Option<u64>,
    pub content_type: Option<MimeType>,
    pub content_length: Option<u64>,
    pub content_range: Option<Seq<u8>>,
    pub accept_ranges: bool,
    pub redirect_to_slash: bool,
    pub body: Body,
}

/// The view of an optional byte string.
pub open spec fn opt_bytes(o: Option<Vec<u8>>) -> Option<Seq<u8>> {
    match o {
        Some(v) => Some(v@),
        None => None,
    }
}

impl View for Response {
    type V = ResponseModel;

    open spec fn view(&self) -> ResponseModel {
        ResponseModel {
            status: self.status,
            etag: opt_bytes(self.etag),
            last_modified: self.last_modified,
            content_type: self.content_type,
            content_length: self.content_length,
            content_range: opt_bytes(self.content_range),
            accept_ranges: self.accept_ranges,
            redirect_to_slash: self.redirect_to_slash,
            body: self.body,
        }
    }
}

/// The strong part of the validator of a file: `"<size>-<modified>"`.
pub open spec fn strong_tag(size: u64, modified: u64) -> Seq<u8> {
    seq![34u8] + decimal_digits(size as nat) + seq![45u8] + decimal_digits(modified as nat) + seq![
        34u8,
    ]
}

/// The weak validator of a file, from its size and modification time:
/// `W/"<size>-<modified>"`.
pub open spec fn etag_of(size: u64, modified: u64) -> Seq<u8> {
    seq![87u8, 47u8] + strong_tag(size, modified)
}

/// One entry `h` of an `If-None-Match` list matches the validator: `*`, or the tag,
/// weak or not.
pub open spec fn tag_matches(h: Seq<u8>, size: u64, modified: u64) -> bool {
    h == seq![42u8] || h == etag_of(size, modified) || h == strong_tag(size, modified)
}

/// Whether an entry of the list `h` seen so far matched, and the entry being read.
/// Spaces and tabs are skipped: no entity tag holds one.
pub open spec fn scan_tags(h: Seq<u8>, size: u64, modified: u64) -> (bool, Seq<u8>)
    decreases h.len(),
{
    if h.len() == 0 {
        (false, Seq::empty())
    } else {
        let (found, cur) = scan_tags(h.drop_last(), size, modified);
        let b = h.last();
        if b == 44 {
            (found || tag_matches(cur, size, modified), Seq::empty())
        } else if b == 32 || b == 9 {
            (found, cur)
        } else {
            (found, cur.push(b))
        }
    }
}

/// Some entry of the comma-separated `If-None-Match` value `h` matches the validator.
pub open spec fn list_matches(h: Seq<u8>, size: u64, modified: u64) -> bool {
    scan_tags(h, size, modified).0 || tag_matches(scan_tags(h, size, modified).1, size, modified)
}

/// The request's conditions say the client's copy is current.
pub open spec fn not_modified(
    inm: Option<Seq<u8>>,
    ims: Option<u64>,
    size: u64,
    modified: u64,
) -> bool {
    (inm matches Some(h) && list_matches(h, size, modified)) || (ims matches Some(t) && t
        >= modified)
}

/// `bytes <first>-<last>/<size>`.
pub open spec fn content_range_of(first: u64, last: u64, size: u64) -> Seq<u8> {
    seq![98u8, 121u8, 116u8, 101u8, 115u8, 32u8] + decimal_digits(first as nat) + seq![45u8]
        + decimal_digits(last as nat) + seq![47u8] + decimal_digits(size as nat)
}

/// `bytes */<size>`.
pub open spec fn unsatisfied_range_of(size: u64) -> Seq<u8> {
    seq![98u8, 121u8, 116u8, 101u8, 115u8, 32u8, 42u8, 47u8] + decimal_digits(size as nat)
}

/// A model with no validators, headers or body.
pub open spec fn bare(status: u16) -> ResponseModel {
    ResponseModel {
        status,
        etag: None,
        last_modified: None,
        content_type: None,
        content_length: None,
        content_range: None,
        accept_ranges: false,
        redirect_to_slash: false,
        body: Body::Empty,
    }
}

/// The body actually sent: none for `HEAD`.
pub open spec fn body_for(method: Method, b: Body) -> Body {
    if method == Method::Head {
        Body::Empty
    } else {
        b
    }
}

/// The response to a request on a file.
pub open spec fn file_response(
    method: Method,
    name: Seq<u8>,
    inm: Option<Seq<u8>>,
    ims: Option<u64>,
    range: Option<Seq<u8>>,
    size: u64,
    modified: u64,
) -> ResponseModel {
    let base = ResponseModel {
        status: 200,
        etag: Some(etag_of(size, modified)),
        last_modified: Some(modified),
        content_type: Some(mime_of_name(name)),
        content_length: None,
        content_range: None,
        accept_ranges: true,
        redirect_to_slash: false,
        body: Body::Empty,
    };
    if not_modified(inm, ims, size, modified) {
        ResponseModel { status: 304, ..base }
    } else {
        let asked = match range {
            Some(h) => range_of_header(h),
            None => None,
        };
        match asked {
            Some(r) => match span_of(r, size) {
                Some((a, b)) => ResponseModel {
                    status: 206,
                    content_length: Some((b - a + 1) as u64),
                    content_range: Some(content_range_of(a, b, size)),
                    body: body_for(method, Body::Partial { offset: a, length: (b - a + 1) as u64 }),
                    ..base
                },
                None => ResponseModel {
                    status: 416,
                    content_range: Some(unsatisfied_range_of(size)),
                    ..base
                },
            },
            None => ResponseModel {
                content_length: Some(size),
                body: body_for(method, Body::Full),
                ..base
            },
        }
    }
}

/// The response to `req` on `entry`; `serve_dirs` says whether directories are listed.
pub open spec fn response_of(
    method: Method,
    name: Seq<u8>,
    trailing_slash: bool,
    inm: Option<Seq<u8>>,
    ims: Option<u64>,
    range: Option<Seq<u8>>,
    entry: Entry,
    serve_dirs: bool,
) -> ResponseModel {
    match entry {
        Entry::NotFound => bare(404),
        Entry::Directory => if !serve_dirs {
            bare(404)
        } else if !trailing_slash {
            ResponseModel { redirect_to_slash: true, ..bare(301) }
        } else {
            ResponseModel { body: body_for(method, Body::Listing), ..bare(200) }
        },
        Entry::File { size, modified } => file_response(
            method,
            name,
            inm,
            ims,
            range,
            size,
            modified,
        ),
    }
}

/// The response that `req` gets on `entry`.
pub open spec fn response_to(req: Request, entry: Entry, serve_dirs: bool) -> ResponseModel {
    response_of(
        req.method,
        req.name@,
        req.trailing_slash,
        opt_bytes(req.if_none_match),
        req.if_modified_since,
        opt_bytes(req.range),
        entry,
        serve_dirs,
    )
}

/// The weak validator of a file of `size` bytes modified at `modified`.
pub fn etag(size: u64, modified: u64) -> (t: Vec<u8>)
    ensures
        t@ == etag_of(size, modified),
{
    let mut t: Vec<u8> = Vec::new();
    push_all(&mut t, &[87u8, 47u8, 34u8]);
    push_decimal(&mut t, size);
    t.push(45u8);
    push_decimal(&mut t, modified);
    t.push(34u8);
    assert(t@ =~= etag_of(size, modified));
    t
}

fn bytes_equal(a: &[u8], b: &[u8]) -> (r: bool)
    ensures
        r == (a@ == b@),
{
    if a.len() != b.len() {
        return false;
    }
    let mut i: usize = 0;
    while i < a.len()
        invariant
            a@.len() == b@.len(),
            i <= a@.len(),
            forall|j: int| 0 <= j < i ==> a@[j] == b@[j],
        decreases a@.len() - i,
    {
        if a[i] != b[i] {
            return false;
        }
        i = i + 1;
    }
    assert(a@ =~= b@);
    true
}

fn tag_matches_exec(h: &[u8], size: u64, modified: u64) -> (r: bool)
    ensures
        r == tag_matches(h@, size, modified),
{
    let t = etag(size, modified);
    if h.len() == 1 && h[0] == 42 {
        assert(h@ =~= seq![42u8]);
        return true;
    }
    assert(h@ != seq![42u8]) by {
        if h@ == seq![42u8] {
            assert(h@.len() == 1 && h@[0] == 42);
        }
    }
    if bytes_equal(h, t.as_slice()) {
        return true;
    }
    let ghost strong = strong_tag(size, modified);
    assert(t@.skip(2) =~= strong);
    let n = t.len();
    if h.len() != n - 2 {
        assert(strong.len() == n - 2);
        return false;
    }
    let mut i: usize = 0;
    while i < h.len()
        invariant
            n == t@.len(),
            h@.len() == n - 2,
            i <= h@.len(),
            strong == t@.skip(2),
            t@ == etag_of(size, modified),
            h@ != t@,
            h@ != seq![42u8],
            forall|j: int| 0 <= j < i ==> h@[j] == strong[j],
        decreases h@.len() - i,
    {
        if h[i] != t[i + 2] {
            assert(h@[i as int] != strong[i as int]);
            return false;
        }
        i = i + 1;
    }
    assert(h@ =~= strong);
    true
}

/// Whether an entry of the `If-None-Match` list `h` matches the validator of the file.
pub fn if_none_match_matches(h: &[u8], size: u64, modified: u64) -> (r: bool)
    ensures
        r == list_matches(h@, size, modified),
{
    let mut found = false;
    let mut cur: Vec<u8> = Vec::new();
    let mut i: usize = 0;
    assert(h@.take(0) =~= Seq::<u8>::empty());
    while i < h.len()
        invariant
            i <= h@.len(),
            scan_tags(h@.take(i as int), size, modified) == (found, cur@),
        decreases h@.len() - i,
    {
        let b = h[i];
        assert(h@.take(i + 1).drop_last() =~= h@.take(i as int));
        if b == 44 {
            found = found || tag_matches_exec(cur.as_slice(), size, modified);
            cur = Vec::new();
        } else if b != 32 && b != 9 {
            cur.push(b);
        }
        i = i + 1;
    }
    assert(h@.take(h@.len() as int) =~= h@);
    found || tag_matches_exec(cur.as_slice(), size, modified)
}

fn content_range(first: u64, last: u64, size: u64) -> (v: Vec<u8>)
    ensures
        v@ == content_range_of(first, last, size),
{
    let mut v: Vec<u8> = Vec::new();
    push_all(&mut v, &[98u8, 121u8, 116u8, 101u8, 115u8, 32u8]);
    push_decimal(&mut v, first);
    v.push(45u8);
    push_decimal(&mut v, last);
    v.push(47u8);
    push_decimal(&mut v, size);
    assert(v@ =~= content_range_of(first, last, size));
    v
}

fn unsatisfied_range(size: u64) -> (v: Vec<u8>)
    ensures
        v@ == unsatisfied_range_of(size),
{
    let mut v: Vec<u8> = Vec::new();
    push_all(&mut v, &[98u8, 121u8, 116u8, 101u8, 115u8, 32u8, 42u8, 47u8]);
    push_decimal(&mut v, size);
    v
}

fn bare_response(status: u16) -> (r: Response)
    ensures
        r@ == bare(status),
{
    Response {
        status,
        etag: None,
        last_modified: None,
        content_type: None,
        content_length: None,
        content_range: None,
        accept_ranges: false,
        redirect_to_slash: false,
        body: Body::Empty,
    }
}

fn sent_body(method: Method, b: Body) -> (r: Body)
    ensures
        r == body_for(method, b),
{
    match method {
        Method::Head => Body::Empty,
        Method::Get => b,
    }
}

/// Decides the response to `req` on `entry`. `serve_dirs` says whether directories
/// are listed; where they are not, a directory is not found.
pub fn respond(req: &Request, entry: Entry, serve_dirs: bool) -> (r: Response)
    ensures
        r@ == response_to(*req, entry, serve_dirs),
{
    match entry {
        Entry::NotFound => bare_response(404),
        Entry::Directory => if !serve_dirs {
            bare_response(404)
        } else if !req.trailing_slash {
            let mut r = bare_response(301);
            r.redirect_to_slash = true;
            r
        } else {
            let mut r = bare_response(200);
            r.body = sent_body(req.method, Body::Listing);
            r
        },
        Entry::File { size, modified } => {
            let fresh = match &req.if_none_match {
                Some(h) => if_none_match_matches(h.as_slice(), size, modified),
                None => false,
            } || match req.if_modified_since {
                Some(t) => t >= modified,
                None => false,
            };
            let mut r = Response {
                status: 200,
                etag: Some(etag(size, modified)),
                last_modified: Some(modified),
                content_type: Some(mime_for_name(req.name.as_slice())),
                content_length: None,
                content_range: None,
                accept_ranges: true,
                redirect_to_slash: false,
                body: Body::Empty,
            };
            if fresh {
                r.status = 304;
                return r;
            }
            let asked = match &req.range {
                Some(h) => parse_range(h.as_slice()),
                None => None,
            };
            match asked {
                Some(br) => match span(br, size) {
                    Some((a, b)) => {
                        r.status = 206;
                        r.content_length = Some(b - a + 1);
                        r.content_range = Some(content_range(a, b, size));
                        r.body = sent_body(req.method, Body::Partial { offset: a, length: b - a + 1 });
                    },
                    None => {
                        r.status = 416;
                        r.content_range = Some(unsatisfied_range(size));
                    },
                },
                None => {
                    r.content_length = Some(size);
                    r.body = sent_body(req.method, Body::Full);
                },
            }
            r
        },
    }
}

/// The `Location` of a redirect to a directory: the raw request path with `/` appended.
pub fn slash_location(path: &[u8]) -> (r: Vec<u8>)
    ensures
        r@ == path@.push(47u8),
{
    let mut out: Vec<u8> = Vec::new();
    push_all(&mut out, path);
    out.push(47u8);
    out
}

/// `a` and `b` send the same status and headers.
pub open spec fn same_headers(a: ResponseModel, b: ResponseModel) -> bool {
    a.status == b.status && a.etag == b.etag && a.last_modified == b.last_modified
        && a.content_type == b.content_type && a.content_length == b.content_length
        && a.content_range == b.content_range && a.accept_ranges == b.accept_ranges
        && a.redirect_to_slash == b.redirect_to_slash
}

/// `HEAD` and `GET` on the same resource, with the same request headers, get the same
/// status and headers (`Content-Length`, validators and `Content-Type` included);
/// the `HEAD` response has no body.
pub proof fn lemma_head_mirrors_get(
    name: Seq<u8>,
    trailing_slash: bool,
    inm: Option<Seq<u8>>,
    ims: Option<u64>,
    range: Option<Seq<u8>>,
    entry: Entry,
    serve_dirs: bool,
)
    ensures
        same_headers(
            response_of(Method::Get, name, trailing_slash, inm, ims, range, entry, serve_dirs),
            response_of(Method::Head, name, trailing_slash, inm, ims, range, entry, serve_dirs),
        ),
        response_of(Method::Head, name, trailing_slash, inm, ims, range, entry, serve_dirs).body
            == Body::Empty,
{
}

/// `Range: bytes=0-` on a non-empty file of `size` bytes, with no conditions, gets
/// 206, `Content-Range: bytes 0-(size-1)/size`, and a body that is the whole file.
pub proof fn lemma_range_from_start_is_whole_file(name: Seq<u8>, size: u64, modified: u64)
    requires
        size > 0,
    ensures
        ({
            let r = response_of(
                Method::Get,
                name,
                false,
                None,
                None,
                Some(seq![98u8, 121u8, 116u8, 101u8, 115u8, 61u8, 48u8, 45u8]),
                Entry::File { size, modified },
                true,
            );
            &&& r.status == 206
            &&& r.content_range == Some(content_range_of(0, (size - 1) as u64, size))
            &&& r.content_length == Some(size)
            &&& r.body == (Body::Partial { offset: 0, length: size })
        }),
{
    lemma_from_start_header();
}

/// Two requests on a file that has not changed carry the same `ETag` and
/// `Last-Modified`, whatever else the requests hold: both depend on the size and
/// the modification time alone.
pub proof fn lemma_validators_stable(
    size: u64,
    modified: u64,
    first: Request,
    second: Request,
    serve_dirs: bool,
)
    ensures
        response_to(first, Entry::File { size, modified }, serve_dirs).etag == Some(
            etag_of(size, modified),
        ),
        response_to(first, Entry::File { size, modified }, serve_dirs).etag == response_to(
            second,
            Entry::File { size, modified },
            serve_dirs,
        ).etag,
        response_to(first, Entry::File { size, modified }, serve_dirs).last_modified
            == response_to(second, Entry::File { size, modified }, serve_dirs).last_modified,
        response_to(first, Entry::File { size, modified }, serve_dirs).last_modified == Some(
            modified,
        ),
{
}

proof fn lemma_decimal_is_digits(n: nat)
    ensures
        forall|i: int|
            0 <= i < decimal_digits(n).len() ==> 48 <= #[trigger] decimal_digits(n)[i] <= 57,
    decreases n,
{
    if n >= 10 {
        lemma_decimal_is_digits(n / 10);
        let p = decimal_digits(n / 10);
        let d = decimal_digits(n);
        assert(d == p + seq![(48 + n % 10) as u8]);
        assert forall|i: int| 0 <= i < d.len() implies 48 <= #[trigger] d[i] <= 57 by {
            if i < p.len() {
                assert(d[i] == p[i]);
            }
        }
    }
}

proof fn lemma_scan_plain(h: Seq<u8>, size: u64, modified: u64)
    requires
        forall|i: int| 0 <= i < h.len() ==> h[i] != 44 && h[i] != 32 && h[i] != 9,
    ensures
        scan_tags(h, size, modified) == (false, h),
    decreases h.len(),
{
    if h.len() > 0 {
        lemma_scan_plain(h.drop_last(), size, modified);
        assert(h.drop_last().push(h.last()) =~= h);
    }
}

/// `If-None-Match` with the file's current validator gets 304 and no body; with a
/// stale one (and no other condition or range) it gets 200 and the whole file.
pub proof fn lemma_if_none_match(
    name: Seq<u8>,
    stale: Seq<u8>,
    range: Option<Seq<u8>>,
    size: u64,
    modified: u64,
)
    requires
        !list_matches(stale, size, modified),
    ensures
        ({
            let r = response_of(
                Method::Get,
                name,
                false,
                Some(etag_of(size, modified)),
                None,
                range,
                Entry::File { size, modified },
                true,
            );
            r.status == 304 && r.body == Body::Empty
        }),
        ({
            let r = response_of(
                Method::Get,
                name,
                false,
                Some(stale),
                None,
                None,
                Entry::File { size, modified },
                true,
            );
            r.status == 200 && r.body == Body::Full && r.content_length == Some(size)
        }),
{
    let t = etag_of(size, modified);
    lemma_decimal_is_digits(size as nat);
    lemma_decimal_is_digits(modified as nat);
    let ds = decimal_digits(size as nat);
    let dm = decimal_digits(modified as nat);
    assert forall|i: int| 0 <= i < t.len() implies t[i] != 44 && t[i] != 32 && t[i] != 9 by {
        if 3 <= i < 3 + ds.len() {
            assert(t[i] == ds[i - 3]);
        } else if 4 + ds.len() <= i < 4 + ds.len() + dm.len() {
            assert(t[i] == dm[i - 4 - ds.len()]);
        }
    }
    lemma_scan_plain(t, size, modified);
}

} // verus!
