//! What the web routes answer: status, headers and body of the response to a
//! request for an asset, and to a request for the favicon.

use vstd::prelude::*;

use crate::assets::{get_file_data, get_index_data, index_path, AssetStore, Resource, ResourceView};
use crate::encoding::{accepts_gzip, accepts_gzip_spec, values_view};
use crate::text::{is_prefix, starts_with};

verus! {

/// The response headers that the routes set.
#[derive(Clone, Copy, Debug, PartialEq, Eq, Structural)]
pub enum HeaderField {
    XContentTypeOptions,
    XFrameOptions,
    ReferrerPolicy,
    CacheControl,
    PermissionsPolicy,
    ContentSecurityPolicy,
    Vary,
    ContentType,
    ContentEncoding,
}

/// A response: its status code, its headers in the order they are set, and
/// its body.
pub struct WebResponse<'a> {
    pub status: u16,
    pub headers: Vec<(HeaderField, &'a str)>,
    pub body: &'a [u8],
}

/// The headers of a response as mathematical values.
pub open spec fn headers_view(h: Seq<(HeaderField, &str)>) -> Seq<(HeaderField, Seq<char>)> {
    h.map_values(|p: (HeaderField, &str)| (p.0, p.1@))
}

/// The path that a request names: the one given, or `index.html` when none is.
pub open spec fn requested_path(path: Option<Seq<char>>) -> Seq<char> {
    match path {
        Some(p) => p,
        None => index_path(),
    }
}

/// The resource served for `path`: the one stored there, else the root page.
pub open spec fn served_resource(store: Map<Seq<char>, ResourceView>, path: Seq<char>) -> ResourceView {
    if store.contains_key(path) {
        store[path]
    } else {
        store[index_path()]
    }
}

/// Fingerprinted assets live under `assets/` and may be cached indefinitely;
/// everything else, the root page served in place of a missing file among
/// it, must be revalidated on every request.  `stored` says whether a file
/// is stored at `path`.
pub open spec fn cache_control_value(path: Seq<char>, stored: bool) -> Seq<char> {
    if stored && is_prefix("assets/"@, path) {
        "public, max-age=31536000, immutable"@
    } else {
        "no-cache"@
    }
}

/// The `Content-Type` of a resource: its MIME type, or
/// `application/octet-stream` where it has none.
pub open spec fn content_type_value(mime: Seq<char>) -> Seq<char> {
    if mime.len() == 0 {
        "application/octet-stream"@
    } else {
        mime
    }
}

/// The policy that the `Content-Security-Policy` header carries.
pub open spec fn content_security_policy() -> Seq<char> {
    "default-src 'self'; font-src 'self'; img-src 'self' data:; script-src 'self'; style-src 'self'; connect-src 'self'; frame-src 'self'; frame-ancestors 'self'; form-action 'self';"@
}

/// `headers`, followed by `Content-Encoding: gzip` where the body is gzip.
pub open spec fn with_encoding(headers: Seq<(HeaderField, Seq<char>)>, gzip: bool) -> Seq<(HeaderField, Seq<char>)> {
    if gzip {
        headers.push((HeaderField::ContentEncoding, "gzip"@))
    } else {
        headers
    }
}

/// The headers of the response to an asset request for `path` (whether or
/// not a file is `stored` there), serving a resource of MIME type `mime`.
pub open spec fn web_headers(path: Seq<char>, stored: bool, mime: Seq<char>, gzip: bool) -> Seq<(HeaderField, Seq<char>)> {
    with_encoding(
        seq![
            (HeaderField::XContentTypeOptions, "nosniff"@),
            (HeaderField::XFrameOptions, "SAMEORIGIN"@),
            (HeaderField::ReferrerPolicy, "strict-origin-when-cross-origin"@),
            (HeaderField::CacheControl, cache_control_value(path, stored)),
            (HeaderField::PermissionsPolicy, "geolocation=(), microphone=(), camera=()"@),
            (HeaderField::ContentSecurityPolicy, content_security_policy()),
            (HeaderField::Vary, "Accept-Encoding"@),
            (HeaderField::ContentType, content_type_value(mime)),
        ],
        gzip,
    )
}

/// The headers of the response to a favicon request that finds one.
pub open spec fn favicon_headers(mime: Seq<char>, gzip: bool) -> Seq<(HeaderField, Seq<char>)> {
    with_encoding(
        seq![
            (HeaderField::XContentTypeOptions, "nosniff"@),
            (HeaderField::ContentType, content_type_value(mime)),
            (HeaderField::Vary, "Accept-Encoding"@),
        ],
        gzip,
    )
}

/// The body served for `res`: its gzip form where gzip is accepted.
pub open spec fn body_of(res: ResourceView, gzip: bool) -> Seq<u8> {
    if gzip {
        res.data_gzip
    } else {
        res.data_uncompressed
    }
}

/// The path where the favicon is stored.
pub open spec fn favicon_path() -> Seq<char> {
    "favicon.ico"@
}

/// The path as a mathematical value.
pub open spec fn path_view(path: Option<&str>) -> Option<Seq<char>> {
    match path {
        Some(p) => Some(p@),
        None => None,
    }
}

/// The `Cache-Control` value for a request of `path`, where a file is
/// `stored` there or not.
pub fn cache_control_for(path: &str, stored: bool) -> (r: &'static str)
    ensures
        r@ == cache_control_value(path@, stored),
{
    if stored && starts_with(path, "assets/") {
        "public, max-age=31536000, immutable"
    } else {
        "no-cache"
    }
}

/// The `Content-Type` value for `resource`.
pub fn content_type_for(resource: &Resource) -> (r: &str)
    ensures
        r@ == content_type_value(resource@.mime_type),
{
    if resource.mime_type.as_str().is_empty() {
        "application/octet-stream"
    } else {
        resource.mime_type.as_str()
    }
}

/// The body for `resource`, and, where it is gzip, the header that says so.
fn encode_body<'a>(resource: &'a Resource, gzip: bool, headers: &mut Vec<(HeaderField, &'a str)>) -> (body: &'a [u8])
    ensures
        headers_view(final(headers)@) == with_encoding(headers_view(old(headers)@), gzip),
        body@ == body_of(resource@, gzip),
{
    if gzip {
        headers.push((HeaderField::ContentEncoding, "gzip"));
        proof {
            assert(headers_view(headers@) =~= headers_view(old(headers)@).push((HeaderField::ContentEncoding, "gzip"@)));
        }
        resource.data_gzip.as_slice()
    } else {
        resource.data_uncompressed.as_slice()
    }
}

/// Answers a request for a web asset at `path` (`None` for the application
/// root): the stored file, or `index.html` where nothing is stored at `path`,
/// with security and caching headers (long-lived caching only for a stored
/// file under `assets/`), gzip-encoded where the request's
/// `Accept-Encoding` value accepts gzip.
pub fn web_response<'a>(store: &'a AssetStore, path: Option<&str>, accept_encoding: &[&[u8]]) -> (r: WebResponse<'a>)
    requires
        store.wf(),
    ensures
        r.status == 200,
        headers_view(r.headers@) == web_headers(
            requested_path(path_view(path)),
            store@.contains_key(requested_path(path_view(path))),
            served_resource(store@, requested_path(path_view(path))).mime_type,
            accepts_gzip_spec(values_view(accept_encoding@)),
        ),
        r.body@ == body_of(
            served_resource(store@, requested_path(path_view(path))),
            accepts_gzip_spec(values_view(accept_encoding@)),
        ),
{
    let path_str: &str = match path {
        Some(p) => p,
        None => "index.html",
    };
    let (file_data, stored) = match get_file_data(store, path_str) {
        Some(res) => (res, true),
        None => (get_index_data(store), false),
    };
    let mut headers: Vec<(HeaderField, &'a str)> = Vec::new();
    headers.push((HeaderField::XContentTypeOptions, "nosniff"));
    headers.push((HeaderField::XFrameOptions, "SAMEORIGIN"));
    headers.push((HeaderField::ReferrerPolicy, "strict-origin-when-cross-origin"));
    headers.push((HeaderField::CacheControl, cache_control_for(path_str, stored)));
    headers.push((HeaderField::PermissionsPolicy, "geolocation=(), microphone=(), camera=()"));
    headers.push((
        HeaderField::ContentSecurityPolicy,
        "default-src 'self'; font-src 'self'; img-src 'self' data:; script-src 'self'; style-src 'self'; connect-src 'self'; frame-src 'self'; frame-ancestors 'self'; form-action 'self';",
    ));
    headers.push((HeaderField::Vary, "Accept-Encoding"));
    headers.push((HeaderField::ContentType, content_type_for(file_data)));
    let gzip = accepts_gzip(accept_encoding);
    proof {
        let p = requested_path(path_view(path));
        assert(path_str@ == p);
        assert(headers_view(headers@) =~= seq![
            (HeaderField::XContentTypeOptions, "nosniff"@),
            (HeaderField::XFrameOptions, "SAMEORIGIN"@),
            (HeaderField::ReferrerPolicy, "strict-origin-when-cross-origin"@),
            (HeaderField::CacheControl, cache_control_value(p, store@.contains_key(p))),
            (HeaderField::PermissionsPolicy, "geolocation=(), microphone=(), camera=()"@),
            (HeaderField::ContentSecurityPolicy, content_security_policy()),
            (HeaderField::Vary, "Accept-Encoding"@),
            (HeaderField::ContentType, content_type_value(served_resource(store@, p).mime_type)),
        ]);
    }
    let body = encode_body(file_data, gzip, &mut headers);
    WebResponse { status: 200, headers, body }
}

/// Answers a request for `favicon.ico`: the stored favicon, gzip-encoded where
/// the request accepts gzip, or `404 Not Found` with no headers and an empty
/// body where none is stored (no fallback to `index.html`).
pub fn favicon_response<'a>(store: &'a AssetStore, accept_encoding: &[&[u8]]) -> (r: WebResponse<'a>)
    requires
        store.wf(),
    ensures
        store@.contains_key(favicon_path()) ==> {
            &&& r.status == 200
            &&& headers_view(r.headers@) == favicon_headers(
                store@[favicon_path()].mime_type,
                accepts_gzip_spec(values_view(accept_encoding@)),
            )
            &&& r.body@ == body_of(store@[favicon_path()], accepts_gzip_spec(values_view(accept_encoding@)))
        },
        !store@.contains_key(favicon_path()) ==> {
            &&& r.status == 404
            &&& r.headers@.len() == 0
            &&& r.body@.len() == 0
        },
{
    match get_file_data(store, "favicon.ico") {
        Some(file_data) => {
            let mut headers: Vec<(HeaderField, &'a str)> = Vec::new();
            headers.push((HeaderField::XContentTypeOptions, "nosniff"));
            headers.push((HeaderField::ContentType, content_type_for(file_data)));
            headers.push((HeaderField::Vary, "Accept-Encoding"));
            let gzip = accepts_gzip(accept_encoding);
            proof {
                assert(headers_view(headers@) =~= seq![
                    (HeaderField::XContentTypeOptions, "nosniff"@),
                    (HeaderField::ContentType, content_type_value(store@[favicon_path()].mime_type)),
                    (HeaderField::Vary, "Accept-Encoding"@),
                ]);
            }
            let body = encode_body(file_data, gzip, &mut headers);
            WebResponse { status: 200, headers, body }
        },
        None => {
            let empty: &[u8] = &[];
            WebResponse { status: 404, headers: Vec::new(), body: empty }
        },
    }
}

/// An asset request is always answered with a stored resource: the one at the
/// requested path, or else the root page.
pub proof fn law_asset_request_served_from_store(store: &AssetStore, path: Option<Seq<char>>)
    requires
        store.wf(),
    ensures
        store@.contains_key(requested_path(path)) ==> served_resource(store@, requested_path(path))
            == store@[requested_path(path)],
        !store@.contains_key(requested_path(path)) ==> served_resource(store@, requested_path(path))
            == store@[index_path()],
        store@.contains_key(index_path()),
{
    crate::assets::law_index_always_stored(store);
}

/// A request without a path is answered as one for `index.html`.
pub proof fn law_root_is_index(store: &AssetStore)
    requires
        store.wf(),
    ensures
        requested_path(None) == index_path(),
        served_resource(store@, requested_path(None)) == store@[index_path()],
{
    crate::assets::law_index_always_stored(store);
}

/// The body is gzip exactly when the headers say so with
/// `Content-Encoding: gzip`, the last header; otherwise no such header is set.
pub proof fn law_encoding_header_matches_body(path: Seq<char>, stored: bool, res: ResourceView, gzip: bool)
    ensures
        gzip ==> web_headers(path, stored, res.mime_type, gzip).last() == (HeaderField::ContentEncoding, "gzip"@),
        gzip ==> favicon_headers(res.mime_type, gzip).last() == (HeaderField::ContentEncoding, "gzip"@),
        forall|i: int| 0 <= i < web_headers(path, stored, res.mime_type, gzip).len() && #[trigger] web_headers(path, stored, res.mime_type, gzip)[i].0 == HeaderField::ContentEncoding ==> gzip,
        forall|i: int| 0 <= i < favicon_headers(res.mime_type, gzip).len() && #[trigger] favicon_headers(res.mime_type, gzip)[i].0 == HeaderField::ContentEncoding ==> gzip,
        body_of(res, gzip) == (if gzip { res.data_gzip } else { res.data_uncompressed }),
{
}


/// The `Cache-Control` header of an asset response: every stored file whose
/// path begins with `assets/`, whatever its extension, may be cached for a
/// year as immutable; anything else, the root page served in place of a
/// missing file among them, is `no-cache`.
pub proof fn law_cache_policy(path: Seq<char>, stored: bool, mime: Seq<char>, gzip: bool)
    ensures
        web_headers(path, stored, mime, gzip)[3].0 == HeaderField::CacheControl,
        stored && is_prefix("assets/"@, path) ==> web_headers(path, stored, mime, gzip)[3].1
            == "public, max-age=31536000, immutable"@,
        !stored ==> web_headers(path, stored, mime, gzip)[3].1 == "no-cache"@,
        !is_prefix("assets/"@, path) ==> web_headers(path, stored, mime, gzip)[3].1 == "no-cache"@,
{
}

/// The `Content-Type` header names the served resource's MIME type whenever
/// it has one, whatever the type; `application/octet-stream` only where it
/// has none.
pub proof fn law_content_type(path: Seq<char>, stored: bool, mime: Seq<char>, gzip: bool)
    ensures
        web_headers(path, stored, mime, gzip)[7].0 == HeaderField::ContentType,
        favicon_headers(mime, gzip)[1].0 == HeaderField::ContentType,
        mime.len() > 0 ==> web_headers(path, stored, mime, gzip)[7].1 == mime,
        mime.len() > 0 ==> favicon_headers(mime, gzip)[1].1 == mime,
        mime.len() == 0 ==> web_headers(path, stored, mime, gzip)[7].1 == "application/octet-stream"@,
        mime.len() == 0 ==> favicon_headers(mime, gzip)[1].1 == "application/octet-stream"@,
{
}

/// Encoding the body with gzip changes no header: it only adds
/// `Content-Encoding: gzip` after the same headers as the plain response.
pub proof fn law_gzip_only_adds_encoding(path: Seq<char>, stored: bool, mime: Seq<char>)
    ensures
        web_headers(path, stored, mime, true) == web_headers(path, stored, mime, false).push(
            (HeaderField::ContentEncoding, "gzip"@),
        ),
        favicon_headers(mime, true) == favicon_headers(mime, false).push(
            (HeaderField::ContentEncoding, "gzip"@),
        ),
        web_headers(path, stored, mime, false).len() == 8,
        favicon_headers(mime, false).len() == 3,
{
}

/// A response to a request served from the store carries the served
/// resource's MIME type: a stored file's guessed type, never replaced.
pub proof fn law_served_type_is_stored_type(store: &AssetStore, path: Option<Seq<char>>, gzip: bool)
    requires
        store.wf(),
    ensures
        web_headers(
            requested_path(path),
            store@.contains_key(requested_path(path)),
            served_resource(store@, requested_path(path)).mime_type,
            gzip,
        )[7].1 == served_resource(store@, requested_path(path)).mime_type,
        store@.contains_key(favicon_path()) ==> favicon_headers(store@[favicon_path()].mime_type, gzip)[1].1
            == store@[favicon_path()].mime_type,
{
    crate::assets::law_index_always_stored(store);
    let p = requested_path(path);
    if store@.contains_key(p) {
        crate::assets::law_stored_resources_are_files(store, p);
    } else {
        crate::assets::law_stored_resources_are_files(store, index_path());
    }
    if store@.contains_key(favicon_path()) {
        crate::assets::law_stored_resources_are_files(store, favicon_path());
    }
}

/// Every asset response carries the same security headers, and every
/// response that serves a file says that it varies with `Accept-Encoding`.
pub proof fn law_fixed_headers(path: Seq<char>, stored: bool, mime: Seq<char>, gzip: bool)
    ensures
        web_headers(path, stored, mime, gzip)[0] == (HeaderField::XContentTypeOptions, "nosniff"@),
        web_headers(path, stored, mime, gzip)[1] == (HeaderField::XFrameOptions, "SAMEORIGIN"@),
        web_headers(path, stored, mime, gzip)[2] == (HeaderField::ReferrerPolicy, "strict-origin-when-cross-origin"@),
        web_headers(path, stored, mime, gzip)[4] == (
            HeaderField::PermissionsPolicy,
            "geolocation=(), microphone=(), camera=()"@,
        ),
        web_headers(path, stored, mime, gzip)[5] == (
            HeaderField::ContentSecurityPolicy,
            "default-src 'self'; font-src 'self'; img-src 'self' data:; script-src 'self'; style-src 'self'; connect-src 'self'; frame-src 'self'; frame-ancestors 'self'; form-action 'self';"@,
        ),
        web_headers(path, stored, mime, gzip)[6] == (HeaderField::Vary, "Accept-Encoding"@),
        favicon_headers(mime, gzip)[0] == (HeaderField::XContentTypeOptions, "nosniff"@),
        favicon_headers(mime, gzip)[2] == (HeaderField::Vary, "Accept-Encoding"@),
{
}

} // verus!
