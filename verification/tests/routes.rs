use flate2::write::GzEncoder;
use flate2::Compression;
use lib_web::{favicon_response, web_response, AssetStore, HeaderField, WebResponse};
use std::io::Write;

const NONE: &[&[u8]] = &[];

const CSP: &str = "default-src 'self'; font-src 'self'; img-src 'self' data:; script-src 'self'; style-src 'self'; connect-src 'self'; frame-src 'self'; frame-ancestors 'self'; form-action 'self';";

fn gzip(data: &[u8]) -> Vec<u8> {
    let mut encoder = GzEncoder::new(Vec::new(), Compression::best());
    encoder.write_all(data).unwrap();
    encoder.finish().unwrap()
}

fn mime(path: &str) -> String {
    mime_guess::from_path(path).first_or_octet_stream().to_string()
}

fn store() -> AssetStore {
    let mut s = AssetStore::new(b"<html>".to_vec());
    s.insert("assets/app.js".to_string(), b"console.log(1);".to_vec());
    s.insert("LICENSE".to_string(), b"MIT".to_vec());
    s
}

fn header(r: &WebResponse, f: HeaderField) -> Option<String> {
    r.headers.iter().find(|(h, _)| *h == f).map(|(_, v)| v.to_string())
}

fn expected(cache: &str, mime: &str, gzip: bool) -> Vec<(HeaderField, String)> {
    let mut v = vec![
        (HeaderField::XContentTypeOptions, "nosniff".to_string()),
        (HeaderField::XFrameOptions, "SAMEORIGIN".to_string()),
        (HeaderField::ReferrerPolicy, "strict-origin-when-cross-origin".to_string()),
        (HeaderField::CacheControl, cache.to_string()),
        (HeaderField::PermissionsPolicy, "geolocation=(), microphone=(), camera=()".to_string()),
        (HeaderField::ContentSecurityPolicy, CSP.to_string()),
        (HeaderField::Vary, "Accept-Encoding".to_string()),
        (HeaderField::ContentType, mime.to_string()),
    ];
    if gzip {
        v.push((HeaderField::ContentEncoding, "gzip".to_string()));
    }
    v
}

fn headers_of(r: &WebResponse) -> Vec<(HeaderField, String)> {
    r.headers.iter().map(|(h, v)| (*h, v.to_string())).collect()
}

#[test]
fn root_serves_the_index() {
    let s = store();
    let r = web_response(&s, None, NONE);
    assert_eq!(r.status, 200);
    assert_eq!(r.body, b"<html>");
    assert_eq!(headers_of(&r), expected("no-cache", "text/html", false));
}

#[test]
fn stored_asset_is_served_and_cached_forever() {
    let s = store();
    let r = web_response(&s, Some("assets/app.js"), NONE);
    assert_eq!(r.status, 200);
    assert_eq!(r.body, b"console.log(1);");
    assert_eq!(headers_of(&r), expected("public, max-age=31536000, immutable", &mime("app.js"), false));
}

#[test]
fn gzip_is_served_when_accepted() {
    let s = store();
    let r = web_response(&s, Some("assets/app.js"), &[b"br, gzip;q=0.9"]);
    assert_eq!(r.body, gzip(b"console.log(1);").as_slice());
    assert_eq!(headers_of(&r), expected("public, max-age=31536000, immutable", &mime("app.js"), true));
    let r = web_response(&s, Some("assets/app.js"), &[b"br"]);
    assert_eq!(r.body, b"console.log(1);");
    assert_eq!(header(&r, HeaderField::ContentEncoding), None);
    let r = web_response(&s, Some("assets/app.js"), &[b"gzip;q=0"]);
    assert_eq!(r.body, b"console.log(1);");
    assert_eq!(header(&r, HeaderField::ContentEncoding), None);
    let lines: [&[u8]; 2] = [b"br", b"gzip"];
    let r = web_response(&s, Some("assets/app.js"), &lines);
    assert_eq!(header(&r, HeaderField::ContentEncoding).unwrap(), "gzip");
}

#[test]
fn unknown_path_falls_back_to_index() {
    let s = store();
    let r = web_response(&s, Some("settings/profile"), &[b"gzip"]);
    assert_eq!(r.status, 200);
    assert_eq!(r.body, gzip(b"<html>").as_slice());
    assert_eq!(headers_of(&r), expected("no-cache", "text/html", true));
}

#[test]
fn missing_asset_falls_back_to_index_which_is_revalidated() {
    let s = store();
    let r = web_response(&s, Some("assets/gone.js"), NONE);
    assert_eq!(r.body, b"<html>");
    assert_eq!(header(&r, HeaderField::CacheControl).unwrap(), "no-cache");
    assert_eq!(header(&r, HeaderField::ContentType).unwrap(), "text/html");
}

#[test]
fn cache_policy_needs_the_exact_prefix() {
    let mut s = store();
    for p in ["assets", "Assets/app.js", "/assets/app.js", "x/assets/app.js"] {
        s.insert(p.to_string(), b"x".to_vec());
        let r = web_response(&s, Some(p), NONE);
        assert_eq!(r.body, b"x");
        assert_eq!(header(&r, HeaderField::CacheControl).unwrap(), "no-cache");
    }
}

#[test]
fn unknown_extension_is_octet_stream() {
    let s = store();
    let r = web_response(&s, Some("LICENSE"), NONE);
    assert_eq!(r.body, b"MIT");
    assert_eq!(header(&r, HeaderField::ContentType).unwrap(), "application/octet-stream");
}

#[test]
fn favicon_is_not_found_without_fallback() {
    let s = store();
    let r = favicon_response(&s, &[b"gzip"]);
    assert_eq!(r.status, 404);
    assert!(r.headers.is_empty());
    assert!(r.body.is_empty());
}

#[test]
fn favicon_is_served_when_stored() {
    let mut s = store();
    s.insert("favicon.ico".to_string(), b"ICO".to_vec());
    let r = favicon_response(&s, NONE);
    assert_eq!(r.status, 200);
    assert_eq!(r.body, b"ICO");
    assert_eq!(
        headers_of(&r),
        vec![
            (HeaderField::XContentTypeOptions, "nosniff".to_string()),
            (HeaderField::ContentType, mime("favicon.ico")),
            (HeaderField::Vary, "Accept-Encoding".to_string()),
        ]
    );
    let r = favicon_response(&s, &[b"gzip"]);
    assert_eq!(r.body, gzip(b"ICO").as_slice());
    assert_eq!(r.headers.last().unwrap(), &(HeaderField::ContentEncoding, "gzip"));
}
