use lib_web::accepts_gzip;

fn accepts(v: &[u8]) -> bool {
    accepts_gzip(&[v])
}

#[test]
fn no_header_is_no_gzip() {
    assert!(!accepts_gzip(&[]));
}

#[test]
fn plain_gzip_is_accepted() {
    assert!(accepts(b"gzip"));
    assert!(accepts(b"gzip, deflate, br"));
    assert!(accepts(b"deflate, gzip"));
    assert!(accepts(b"br,gzip"));
}

#[test]
fn coding_names_ignore_case() {
    assert!(accepts(b"GZIP"));
    assert!(accepts(b"Gzip;q=0.5"));
}

#[test]
fn parameters_and_whitespace_around_the_name_are_ignored() {
    assert!(accepts(b"gzip;q=1.0"));
    assert!(accepts(b"gzip;q=0.001"));
    assert!(accepts(b"deflate;q=0.5,  gzip ;q=0.8"));
    assert!(accepts(b" \tgzip\t "));
    assert!(accepts(b",gzip,"));
    assert!(accepts(b"gzip;level=0"));
}

#[test]
fn zero_weight_refuses_gzip() {
    assert!(!accepts(b"gzip;q=0"));
    assert!(!accepts(b"gzip; q=0"));
    assert!(!accepts(b"gzip;Q=0"));
    assert!(!accepts(b"gzip;q=0.0"));
    assert!(!accepts(b"gzip;q=0.000"));
    assert!(!accepts(b"gzip;level=9;q=0 ,br"));
    assert!(!accepts(b"br, gzip;q=0"));
}

#[test]
fn any_coding_stands_for_gzip_unless_gzip_is_named() {
    assert!(accepts(b"*"));
    assert!(accepts(b"br, *;q=0.1"));
    assert!(!accepts(b"*;q=0"));
    assert!(!accepts(b"gzip;q=0, *"));
    assert!(!accepts(b"*, gzip;q=0"));
    assert!(accepts(b"gzip;q=0, gzip"));
}

#[test]
fn other_codings_are_not_gzip() {
    assert!(!accepts(b""));
    assert!(!accepts(b"deflate, br"));
    assert!(!accepts(b"x-gzip"));
    assert!(!accepts(b"gzi p"));
    assert!(!accepts(b"gzipped"));
    assert!(!accepts(b"identity;gzip"));
    assert!(!accepts(b"deflate;q=0.5;gzip"));
}

#[test]
fn values_that_are_not_text_are_skipped() {
    assert!(!accepts(b"gzip\x80"));
    assert!(!accepts(b"gzip, \x7f"));
    assert!(!accepts(&[0xc3, 0xa9, b',', b'g', b'z', b'i', b'p']));
    let lines: [&[u8]; 2] = [b"gzip\x80", b"gzip"];
    assert!(accepts_gzip(&lines));
}

#[test]
fn several_lines_read_as_one_list() {
    let lines: [&[u8]; 2] = [b"deflate", b"gzip"];
    assert!(accepts_gzip(&lines));
    let lines: [&[u8]; 2] = [b"gzip;q=0", b"*"];
    assert!(!accepts_gzip(&lines));
    let lines: [&[u8]; 2] = [b"*", b"br"];
    assert!(accepts_gzip(&lines));
    let lines: [&[u8]; 2] = [b"br", b"deflate"];
    assert!(!accepts_gzip(&lines));
}

#[test]
fn item_order_does_not_matter() {
    assert_eq!(accepts(b"gzip;q=0, *"), accepts(b"*, gzip;q=0"));
    assert_eq!(accepts(b"br, gzip"), accepts(b"gzip, br"));
}
