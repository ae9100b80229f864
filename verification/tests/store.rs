use flate2::read::GzDecoder;
use lib_web::{get_file_data, get_file_list, get_index_data, AssetStore};
use std::io::Read;

fn gunzip(data: &[u8]) -> Vec<u8> {
    let mut out = Vec::new();
    GzDecoder::new(data).read_to_end(&mut out).unwrap();
    out
}

#[test]
fn new_store_holds_only_the_index() {
    let store = AssetStore::new(b"<html>".to_vec());
    assert_eq!(get_file_list(&store), vec!["index.html"]);
    assert_eq!(get_index_data(&store).data_uncompressed, b"<html>".to_vec());
    assert_eq!(get_file_data(&store, "index.html").unwrap().mime_type, "text/html");
    assert!(get_file_data(&store, "other.html").is_none());
    assert!(get_file_data(&store, "").is_none());
    assert!(get_file_data(&store, "/index.html").is_none());
    assert!(get_file_data(&store, "INDEX.HTML").is_none());
}

#[test]
fn insert_then_get_gives_what_was_inserted() {
    let mut store = AssetStore::new(b"<html>".to_vec());
    store.insert("a.txt".to_string(), b"one".to_vec());
    assert_eq!(get_file_data(&store, "a.txt").unwrap().data_uncompressed, b"one".to_vec());
    store.insert("a.txt".to_string(), b"two".to_vec());
    let r = get_file_data(&store, "a.txt").unwrap();
    assert_eq!(r.data_uncompressed, b"two".to_vec());
    assert_eq!(gunzip(&r.data_gzip), b"two".to_vec());
    assert_eq!(r.mime_type, "text/plain");
    assert_eq!(get_file_list(&store), vec!["a.txt", "index.html"]);
    assert_eq!(get_index_data(&store).data_uncompressed, b"<html>".to_vec());
}

#[test]
fn inserting_the_index_replaces_it() {
    let mut store = AssetStore::new(b"old".to_vec());
    store.insert("index.html".to_string(), b"new".to_vec());
    assert_eq!(get_index_data(&store).data_uncompressed, b"new".to_vec());
    assert_eq!(gunzip(&get_index_data(&store).data_gzip), b"new".to_vec());
    assert_eq!(get_file_list(&store), vec!["index.html"]);
}

#[test]
fn file_list_orders_by_code_point() {
    let mut store = AssetStore::new(b"i".to_vec());
    for p in ["b", "a/b", "a", "B", "é", "z", "assets/x.js"] {
        store.insert(p.to_string(), p.as_bytes().to_vec());
    }
    assert_eq!(get_file_list(&store), vec!["B", "a", "a/b", "assets/x.js", "b", "index.html", "z", "é"]);
    for p in get_file_list(&store) {
        let r = get_file_data(&store, p).unwrap();
        assert_eq!(gunzip(&r.data_gzip), r.data_uncompressed);
        assert!(!r.mime_type.is_empty());
    }
}

#[test]
fn from_files_needs_an_index_and_distinct_paths() {
    assert!(AssetStore::from_files(vec![("a.js".to_string(), b"x".to_vec())]).is_none());
    assert!(AssetStore::from_files(Vec::new()).is_none());
    let twice = vec![
        ("index.html".to_string(), b"i".to_vec()),
        ("a.js".to_string(), b"x".to_vec()),
        ("a.js".to_string(), b"y".to_vec()),
    ];
    assert!(AssetStore::from_files(twice).is_none());
    let store = AssetStore::from_files(vec![
        ("a.js".to_string(), b"x".to_vec()),
        ("index.html".to_string(), b"i".to_vec()),
    ])
    .unwrap();
    assert_eq!(get_file_list(&store), vec!["a.js", "index.html"]);
    assert_eq!(get_index_data(&store).data_uncompressed, b"i".to_vec());
    assert_eq!(get_file_data(&store, "a.js").unwrap().data_uncompressed, b"x".to_vec());
}
