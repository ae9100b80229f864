//! The embedded table holds, for every file of a distribution, its bytes,
//! their gzip form at best compression and its guessed MIME type.

use flate2::write::GzEncoder;
use flate2::Compression;
use lib_web::{get_file_data, get_file_list, get_index_data, AssetStore, Resource};
use std::io::Write;

fn gzip(data: &[u8]) -> Vec<u8> {
    let mut encoder = GzEncoder::new(Vec::new(), Compression::best());
    encoder.write_all(data).unwrap();
    encoder.finish().unwrap()
}


fn dist() -> Vec<(&'static str, Vec<u8>)> {
    vec![
        ("index.html", b"<!doctype html><html><body><div id=\"app\"></div></body></html>".to_vec()),
        ("favicon.ico", vec![0u8, 0, 1, 0, 1, 0, 16, 16]),
        ("assets/index-4f2a.js", b"console.log('maintenance list');".to_vec()),
        ("assets/index-9c1b.css", b"body { margin: 0; }".to_vec()),
        ("robots.txt", b"User-agent: *\nDisallow:\n".to_vec()),
    ]
}

fn store_of(files: &[(&'static str, Vec<u8>)]) -> AssetStore {
    let files = files.iter().map(|(p, d)| (p.to_string(), d.clone())).collect();
    AssetStore::from_files(files).unwrap()
}

fn on_disk(path: &str) -> Vec<u8> {
    dist().into_iter().find(|(p, _)| *p == path).unwrap().1
}

#[test]
fn test_data_uncompressed() {
    let store = store_of(&dist());
    for file_item in get_file_list(&store).iter() {
        let file_data_uncompressed = on_disk(file_item);
        let stored_file_data_uncompressed = &get_file_data(&store, file_item).unwrap().data_uncompressed;
        assert_eq!(stored_file_data_uncompressed, &file_data_uncompressed);
    }
}

#[test]
fn test_data_gzip() {
    let store = store_of(&dist());
    for file_item in get_file_list(&store).iter() {
        let file_data_compressed = gzip(&on_disk(file_item));
        let stored_file_data_gzip = &get_file_data(&store, file_item).unwrap().data_gzip;
        assert_eq!(stored_file_data_gzip, &file_data_compressed);
    }
}

#[test]
fn test_mime_type() {
    let store = store_of(&dist());
    for file_item in get_file_list(&store).iter() {
        let mime_type = mime_guess::from_path(file_item).first_or_octet_stream();
        let stored_mime_type = &get_file_data(&store, file_item).unwrap().mime_type;
        assert_eq!(stored_mime_type.as_str(), mime_type.as_ref())
    }
}

#[test]
fn test_index_data() {
    let store = store_of(&dist());
    let file_data_uncompressed = on_disk("index.html");
    let file_data_compressed = gzip(&file_data_uncompressed);
    let mime_guess = mime_guess::from_path("index.html").first_or_octet_stream();

    let index_data = get_index_data(&store);
    assert_eq!(index_data.data_uncompressed, file_data_uncompressed);
    assert_eq!(index_data.data_gzip, file_data_compressed);
    assert_eq!(index_data.mime_type.as_str(), mime_guess.as_ref());
}

#[test]
fn file_list_is_sorted_and_complete() {
    let store = store_of(&dist());
    let list = get_file_list(&store);
    assert_eq!(
        list,
        vec!["assets/index-4f2a.js", "assets/index-9c1b.css", "favicon.ico", "index.html", "robots.txt"]
    );
}

#[test]
fn resource_from_file_data_compresses_and_guesses() {
    let data = b"body { margin: 0; } body { margin: 0; } body { margin: 0; }".to_vec();
    let r = Resource::from_file_data("assets/site.css", data.clone());
    assert_eq!(r.data_uncompressed, data);
    assert_ne!(r.data_gzip, data);
    assert_eq!(r.data_gzip, gzip(&data));
    assert_eq!(&r.data_gzip[..2], &[0x1f, 0x8b]);
    assert_eq!(r.mime_type, "text/css");
    assert_eq!(Resource::from_file_data("index.html", Vec::new()).mime_type, "text/html");
    assert_eq!(Resource::from_file_data("LICENSE", Vec::new()).mime_type, "application/octet-stream");
    assert_eq!(Resource::from_file_data("a.unknownext", Vec::new()).mime_type, "application/octet-stream");
}
