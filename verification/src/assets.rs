//! The table of embedded web assets: each path of the web distribution
//! mapped to its bytes, their gzip form and their MIME type.

use flate2::write::GzEncoder;
use flate2::Compression;
use itertools::Itertools;
use std::io::Write;
use vstd::prelude::*;

use crate::text::{lex_le, str_eq};

verus! {

broadcast use vstd::seq_lib::group_to_multiset_ensures;

/// A static web resource containing both uncompressed and gzip-compressed data.
#[derive(Debug)]
pub struct Resource {
    /// The raw, uncompressed bytes of the resource.
    pub data_uncompressed: Vec<u8>,
    /// The gzip-compressed bytes of the resource.
    pub data_gzip: Vec<u8>,
    /// The MIME type of the resource (e.g. `"text/html"`, `"application/javascript"`).
    pub mime_type: String,
}

/// What a [`Resource`] holds, as mathematical values.
pub struct ResourceView {
    pub data_uncompressed: Seq<u8>,
    pub data_gzip: Seq<u8>,
    pub mime_type: Seq<char>,
}

impl View for Resource {
    type V = ResourceView;

    open spec fn view(&self) -> ResourceView {
        ResourceView {
            data_uncompressed: self.data_uncompressed@,
            data_gzip: self.data_gzip@,
            mime_type: self.mime_type@,
        }
    }
}

/// The gzip stream that `flate2` writes for `data` at its best compression
/// level, with the header that `GzEncoder::new` sets (no name, no time stamp,
/// operating system unknown).
pub uninterp spec fn gzip_best(data: Seq<u8>) -> Seq<u8>;

/// The MIME type that `mime_guess` guesses first from the extension of
/// `path`, `application/octet-stream` where it knows none.
pub uninterp spec fn guessed_mime(path: Seq<char>) -> Seq<char>;

/// Compresses `data` into a gzip stream at the best compression level.
///
/// Calls `flate2::write::GzEncoder::new` with `Compression::best()` on an
/// empty `Vec`, then `Write::write_all` and `GzEncoder::finish`.  Claimed:
/// the result is `gzip_best(data@)`, a function of `data` alone (the header
/// carries no time stamp).  Writing into a `Vec` cannot fail, so neither
/// `expect` fires.
#[verifier::external_body]
fn compress_data(data: &[u8]) -> (r: Vec<u8>)
    ensures
        r@ == gzip_best(data@),
{
    let mut encoder = GzEncoder::new(Vec::new(), Compression::best());
    encoder.write_all(data).expect("writing into a Vec does not fail");
    encoder.finish().expect("writing into a Vec does not fail")
}

/// Guesses the MIME type of a file from its path.
///
/// Calls `mime_guess::from_path` and `MimeGuess::first_or_octet_stream`, and
/// renders the `Mime` with `to_string`.  Claimed: the result is
/// `guessed_mime(path@)`, a function of the path alone (the guess reads a
/// static table keyed by the extension), and it is never empty: it is a
/// known type or `application/octet-stream`.
#[verifier::external_body]
fn guess_mime(path: &str) -> (r: String)
    ensures
        r@ == guessed_mime(path@),
        r@.len() > 0,
{
    mime_guess::from_path(path).first_or_octet_stream().to_string()
}

impl Resource {
    /// The resource for the file at `path` with contents `data`: the data as
    /// it is, its gzip form at best compression, and the MIME type guessed
    /// from the path.
    pub fn from_file_data(path: &str, data: Vec<u8>) -> (r: Resource)
        ensures
            r@.data_uncompressed == data@,
            r@.data_gzip == gzip_best(data@),
            r@.mime_type == guessed_mime(path@),
            is_file_resource(path@, r@),
    {
        let data_gzip = compress_data(data.as_slice());
        let mime_type = guess_mime(path);
        Resource { data_uncompressed: data, data_gzip, mime_type }
    }
}

/// What the resource for the file at `path` with contents `data` holds.
pub open spec fn file_view(path: Seq<char>, data: Seq<u8>) -> ResourceView {
    ResourceView { data_uncompressed: data, data_gzip: gzip_best(data), mime_type: guessed_mime(path) }
}

/// `r` is the resource of a file at `path`: its gzip form is the best gzip
/// compression of its bytes, and its MIME type, never empty, is the one
/// guessed from the path.
pub open spec fn is_file_resource(path: Seq<char>, r: ResourceView) -> bool {
    r == file_view(path, r.data_uncompressed) && r.mime_type.len() > 0
}

/// The path under which the application's root page is stored.
pub open spec fn index_path() -> Seq<char> {
    "index.html"@
}

/// The paths of a list of files.
pub open spec fn file_paths(files: Seq<(String, Vec<u8>)>) -> Seq<Seq<char>> {
    files.map_values(|f: (String, Vec<u8>)| f.0@)
}

/// Whether some path occurs twice among `files`.
fn has_repeated_path(files: &Vec<(String, Vec<u8>)>) -> (r: bool)
    ensures
        r == !file_paths(files@).no_duplicates(),
{
    let n = files.len();
    let ghost ps = file_paths(files@);
    let mut i: usize = 0;
    while i < n
        invariant
            n == files.len(),
            i <= n,
            ps == file_paths(files@),
            forall|a: int, b: int| 0 <= a < i && a < b < n ==> ps[a] != ps[b],
        decreases n - i,
    {
        let mut j: usize = i + 1;
        while j < n
            invariant
                n == files.len(),
                i < n,
                i + 1 <= j <= n,
                ps == file_paths(files@),
                forall|a: int, b: int| 0 <= a < i && a < b < n ==> ps[a] != ps[b],
                forall|b: int| i < b < j ==> ps[i as int] != ps[b],
            decreases n - j,
        {
            if str_eq(files[i].0.as_str(), files[j].0.as_str()) {
                assert(ps[i as int] == ps[j as int]);
                return true;
            }
            j = j + 1;
        }
        i = i + 1;
    }
    false
}

/// Where `index.html` stands among `files`, if it does.
fn find_index_file(files: &Vec<(String, Vec<u8>)>) -> (r: Option<usize>)
    ensures
        match r {
            Some(i) => i < files.len() && files@[i as int].0@ == index_path(),
            None => !file_paths(files@).contains(index_path()),
        },
{
    let n = files.len();
    let mut i: usize = 0;
    while i < n
        invariant
            n == files.len(),
            i <= n,
            forall|j: int| 0 <= j < i ==> files@[j].0@ != index_path(),
        decreases n - i,
    {
        if str_eq(files[i].0.as_str(), "index.html") {
            return Some(i);
        }
        i = i + 1;
    }
    proof {
        if file_paths(files@).contains(index_path()) {
            let j = choose|j: int| 0 <= j < n && file_paths(files@)[j] == index_path();
            assert(files@[j].0@ == index_path());
        }
    }
    None
}

/// The embedded assets, keyed by their path relative to the distribution
/// root (with `/` separators).  The root page `index.html` is always present.
pub struct AssetStore {
    entries: Vec<(String, Resource)>,
}

impl AssetStore {
    /// The stored paths, in storage order.
    pub closed spec fn paths(&self) -> Seq<Seq<char>> {
        self.entries@.map_values(|e: (String, Resource)| e.0@)
    }

    /// Every path is stored once, the root page is among them, and each
    /// resource is the one made from its file's bytes and path.
    pub closed spec fn wf(&self) -> bool {
        &&& self.paths().no_duplicates()
        &&& self.paths().contains(index_path())
        &&& forall|i: int| 0 <= i < self.entries.len() ==> is_file_resource(
            #[trigger] self.entries@[i].0@,
            self.entries@[i].1@,
        )
    }

    /// The position at which `path` is stored.
    closed spec fn position(&self, path: Seq<char>) -> int {
        choose|i: int| 0 <= i < self.entries.len() && self.entries@[i].0@ == path
    }

    proof fn lemma_position(&self, i: int)
        requires
            self.paths().no_duplicates(),
            0 <= i < self.entries.len(),
        ensures
            self.position(self.entries@[i].0@) == i,
    {
        let k = self.entries@[i].0@;
        let j = self.position(k);
        assert(self.paths()[i] == k);
        assert(0 <= j < self.entries.len() && self.entries@[j].0@ == k);
        assert(self.paths()[j] == k);
    }
}

impl View for AssetStore {
    type V = Map<Seq<char>, ResourceView>;

    closed spec fn view(&self) -> Map<Seq<char>, ResourceView> {
        Map::new(
            |k: Seq<char>| self.paths().contains(k),
            |k: Seq<char>| self.entries@[self.position(k)].1@,
        )
    }
}

impl AssetStore {
    /// A store that holds the root page `index.html`, with contents
    /// `index_data`, and nothing else.
    pub fn new(index_data: Vec<u8>) -> (store: Self)
        ensures
            store.wf(),
            store@ == Map::<Seq<char>, ResourceView>::empty().insert(index_path(), file_view(index_path(), index_data@)),
    {
        let mut entries: Vec<(String, Resource)> = Vec::new();
        let path = String::from_str("index.html");
        let index = Resource::from_file_data(path.as_str(), index_data);
        let ghost iv = index@;
        entries.push((path, index));
        let store = AssetStore { entries };
        proof {
            assert(store.paths()[0] == index_path());
            assert(store.paths() == seq![index_path()]);
            store.lemma_position(0);
            assert(store@ =~= Map::<Seq<char>, ResourceView>::empty().insert(index_path(), iv));
        }
        store
    }

    /// Where `path` is stored, if it is.
    fn find(&self, path: &str) -> (r: Option<usize>)
        requires
            self.wf(),
        ensures
            match r {
                Some(i) => i < self.entries.len() && self.entries@[i as int].0@ == path@,
                None => !self.paths().contains(path@),
            },
    {
        let n = self.entries.len();
        let mut i: usize = 0;
        while i < n
            invariant
                n == self.entries.len(),
                i <= n,
                forall|j: int| 0 <= j < i ==> self.entries@[j].0@ != path@,
            decreases n - i,
        {
            if str_eq(self.entries[i].0.as_str(), path) {
                return Some(i);
            }
            i = i + 1;
        }
        proof {
            if self.paths().contains(path@) {
                let j = choose|j: int| 0 <= j < self.paths().len() && self.paths()[j] == path@;
                assert(self.entries@[j].0@ == path@);
            }
        }
        None
    }

    /// Stores the file at `path` with contents `data`, in place of what was
    /// stored there.
    pub fn insert(&mut self, path: String, data: Vec<u8>)
        requires
            old(self).wf(),
        ensures
            final(self).wf(),
            final(self)@ == old(self)@.insert(path@, file_view(path@, data@)),
    {
        let resource = Resource::from_file_data(path.as_str(), data);
        self.put(path, resource);
    }

    /// The store of a distribution given as its files, each a path and its
    /// contents; `None` where a path occurs twice or no file is `index.html`.
    pub fn from_files(files: Vec<(String, Vec<u8>)>) -> (r: Option<AssetStore>)
        ensures
            r.is_some() == (file_paths(files@).no_duplicates() && file_paths(files@).contains(index_path())),
            r matches Some(store) ==> {
                &&& store.wf()
                &&& forall|k: Seq<char>| #[trigger] store@.contains_key(k) <==> file_paths(files@).contains(k)
                &&& forall|i: int| 0 <= i < files.len() ==> store@[#[trigger] files@[i].0@] == file_view(
                    files@[i].0@,
                    files@[i].1@,
                )
            },
    {
        if has_repeated_path(&files) {
            return None;
        }
        let idx = match find_index_file(&files) {
            Some(i) => i,
            None => return None,
        };
        let index_data = files[idx].1.clone();
        assert(index_data@ =~= files@[idx as int].1@);
        let mut store = AssetStore::new(index_data);
        let ghost orig = files@;
        let mut files = files;
        while files.len() > 0
            invariant
                store.wf(),
                files.len() <= orig.len(),
                files@ == orig.take(files.len() as int),
                idx < orig.len(),
                orig[idx as int].0@ == index_path(),
                file_paths(orig).no_duplicates(),
                forall|k: Seq<char>| #[trigger] store@.contains_key(k) <==> (k == index_path() || exists|j: int|
                    files.len() <= j < orig.len() && orig[j].0@ == k),
                store@[index_path()] == file_view(index_path(), orig[idx as int].1@),
                forall|j: int| files.len() <= j < orig.len() ==> store@[#[trigger] orig[j].0@] == file_view(
                    orig[j].0@,
                    orig[j].1@,
                ),
            decreases files.len(),
        {
            let ghost n = files.len() - 1;
            match files.pop() {
                Some(file) => {
                    let (path, data) = file;
                    assert(orig[n] == (path, data));
                    store.insert(path, data);
                    proof {
                        assert(files@ =~= orig.take(n));
                        assert forall|j: int| n <= j < orig.len() implies store@[#[trigger] orig[j].0@] == file_view(
                            orig[j].0@,
                            orig[j].1@,
                        ) by {
                            if j > n {
                                assert(file_paths(orig)[j] == orig[j].0@);
                                assert(file_paths(orig)[n] == orig[n].0@);
                            }
                        }
                        if orig[n].0@ == index_path() {
                            assert(file_paths(orig)[n] == file_paths(orig)[idx as int]);
                        }
                    }
                },
                None => {},
            }
        }
        proof {
            assert(file_paths(orig)[idx as int] == index_path());
            assert forall|k: Seq<char>| #[trigger] store@.contains_key(k) <==> file_paths(orig).contains(k) by {
                if store@.contains_key(k) {
                    if k == index_path() {
                        assert(file_paths(orig)[idx as int] == k);
                    } else {
                        let j = choose|j: int| 0 <= j < orig.len() && orig[j].0@ == k;
                        assert(file_paths(orig)[j] == k);
                    }
                }
                if file_paths(orig).contains(k) {
                    let j = choose|j: int| 0 <= j < orig.len() && file_paths(orig)[j] == k;
                    assert(orig[j].0@ == k);
                }
            }
        }
        Some(store)
    }

    /// Stores `resource` under `path`, in place of what was stored there.
    fn put(&mut self, path: String, resource: Resource)
        requires
            old(self).wf(),
            is_file_resource(path@, resource@),
        ensures
            final(self).wf(),
            final(self)@ == old(self)@.insert(path@, resource@),
    {
        let ghost pv = path@;
        let ghost rv = resource@;
        let ghost old_paths = self.paths();
        let ghost old_view = self@;
        match self.find(path.as_str()) {
            Some(i) => {
                self.entries.set(i, (path, resource));
                proof {
                    assert forall|j: int| 0 <= j < self.entries.len() implies is_file_resource(
                        #[trigger] self.entries@[j].0@,
                        self.entries@[j].1@,
                    ) by {
                        if j != i {
                            assert(self.entries@[j] == old(self).entries@[j]);
                        }
                    }
                    assert(old_paths[i as int] == pv);
                    assert(old_paths.contains(pv));
                    assert(self.paths() =~= old_paths);
                    assert forall|k: Seq<char>| #[trigger] self.paths().contains(k) implies
                        self@[k] == old_view.insert(pv, rv)[k] by {
                        let j = choose|j: int| 0 <= j < self.paths().len() && self.paths()[j] == k;
                        assert(self.paths()[j] == self.entries@[j].0@);
                        self.lemma_position(j);
                        assert(old_paths[j] == old(self).entries@[j].0@);
                        assert(old_paths[i as int] == pv);
                        old(self).lemma_position(j);
                        if j != i {
                            assert(k != pv);
                            assert(old_paths.contains(k));
                            assert(old_view[k] == old(self).entries@[j].1@);
                        }
                    }
                    assert(self@ =~= old_view.insert(pv, rv));
                }
            },
            None => {
                self.entries.push((path, resource));
                proof {
                    assert forall|j: int| 0 <= j < self.entries.len() implies is_file_resource(
                        #[trigger] self.entries@[j].0@,
                        self.entries@[j].1@,
                    ) by {
                        if j < old(self).entries.len() {
                            assert(self.entries@[j] == old(self).entries@[j]);
                        }
                    }
                    let n = self.entries.len() - 1;
                    assert(self.paths() =~= old_paths.push(pv));
                    assert(old_paths.contains(index_path()));
                    let w = choose|w: int| 0 <= w < old_paths.len() && old_paths[w] == index_path();
                    assert(self.paths()[w] == index_path());
                    assert forall|k: Seq<char>| #[trigger] self.paths().contains(k) implies
                        self@[k] == old_view.insert(pv, rv)[k] by {
                        let j = choose|j: int| 0 <= j < self.paths().len() && self.paths()[j] == k;
                        assert(self.paths()[j] == self.entries@[j].0@);
                        self.lemma_position(j);
                        if j < n {
                            assert(old_paths[j] == old(self).entries@[j].0@);
                            old(self).lemma_position(j);
                        }
                    }
                    assert forall|k: Seq<char>| #[trigger] old_view.insert(pv, rv).dom().contains(k)
                        implies self.paths().contains(k) by {
                        if k != pv {
                            let j = choose|j: int| 0 <= j < old_paths.len() && old_paths[j] == k;
                            assert(self.paths()[j] == k);
                        } else {
                            assert(self.paths()[n as int] == k);
                        }
                    }
                    assert(self@ =~= old_view.insert(pv, rv));
                }
            },
        }
    }
}

/// Every valid store holds the root page `index.html`.
pub proof fn law_index_always_stored(store: &AssetStore)
    requires
        store.wf(),
    ensures
        store@.contains_key(index_path()),
{
}

/// Every stored resource is the one made from its file: the gzip form is the
/// best gzip compression of the stored bytes, and the MIME type is the one
/// guessed from the path, never empty.
pub proof fn law_stored_resources_are_files(store: &AssetStore, path: Seq<char>)
    requires
        store.wf(),
        store@.contains_key(path),
    ensures
        is_file_resource(path, store@[path]),
        store@[path].data_gzip == gzip_best(store@[path].data_uncompressed),
        store@[path].mime_type == guessed_mime(path),
{
    let j = choose|j: int| 0 <= j < store.paths().len() && store.paths()[j] == path;
    assert(store.entries@[j].0@ == path);
    store.lemma_position(j);
}

/// Returns the [`Resource`] stored for the given file path, or `None` if not found.
pub fn get_file_data<'a>(store: &'a AssetStore, file_path: &str) -> (r: Option<&'a Resource>)
    requires
        store.wf(),
    ensures
        r.is_some() == store@.contains_key(file_path@),
        r matches Some(res) ==> res@ == store@[file_path@],
        r matches Some(res) ==> is_file_resource(file_path@, res@),
{
    match store.find(file_path) {
        Some(i) => {
            proof {
                store.lemma_position(i as int);
                assert(store.paths()[i as int] == file_path@);
                law_stored_resources_are_files(store, file_path@);
            }
            Some(&store.entries[i].1)
        },
        None => None,
    }
}

/// Returns the [`Resource`] for the root `index.html` file.
pub fn get_index_data(store: &AssetStore) -> (r: &Resource)
    requires
        store.wf(),
    ensures
        store@.contains_key(index_path()),
        r@ == store@[index_path()],
        is_file_resource(index_path(), r@),
{
    match get_file_data(store, "index.html") {
        Some(r) => r,
        None => {
            proof {
                assert(store.paths().contains(index_path()));
            }
            &store.entries[0].1
        },
    }
}

/// Sorts paths by `str`'s order.
///
/// Calls `Itertools::sorted`, which collects the items into a `Vec` and sorts
/// it with `slice::sort`, then gathers them again with `Itertools::collect_vec`.
/// Claimed: the result holds the same items as `paths`, each as often, and in
/// ascending order, which for `str` is lexicographic by code point.
#[verifier::external_body]
fn sorted_paths<'a>(paths: Vec<&'a str>) -> (res: Vec<&'a str>)
    ensures
        res@.to_multiset() == paths@.to_multiset(),
        forall|i: int, j: int| 0 <= i <= j < res.len() ==> lex_le(#[trigger] res@[i]@, #[trigger] res@[j]@),
{
    paths.into_iter().sorted().collect_vec()
}

/// Returns a sorted list of all stored file paths.
pub fn get_file_list(store: &AssetStore) -> (r: Vec<&str>)
    requires
        store.wf(),
    ensures
        r.len() == store@.dom().len(),
        forall|i: int| 0 <= i < r.len() ==> store@.contains_key(#[trigger] r@[i]@),
        forall|k: Seq<char>| #[trigger] store@.contains_key(k) ==> exists|i: int| 0 <= i < r.len() && r@[i]@ == k,
        forall|i: int, j: int| 0 <= i <= j < r.len() ==> lex_le(#[trigger] r@[i]@, #[trigger] r@[j]@),
{
    let n = store.entries.len();
    let mut keys: Vec<&str> = Vec::new();
    let mut i: usize = 0;
    while i < n
        invariant
            n == store.entries.len(),
            i <= n,
            keys.len() == i,
            forall|j: int| 0 <= j < i ==> #[trigger] keys@[j]@ == store.entries@[j].0@,
        decreases n - i,
    {
        keys.push(store.entries[i].0.as_str());
        i = i + 1;
    }
    let r = sorted_paths(keys);
    proof {
        assert(store@.dom() =~= store.paths().to_set());
        store.paths().unique_seq_to_set();
        assert(r@.to_multiset().len() == keys@.to_multiset().len());
        assert forall|i: int| 0 <= i < r.len() implies store@.contains_key(#[trigger] r@[i]@) by {
            assert(r@.contains(r@[i]));
            assert(r@.to_multiset().count(r@[i]) > 0);
            assert(keys@.to_multiset().count(r@[i]) > 0);
            assert(keys@.contains(r@[i]));
            let j = choose|j: int| 0 <= j < keys.len() && keys@[j] == r@[i];
            assert(store.paths()[j] == r@[i]@);
        }
        assert forall|k: Seq<char>| #[trigger] store@.contains_key(k) implies
            exists|i: int| 0 <= i < r.len() && r@[i]@ == k by {
            let j = choose|j: int| 0 <= j < store.paths().len() && store.paths()[j] == k;
            assert(keys@.contains(keys@[j]));
            assert(keys@.to_multiset().count(keys@[j]) > 0);
            assert(r@.to_multiset().count(keys@[j]) > 0);
            assert(r@.contains(keys@[j]));
        }
    }
    r
}

} // verus!
