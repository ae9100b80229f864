# lib_web

The web assets of the maintenance list application and the rules by which
they are served, verified with Verus.

- `src/assets.rs`: the asset table (`AssetStore`), built from the files of a
  distribution (each gzipped at best compression and given the MIME type
  guessed from its path), path lookup, the root page and the sorted path list.
- `src/encoding.rs`: whether the `Accept-Encoding` values accept gzip.
- `src/routes.rs`: the status, headers and body answered for an asset request
  and for the favicon.
- `src/text.rs`: character-level helpers on strings.
- `app/`: the HTTP server (axum and tokio); it reads the built distribution
  from disk, hands its files to `AssetStore::from_files`, then serves it.
