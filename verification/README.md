# gideon-core

The core of the gideon manga reader, verified with Verus: opening `.cbz`
archives and listing their pages in natural reading order, reading
`ComicInfo.xml` metadata, scanning a library, tracking reading progress and the
statistics drawn from it, settings per device and per profile, and the index of
downloaded series.

- `src/` is the verified library. Its functions say in their contracts what they
  compute; the public proof functions state what holds of several of them
  together. The few items whose contracts are taken on trust stand for functions
  of `zip`, `image`, `quick-xml`, `serde_json` and the standard library, and say
  so where they are declared.
- `tests/` runs the library.
- `app/` is ordinary Rust around it: the file system and the
  environment, the JSON shapes of what is stored, and what computes in floating
  point.

Paths are text with `/` between their components, and the library takes what a
file or a directory holds rather than reading it.
