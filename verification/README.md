# LibAnything

A low-level filesystem indexer: it walks `/`, records every file and directory, and writes a compact
binary `.anythingindex` file that can be read back.

- `src/` is the library, verified with Verus. It computes on plain values: the skip rules
  (`ignore`), the walk as a state machine (`walk`, `indexer`), drives and mount tables (`drives`),
  and the file format (`layout`), written by `builder` and read by `reader`. `roundtrip` states and
  proves that what is written is what is read, and `run` that what can be seen of a run is what its
  file holds.
- `app/` is ordinary Rust around it: reading directories with `jwalk`, files, the mount table, the
  clock, and the thread that a run works in.
- `tests/` runs the library on concrete values.

Symbolic links are left out of a walk, and so is everything at or below a path in
`IgnoreConfig::skip_dir_prefixes`; a path there that ends in `/` stands for what lies below it. Files
whose name or extension an `IgnoreConfig` lists are left out of a walk as well, and they are noise in
a search. A file whose name ends in a tilde is noise, too, but it is recorded. Names and extensions
may be listed in any letter case: they are compared with those of a file in lowercase.

A file is laid out as `[Header 80B] [Tree Data: 12B per entry] [Drive Data] [Name Block]`; the module
`layout` has the details. The name block is packed with zstd if that is asked for.
