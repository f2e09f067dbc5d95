# Verified small libraries

Three small libraries, each with its behaviour stated in contracts and proved
with Verus.

- `src/wav.rs`: a zero-copy parser for PCM WAV (RIFF/WAVE) files.
  `WavFile::parse` is specified by `wav_fault`, the first fault of the input:
  markers and audio format in header order, then the length of the sample
  data, then the derived fields (`ByteRate`, `BlockAlign`, `ChunkSize`); the
  sample data it returns is the slice of the input that follows the 44-byte
  header.
- `src/env_config.rs` and `src/env_config/`: a lexer and resolver for an
  env/Makefile-style config format (`NAME = value`, `${OTHER}` references).
  `lex.rs` (`tokenize`, specified by `tokenize_spec`), `table.rs`
  (`build_symbol_table`, specified by `symbol_table_of`) and `resolve.rs`
  (`resolve_all`/`try_resolve_all`, specified by `resolve_all_spec`).
- `src/cache.rs`, `src/arena.rs`, `src/rc_refcell.rs`: a fixed-capacity LRU
  cache behind the `Cache` trait, whose contract models the cache as its
  entries, most recently used first (`after_get`, `after_put`). `arena` links
  nodes through indices into a `Vec` and a `HashMap` from keys to slots;
  `rc_refcell` keeps its list of nodes in a `Vec` in recency order.
- `src/access_log.rs`: the (still empty) types of an access-log reader.

The `law_*` proof functions state what holds across calls (read after write,
eviction of the least recently used entry, comments being ignored, reference
substitution, the WAV round trip, and so on).

`tests/` exercises the library; `app/lib.rs` gives ordinary Rust callers the
error types with `Display` and the tables as `HashMap`s.
