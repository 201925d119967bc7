# sprite_shrink

Deduplicating archives of ROM files and CD images, verified with Verus.

Files are cut into content-defined chunks, chunks are stored once, compressed
with a trained dictionary, and found again through an index. CD images are taken
apart further: what a sector's error correction and header can be computed from is
not stored.

- `src/` is the verified library. The modules `processing`, `serialization`,
  `archive`, `parsing` and `archive_parser` deal with archives, the modules `disc`,
  `ecc`, `reconstruction`, `mapper`, `blocks`, `assembly`, `stream`, `cue_parser`
  and `cue_gen` with discs, and `roundtrip` and `cue_roundtrip` state what holds
  from one end to the other. Public proof functions named `law_..` state what holds of several
  functions together.
- `tests/` runs the library.
- `app/` is the shell around it: files, threads, C callbacks and error messages.

What is taken on trust stands behind functions marked `external_body`, each with a
comment that names the outside function and says what is claimed of it: hashes
(`hashing`), codecs (`codec`, `parsing`), chunk boundaries (`processing`), zstd
(`archive`), concurrent maps (`serialization`) and regular expressions
(`cue_parser`).
