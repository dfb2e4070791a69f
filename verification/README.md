# lotus-lib

Reading the cache pairs (`.toc` table of contents and `.cache` data) of
Warframe and Soulframe, with the parsing and decompression logic written in
Verus and proved against its specification.

Layout:

- `src/toc.rs`, `src/node.rs`, `src/toc_statistics.rs`: the table of
  contents, its nodes, normalized path lookup and summary statistics.
- `src/pre_ensmallening.rs`: the block and LZ decompression of
  pre-ensmallening caches.
- `src/cache_pair.rs`: a cache pair reader that decides how a file is stored
  and decompresses the bytes read for it.
- `src/package_collection.rs`: packages by name and localization suffixes.
- `src/raw_audio_header.rs`, `src/audio_format.rs`, `src/audio.rs`,
  `src/opus.rs`: audio headers and the byte handling of audio extraction.
- `src/le_bytes.rs`, `src/text.rs`: little-endian reads and string helpers.
- `app/`: file, directory, environment and process access around the
  library (reading files from disk, scanning a cache directory, FFmpeg).
- `tests/`: tests of the library on concrete values.
