# dublette

Finds duplicate images, videos and audio files and deletes the extra copies.
Images and video frames are compared by perceptual hash (hamming distance
within a threshold); audio by acoustic fingerprint or by the encoded stream
with its tags excluded.

## Layout

- `src/` is the verified library, checked by Verus:
  - `paths.rs`: paths compared by their components (as `std::path::Path`
    does), sorting, de-duplication, and the extension of a path.
  - `components.rs`: the match graph, its connected parts, and the laws of
    duplicate groups (disjoint, closed under matches, independent of listing
    order, merged by more matches).
  - `scan.rs`: choosing media files from a directory walk, pairwise
    comparison of hashes, and grouping.
  - `hash.rs`: hamming distance between perceptual hashes, and hashing of
    encoded images through the `image` and `img_hash` crates.
  - `gif.rs`: the GIF block layout, to check the first frame against the
    logical screen before decoding.
  - `audio.rs`: fingerprints from decoded PCM, the keep policy for
    recording matches (lossless, then bitrate, then path order), the
    fidelity read by `lofty`, and the encoding digest (content with the tags
    taken out).
  - `dedupe.rs`: the report of a run, and the `--keep-in` preference.
  - `report.rs`: the duplicates and empty-files tables, and the JSON report
    (`json.rs` builds it with `serde_json`).
  - `run.rs`: what a run prints and deletes, dry run included, and its exit
    status.
  - `skip.rs`, `cli.rs`: skip reasons and the media filter.
- `app/` is the command-line program around the library: argument parsing,
  directory walking, reading files, running ffmpeg, progress bars, and
  carrying out the steps that `run.rs` plans. It skips paths that are not valid UTF-8.
- `tests/` exercises the library.
