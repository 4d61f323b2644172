# mediaorganizer

A duplicate-media finder: it fingerprints videos, images and audio, groups
files whose fingerprints agree, and helps decide which copies to keep.

The library under `src/` is written in Verus. Its functions carry
`requires`/`ensures` contracts over mathematical models (`Seq`, `Set`, `int`)
and are proved against them; the laws that tie several functions together stand
as public `proof fn`s (their names begin with `lemma_`).

- `phash`, `frame`, `audio`, `comparison`, `scan`, `timeline`: perceptual
  hashes, frame conversion, audio fingerprints, sliding-window timeline
  comparison and the grouping of duplicates.
- `clusters`, `ranker`, `autoselect`, `selection`, `stats`, `dryrun`: what
  to keep and what to remove from each group.
- `blacklist`, `db`, `config`, `discovery`, `relocate`, `streaming`, `auth`,
  `ffmpeg_setup`, `notify`, `escape`, `utils`: records, settings, file
  discovery, HTTP range streaming, login tokens and platform commands.
- `ui_state`, `cards`, `comparer`, `browser`, `presets`, `monitor`,
  `evidence`, `report`: the decisions behind the user interface and the
  command-line reports.

Calls into `sha2`, `serde_json`, `fast_image_resize` and a few std functions
go through small trusted wrappers whose contracts state what those functions
document.

`app/` is the command-line program around the library (argument parsing,
files, processes); `tests/` exercises the library on concrete values.
