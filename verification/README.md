# sample_library

The core of a desktop library of audio samples, written and verified in Verus: what is catalogued,
what a scan of a folder makes of the files in it, what is shown and in which order, how waveforms
are drawn, and in which order samples leave a source of sound.

- `src/` is the library. Every function in it has a contract that Verus proves, but for two calls
  that are taken on trust: `str::to_lowercase`, and the formatting of local times by chrono.
  - `text`, `paths`, `order`, `rounding`, `stamp`: texts, paths, stable sorting, floating-point
    results in whole numbers, and times.
  - `database`: the records of the catalogue and the statements that read and write it.
  - `scanner`, `waveform`: which files are analysed, what an analysis makes of them, and how results
    are gathered and saved.
  - `folders`, `listing`, `session`: the tree of folders, the list of tracks, and what the user has
    chosen to see of both.
  - `audio`: the state machines behind the sources of sound.
- `tests/` runs the library, and compares it with the standard library and with SQLite.
- `app/` is the program around it: files, the database, decoding, synthesis, audio output and the
  window.

Paths are texts with `/` as the separator, on every system. Floating-point values are held as their encodings.
