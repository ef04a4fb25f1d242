# copaiba

Verified core of an oto.ini editor for UTAU voicebanks, written in Verus.

- `src/oto.rs` reads oto.ini files (UTF-8, Shift-JIS or GBK) into entries and
  writes them back; `src/oto_laws.rs` proves that a file saved as UTF-8 reads
  back as the entries that were saved, with their timings rounded to whole
  milliseconds (as saving writes them) and each on its line, not done and
  without notes, as long as the rounded timings fit the timing type.
- `src/timing.rs` holds timing values as whole microseconds and reads and
  writes their decimal text (sign, digits, point and exponent).
- `src/plugins.rs` is the consistency checker, `src/duplicates.rs` the
  duplicate detector, `src/sorting.rs` the stable alias sorter and
  `src/levenshtein.rs` the edit distance it uses (symmetric, zero only
  between equal texts, and obeying the triangle inequality).
- `src/recorder.rs` holds the recorder's state transitions, `src/editor.rs`
  the menu and tool-panel decisions (presets, snap modes, the Save item).
- `src/text.rs` has the character-level helpers.
- `app/` does the file and audio I/O (hound for WAV files) and the
  floating-point tools (pitch analysis, note names).
