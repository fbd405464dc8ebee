# senime

A table-driven Chinese input method engine, with its contracts proved by Verus.
A table maps codes (strings of ASCII keys) to words; the engine reads a run of
keys and answers with the text they stand for, the pending candidates, and the
segmentation of any text into codes.

## Layout

- `src/` — the verified library.
  - `text` — character and string helpers over `Seq<char>`, number parsing.
  - `dict`, `prefix_dict`, `fuzz_dict`, `sort` — table files, prefix and fuzzy lookup.
  - `bin_cache` — the binary cache of a loaded table.
  - `input_analyzer` — keys in, text and candidates out.
  - `lookup_code`, `encode` — the cheapest way to type a text, and its report.
  - `sentence`, `context`, `typing`, `render` — the typing trainer: text being typed,
    its keys and hints, typing presets, screen layout.
  - `fcitx_state` — the key-event state machine of the desktop input method and its preset file.
  - `lsp`, `position` — completion in an editor and editor positions in a rope.
  - `js_bridge` — the request encryption of the typing site and the reading of its replies.
- `tests/` — tests of the library.
- `app/` — the parts around it: file loading, the editor and desktop glue,
  measurements in floating point and the typing site's request bodies.
