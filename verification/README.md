# novel_segment

Chinese word segmentation for web novels (Pangu dictionaries plus web-novel vocabulary),
written in Verus: the segmenter's logic is executable Rust whose behaviour is stated in
`requires`/`ensures` contracts and proved.

## Layout

- `src/` — the verified library.
  - `strs`, `text`, `re`: strings as char sequences, UTF-16 positions, regular-expression
    matching through the `regex` crate.
  - `word`, `postag`, `options`, `dict`, `cjk`, `segment`, `pipeline`: words, tags, options,
    the dictionary tables, the CJK variant tables and the segmenter state.
  - `tokenizers`, `dict_tokenizer`, `optimizers`, `zht`, `run`: the segmentation pipeline.
  - `loader`, `dicts`: reading dictionary texts into the tables.
  - `json`, `tables`: JSON documents parsed by `serde_json`, and the CJK variant tables
    filled from the alias and Japanese table documents.
  - `service`: checking a segmentation against expectations, text processing for the tools.
  - `cli`: small helpers of the command line (option lists, flag values).
- `app/` — the command line, the HTTP API and the MCP server: reading files and requests,
  building the dictionary profiles from disk, and the floating-point chunk scoring.
- `tests/` — tests of the library.

The dictionary files are looked for under `NOVEL_SEGMENT_DICT_ROOT` (default `dict`).
