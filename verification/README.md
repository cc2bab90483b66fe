# fresh-editor (verified parts)

Two completion providers of a text editor and its widget renderer, written
in Verus and proved against their contracts.

- `src/provider.rs` — the provider trait, candidates, the completion
  context and the scan window around the cursor.
- `src/text.rs` — the calls into `unicode-segmentation` (grapheme
  clusters) and into std's Unicode tables (alphanumeric test, lowercasing,
  lossy UTF-8 decoding), each behind a small trusted wrapper.
- `src/words.rs` — splitting text into words: maximal runs of word-class
  grapheme clusters, with their byte offsets.
- `src/rank.rs` — the stable ranking sort and the score arithmetic shared by
  the providers, and the uniqueness of a best-first selection.
- `src/dabbrev.rs` — dynamic abbreviation: words of the window that extend
  the typed prefix, nearest to the cursor first, each once.
- `src/buffer_words.rs` — buffer words: distinct words of the window,
  scored by proximity, viewport visibility and frequency.
- `src/widgets.rs`, `src/render.rs` — the widget tree and its rendering into
  styled text entries, hit areas and per-widget state (list scroll offsets).
- `app/lib.rs` — the JSON payloads and `HashMap` state the widget registry
  uses, converted to and from the library's types.
