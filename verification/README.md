# caption_core

Post-processing of chunked speech-recognition output into caption
segments, verified with Verus, with the decision procedures of the tools
around it.

- `src/` — the verified library (all times in integer microseconds):
  - `schema` — the caption records and their mathematical views;
  - `text` — Unicode whitespace, ASCII punctuation, trimming, joining;
  - `parse` — raw per-chunk recognizer output to segments;
  - `pipeline` — overlap merge, gap grouping/splitting, long-segment
    splitting; `pipeline_laws` — what holds of every output;
  - `convert` — segments to transcript segments and raw snapshots;
  - `parakeet_grouping` — sub-word tokens to words and sentences;
  - `whisper_recognizer`, `recognizer` — Whisper token grouping, model
    source, recognizer choice;
  - `embedding` — the base64 codec of embedding vectors;
  - `embed`, `ffmpeg`, `download` — paths, samples, UMAP plan, ffmpeg
    location, download progress throttle.
- `app/` — JSON/WAV I/O, the recognition and embedding models, model
  downloads and the command-line entry points.
- `tests/` — tests of the library.
