# plkokoro

Polish text-to-speech with **Kokoro** (ONNX) and the **Phonemis** phonemizer. The logic of the front end is a
Verus library whose behaviour is stated in contracts and proved; the parts that touch the outside world (files,
downloads, `phonemis_runner` processes, ONNX Runtime, WAV output, the command line) are ordinary Rust around it.

## Layout

- `src/` — the verified library:
  - `chars` — whitespace, trimming, collapsing, character classes;
  - `overrides` — manual phonemes `[text](/ipa/)`: markers, pieces, sentence IPA;
  - `normalize` — supplementary normalization (zł, %, abbreviations, clock times, quotes);
  - `text` — paragraphs and sentences; cutting IPA into chunks that fit the model;
  - `cache`, `pipeline` — text to IPA through the phonemizer and its cache;
  - `synth` — IPA to the chunks the acoustic model runs on (vocabulary filter, token ids, style rows, pauses);
  - `layout` — the IPA layout (one sentence per line, an empty line between paragraphs) is read as it is written;
  - `catalog`, `store`, `engine`, `g2p` — the decisions and messages around the model files, ONNX Runtime and
    `phonemis_runner`;
  - `error`, `cancel` — errors and the shared cancellation flag.
- `app/` — the command line and the model object: loading, downloading, subprocesses, inference, WAV files.
- `tests/` — tests of the library on concrete values.

The library is verified with Verus from `src/lib.rs`.
