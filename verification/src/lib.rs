//! Polish text-to-speech front end for **Kokoro** (ONNX) with the **Phonemis** phonemizer: the verified logic.
//!
//! Text goes to IPA in four steps (manual phonemes `[text](/ipa/)`, supplementary normalization, sentences,
//! the phonemizer through a cache), and IPA goes to chunks for the acoustic model (vocabulary filter, chunks of at
//! most `STYLE_ROWS` phonemes, token ids, style rows, pauses). The IPA format has one sentence per line and an
//! empty line between paragraphs.
//!
//! Loading files, running `phonemis_runner` processes, downloading and ONNX inference are done by the caller; this
//! crate decides what they are given and what their answers mean.

pub mod cache;
pub mod cancel;
pub mod catalog;
pub mod chars;
pub mod engine;
pub mod error;
pub mod g2p;
pub mod layout;
pub mod normalize;
pub mod overrides;
pub mod pipeline;
pub mod store;
pub mod synth;
pub mod text;

pub use cache::{PieceCache, MAX_CACHE_ENTRIES};
pub use cancel::CancelToken;
pub use catalog::{Catalog, Resolved, VoiceInfo, DEFAULT_LANG, LANG_ID, REPO_ID, REVISION, SAMPLE_RATE, STYLE_DIM, STYLE_ROWS};
pub use error::Error;
pub use g2p::G2p;
pub use normalize::normalize_pl;
pub use overrides::{extract_overrides, sentence_ipa, text_pieces};
pub use pipeline::{text_to_ipa, TextOptions};
pub use synth::{synthesis_plan, try_synthesis_plan, Chunk, Pause};
pub use text::{pack_ipa, split_sentences};
