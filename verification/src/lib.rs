//! Verified core of a code-metrics tool.
//!
//! The central piece is duplicate-content detection over a corpus of text
//! files: content is normalized to erase cosmetic differences, split into
//! variable-length chunks by a rolling hash with a content-defined boundary
//! condition, and each chunk is reduced to a 64-bit fingerprint; a file's
//! duplication score is the share of its chunks whose fingerprints also
//! occur elsewhere in the corpus.

pub mod chunking;
pub mod files;
pub mod hashing;
pub mod metrics;
pub mod normalize;
pub mod score;
pub mod text;

pub use chunking::extract_chunks;
pub use files::{format_size, is_noise_file, should_include};
pub use hashing::{fast_pow, simple_hash};
pub use metrics::{
    analyze_emojis, calculate_code_complexity, calculate_code_density, calculate_complexity,
    calculate_line_density, calculate_line_indent, calculate_max_indent_level,
    count_nesting_change, is_complexity_keyword, is_emoji, EmojiAnalysis,
};
pub use normalize::{normalize_content, normalize_line};
pub use score::calculate_duplication_percentage;
