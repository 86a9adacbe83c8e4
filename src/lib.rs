//! Byte pair encoding vocabulary training, subword encoding, word tokenizing
//! and two-class token counting for text classification.

pub mod bpe;
pub mod corpus;
pub mod counts;
pub mod encode;
pub mod merge;
pub mod naive_bayes;
pub mod pairs;
pub mod strings;
pub mod tokenize;

pub use bpe::{bpe_training, train_vocabulary, MIN_VOCAB_SIZE};
pub use corpus::{build_vocab_corpus, init_vocab_corpus, Frequency, WordCount};
pub use encode::bpe_encoding;
pub use merge::{merge_bigrams, update_frequency_table};
pub use naive_bayes::{bayes_preprocess, LineTarget, NumberWords, OccurrenceTable, TokenOccurence};
pub use pairs::get_max_freq_bigram;
pub use strings::output_file_name;
pub use tokenize::{tokenize_line, tokenize_line_alphas_lowercase, tokenize_reader};
