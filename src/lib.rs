mod graph;
mod levenshtein;
mod packed_dawg;
mod utilities;

pub use levenshtein::{lemma_lev_lower_bound, lemma_lev_self, lemma_lev_zero, lev};
pub use packed_dawg::{
    ascending, has_entry, is_prefix, kept, kept_nodes, lex_less, normalized_words, PackedDawg,
    PackedDawgBuilder,
};
pub use utilities::{common_prefix, normalized, prep_word, shared_len};
