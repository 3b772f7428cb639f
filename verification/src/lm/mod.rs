//! Static dictionaries and language models.

pub mod trie_index;
pub mod static_dict;
pub mod static_lm;
