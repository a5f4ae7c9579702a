pub mod bitstr;
pub mod bitwise_operations;
pub mod hashes;
pub mod rank_structures;
pub mod static_dicts;
pub mod traits;
pub mod naive_trie;
pub mod compact_trie;
pub mod z_fast_trie;
pub mod z_fast_trie_sux;
