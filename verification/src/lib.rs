//! Levenshtein-automaton product encodings, lazy-state caches, registries and
//! fzf scoring for WFST adapters, with their contracts proved by Verus.
#![allow(unused_imports)]

pub mod state_encoding;
pub mod state_codec;
pub mod text;
pub mod fx_map;
pub mod hints;
pub mod fzf_support;
pub mod fzf_scorer;
pub mod fzf_bounds;
pub mod lazy_cache;
pub mod node_key;
pub mod node_registry;
pub mod universal_support;
pub mod wallbreaker_results;
pub mod phonetic_support;
pub mod generalized_limits;
pub mod ffi_codes;
pub mod small_labels;
pub mod rewrite;
pub mod vocabulary;
pub mod levenshtein_expansion;
pub mod wallbreaker_table;
pub mod phonetic_nfa;
pub mod phonetic_candidates;
pub mod phonetic_nfa_wfst;
pub mod fzf_states;
pub mod generalized_states;
pub mod generalized_expansion;
pub mod generalized_ops;
pub mod dictionary_paths;
pub mod generalized_product;
pub mod successor_commit;
pub mod node_commit;
pub mod edge_pages;
