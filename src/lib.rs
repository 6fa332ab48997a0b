//! A persistent binary search tree mapping unique keys to values.
//!
//! Every update consumes a tree and returns a new one; the sub-trees off the
//! search path are moved into the result unchanged. When a key is inserted a
//! second time the binding that is already there is kept.
mod laws;
mod tree;

pub use laws::{
    distinct_keys, lemma_absent_key, lemma_first_write_wins, lemma_insert_keeps_bindings,
    lemma_insert_nonempty, lemma_order_independent, lemma_round_trip,
};
pub use tree::{inserted, inserted_all, key_lt, valid_key_order, Tree};
