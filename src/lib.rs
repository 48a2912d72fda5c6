//! An unbalanced binary search tree over any totally ordered element type,
//! with insertion, lookup, deletion by subtree promotion, and an in-order
//! textual rendering.

mod laws;
mod order;
mod render;
mod tree;

pub use laws::{
    contents_after, inserted_and_kept, lemma_values_determined, lemma_values_increasing,
    law_delete_absent_keeps_values, law_insert_delete_round_trip, law_insert_present_keeps_values,
    law_lookup_reflects_history,
};
pub use order::{less, strictly_increasing, total_order};
pub use render::{displays, renders, spaced};
pub use tree::{
    hung_leftmost, is_search_tree, lemma_in_order_increasing, seq_of, set_of, with_deleted,
    with_inserted, Child, Node, Tree,
};
