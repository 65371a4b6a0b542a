//! Core logic of a small markdown-editor shell: building an ordered,
//! nested listing of a directory's visible contents, and deciding which
//! editor menu entries are live in a given view mode.
//!
//! The filesystem itself is out of reach here: callers enumerate a
//! directory and hand the result over as plain values ([`RawEntry`],
//! [`DirProbe`]); this crate turns them into the ordered tree and owns
//! every rule about it (which names are skipped, how siblings are
//! ordered, what an unreadable subdirectory looks like).

mod menu;
mod order;
mod tree;

pub use menu::MenuState;
pub use menu::contains_at;
pub use menu::contains_seq;
pub use menu::is_code_mode;
pub use menu::menu_state_for_mode;
pub use menu::str_contains;
pub use menu::toggle_view_label_for;
pub use tree::DirProbe;
pub use tree::ErrorKind;
pub use tree::FileNode;
pub use tree::NodeView;
pub use tree::RawEntry;
pub use tree::RawEntryKind;
pub use tree::RawKindView;
pub use tree::RawView;
pub use order::lex_le;
pub use order::lex_le_from;
pub use order::lemma_lex_le_from_total;
pub use order::lemma_lex_le_from_trans;
pub use order::lemma_lex_le_total;
pub use order::lemma_lex_le_trans;
pub use order::lower_of;
pub use order::str_lex_le;
pub use tree::build_entry;
pub use tree::build_forest;
pub use tree::build_tree;
pub use tree::built_forest;
pub use tree::built_node;
pub use tree::built_prefix;
pub use tree::error_message;
pub use tree::forest_wf;
pub use tree::hidden_name;
pub use tree::insert_ordered;
pub use tree::insert_pos;
pub use tree::kept_nodes;
pub use tree::kept_of;
pub use tree::lemma_built_forest_multiset;
pub use tree::lemma_built_forest_wf;
pub use tree::lemma_enumeration_order_immaterial;
pub use tree::lemma_insert_ordered_elems;
pub use tree::lemma_insert_ordered_keeps_order;
pub use tree::lemma_insert_ordered_multiset;
pub use tree::lemma_insert_shape;
pub use tree::lemma_kept_nodes_permutation;
pub use tree::lemma_node_le_total;
pub use tree::lemma_node_le_trans;
pub use tree::lemma_node_seq_view_index;
pub use tree::lemma_node_seq_view_len;
pub use tree::lemma_ordered_listing_determined;
pub use tree::lemma_raw_seq_view_index;
pub use tree::lemma_raw_seq_view_len;
pub use tree::name_is_hidden;
pub use tree::node_le;
pub use tree::node_seq_view;
pub use tree::node_view;
pub use tree::node_wf;
pub use tree::ordered;
pub use tree::raw_seq_view;
pub use tree::raw_view;
pub use tree::ties_only_between_equals;
