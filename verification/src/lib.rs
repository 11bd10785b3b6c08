//! A verified to-do task store.
//!
//! The store keeps an ordered list of tasks, each with a numeric id, a
//! description and a completion flag, and offers the usual mutations
//! (add, remove, edit, mark completed, clear) together with a textual
//! encoding of the whole list and its inverse parser, proved to round-trip.

pub mod codec;
pub mod store;

pub use codec::LoadError;
pub use codec::encode_list;
pub use codec::encode_task;
pub use codec::lemma_encode_parse_round_trip;
pub use codec::parse_list;
pub use store::Task;
pub use store::TaskModel;
pub use store::TodoList;
pub use store::add_spec;
pub use store::edit_spec;
pub use store::has_task;
pub use store::ids_sequential;
pub use store::lemma_add_preserves_sequential_ids;
pub use store::lemma_add_to_empty;
pub use store::lemma_edit_absent;
pub use store::lemma_mark_absent;
pub use store::lemma_remove_idempotent;
pub use store::mark_spec;
pub use store::models;
pub use store::remove_spec;
