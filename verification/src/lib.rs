//! A dense, reusable storage arena ([`ValuePool`]) with stable, copyable index
//! handles ([`ValueRef`], [`UntypedValueRef`]), and a doubly linked list built
//! entirely on top of it ([`linked_list::DoubleLinkedList`]).
//!
//! Self-referential structures are hard to express safely when ownership is
//! tracked per object; here all nodes live in one arena and pointers are
//! replaced by lightweight, copyable, typed indices.

pub mod comptime_alive_index;
pub mod linked_list;
mod pool;
mod refs;
pub mod runtime_alive_index;

pub use pool::ValuePool;
pub use pool::lemma_lifo_reuse;
pub use pool::lemma_push_element_count;
pub use pool::lemma_push_get_round_trip;
pub use pool::lemma_remove_element_count;
pub use pool::lemma_take_element_count;
pub use pool::lemma_take_idempotent;
pub use pool::push_effect;
pub use pool::remove_effect;
pub use pool::take_effect;
pub use refs::UntypedValueRef;
pub use refs::ValueRef;
pub use refs::lemma_typed_from_untyped;
pub use refs::lemma_untyped_from_typed;
