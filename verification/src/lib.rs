//! The logical layout of a workspace of dockable panels: a tree of splits and
//! tab groups, the operations that rearrange it, its durable form, and the
//! state machine that decides when that form is written to storage.

pub mod codec;
pub mod dock;
pub mod identity;
pub mod panel;
pub mod scheduler;
pub mod tree;
pub mod weights;
pub mod workspace;
