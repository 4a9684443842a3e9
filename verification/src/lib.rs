//! Planning for the interpreter: from checked program facts to the layouts and
//! tables that execution reads.
pub mod captures;
pub mod frames;
pub mod ids;
pub mod scope_tree;
pub mod text;
pub mod variants;
pub mod scopes;
pub mod slots;
pub mod program;
pub mod names;
pub mod records;
pub mod dispatch;
pub mod actions;
pub mod plan;
pub mod allocation;
pub mod fixtures;
pub mod arguments;
pub mod laws;
pub mod keys;
pub mod laws_planning;
