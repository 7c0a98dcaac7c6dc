//! A repository state engine: commits in a DAG, an ancestry index, views of
//! refs and heads, transactions that rewrite history, and the operation log.

pub mod backend;
pub mod index;
pub mod ref_target;
pub mod name_map;
pub mod view;
pub mod op_store;
pub mod repo;
pub mod rebase;
pub mod parallelize;
pub mod branch;
pub mod conflicts;
