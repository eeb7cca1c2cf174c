//! A small content-addressed version-control library: the index of staged
//! files, object and reference formats, and the decisions behind the
//! commands of a minimal Git.

pub mod order;
pub mod text;
pub mod index;
pub mod index_text;
pub mod error;
pub mod objects;
pub mod commit;
pub mod refs;
pub mod merge;
pub mod stage;
pub mod status;
