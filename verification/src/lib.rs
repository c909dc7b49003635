//! Data and navigation engine for a file-tree panel: a lazily populated,
//! persistently rebuilt model of a directory subtree, together with the
//! auto-keyed registry the host uses to hand out stable integer identities.

pub mod auto_key_map;
pub mod explorer;
pub mod fs;
pub mod lex;
pub mod path;
pub mod tree;
