//! Brass: the logic of a small version control system.
pub mod text;
pub mod decimal;
pub mod utf8;
pub mod mode;
pub mod hash;
pub mod zlib;
pub mod error;
pub mod object;
pub mod tree;
pub mod commit;
pub mod codec;
pub mod diff;
pub mod paths;
pub mod index;
pub mod merge;
pub mod store;
pub mod history;
pub mod lca;
pub mod files;
pub mod log;
pub mod blame;
pub mod config;
pub mod refs;
pub mod globs;
pub mod ignore;
pub mod remote;
pub mod objects;
pub mod pack;
pub mod repository;
pub mod checkout;
pub mod status;
pub mod upkeep;
pub mod leaf;
pub mod merging;
pub mod show;
pub mod laws;
