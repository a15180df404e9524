//! Conjure, a build tool and dependency manager for C and C++.
//!
//! This is the part of it that decides and computes: what a manifest means, what a
//! compiler is told, what has to be rebuilt, how a manifest is edited. Everything
//! is stated and proved over plain values; reading files and running tools is left
//! to the program around it.
pub mod build;
pub mod cli;
pub mod compile;
pub mod dep_cache;
pub mod deps;
pub mod diag;
pub mod document;
pub mod fingerprint;
pub mod git;
pub mod incremental;
pub mod link;
pub mod lock;
pub mod names;
pub mod order;
pub mod pack;
pub mod paths;
pub mod proj;
pub mod proj_parse;
pub mod proj_write;
pub mod quotes;
pub mod text;
pub mod toolchain;
pub mod ui;
