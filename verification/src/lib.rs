//! pmm: a meta-package-manager core.
//!
//! The library holds the verified logic of a dispatcher that unifies many
//! package-manager backends behind one action vocabulary: the data model,
//! the version-constraint grammar, the world store (the ledger of installed
//! packages), priority-ordered merging of dispatch results, argument parsing,
//! and the text formatting that presents results.  File and terminal I/O and
//! the embedded interpreter that hosts the backends live outside the library.
#![verifier::loop_isolation(false)]

pub mod args;
pub mod backend;
pub mod command;
pub mod config;
pub mod dispatch;
pub mod display;
pub mod seqs;
pub mod text;
pub mod version;
pub mod world;
