//! The core of a shell that runs commands on nested remote hosts.
//!
//! Shared by both sides: the identifiers and wire messages ([`ids`],
//! [`protocol`]), how a message is framed as a line ([`wire`]) and small
//! helpers over hash tables ([`tables`]).
//!
//! The executing side: the scheduler that starts a process once the
//! processes it depends on have ended as asked ([`machine`]), the registry
//! that hands each end of a pipe out once ([`registry`]), the decisions of
//! the execution engine ([`engine`]), how a request finds its way down the
//! chain of backends ([`backend`]) and the keys that tie an editor to the
//! command that started it ([`keys`]).
//!
//! The asking side: the endpoint that allocates identifiers and tracks what
//! is alive ([`endpoint`]), the command language ([`parse`], [`prefs`],
//! [`plan`], [`lower`]), the session that runs a plan and keeps account of
//! what is still awaited ([`session`]), and a smaller command language for a
//! shell without remotes ([`syntax`], [`simple`]).
//!
//! Beside them: the file format of a terminal recording ([`recording`]).

pub mod ids;
pub mod protocol;
pub mod wire;
pub mod tables;
pub mod machine;
pub mod registry;
pub mod engine;
pub mod backend;
pub mod keys;
pub mod endpoint;
pub mod parse;
pub mod prefs;
pub mod plan;
pub mod lower;
pub mod session;
pub mod syntax;
pub mod simple;
pub mod recording;
