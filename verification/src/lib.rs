//! A library for intercepting invocations of command-line programs.
//!
//! A *shim* names a real program and carries three ordered lists of hooks
//! (pre, override, post), each optionally scoped to a subcommand token.
//! Dispatching an invocation means looking the program up in a registry of
//! shims, selecting the hooks that match the invocation's first argument,
//! substituting the `$@` placeholder, splitting hook bodies into command
//! lines, and running pre-hooks, then the override hooks (or the original
//! program when none match), then post-hooks, stopping at the first failure.
//!
//! This crate owns the dispatch engine: the data model, the placeholder
//! substitution and line splitting, the selection of hooks, the construction
//! of the ordered command plan, and the fail-fast bookkeeping while the plan
//! runs. Actually spawning processes, reading configuration files from disk,
//! and the command-line surface live outside the library and talk to it
//! through plain values.

pub mod dispatch;
pub mod shim;
pub mod text;
