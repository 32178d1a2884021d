//! Rules of a desktop workspace engine: what a captured desktop looks like, how
//! it is described, grouped, found again and brought back.
//!
//! Everything here is a function from plain values to plain values. Reading the
//! desktop, running scripts, storing records, embedding text and moving bytes
//! are the caller's work; what to ask for, what to accept and what to make of
//! the answer is decided, and proved, here.
//!
//! - `types`: what is captured and what travels over the socket.
//! - `extract`, `bundle`, `osascript`: from raw window lists, app bundles and
//!   script output to nodes.
//! - `tagging`, `tagger`, `grouping`: tags, summaries, generated labels, and
//!   the items and groups of a workspace.
//! - `store`, `query`, `summon`, `catalog`: stored records, and the workspaces
//!   that answer a query or an intent.
//! - `planning`, `rehydrate`, `geometry`: what comes back, how, and where.
//! - `frame`, `handler`, `probe`: the protocol and both of its ends.
//! - `text`, `order`, `doubles`: what the rest is built on.

pub mod bundle;
pub mod catalog;
pub mod doubles;
pub mod extract;
pub mod frame;
pub mod geometry;
pub mod grouping;
pub mod handler;
pub mod order;
pub mod osascript;
pub mod planning;
pub mod probe;
pub mod query;
pub mod rehydrate;
pub mod store;
pub mod summon;
pub mod tagger;
pub mod tagging;
pub mod text;
pub mod types;
