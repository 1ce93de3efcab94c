//! The language-server synchronization core of a text editor, with the editor's
//! smaller pure pieces around it.
//!
//! The core keeps each open document's content, as a language server believes it,
//! consistent with the buffer: `sync_state` holds the per-(document, connection)
//! state machine and its laws, `coordinator` the table of those states behind the
//! editor's lifecycle events, `supervisor` the decisions about server processes,
//! `pending` and `connection` the per-connection request table and message queues,
//! and `framing` the wire format.
use vstd::prelude::*;

pub mod connection;
pub mod coordinator;
pub mod framing;
pub mod highlight;
pub mod i18n;
pub mod keys;
pub mod pending;
pub mod plugin_script;
pub mod release;
pub mod supervisor;
pub mod sync_state;
pub mod text;
pub mod view_mode;

verus! {

} // verus!
