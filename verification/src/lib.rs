//! Keeps several readers of the same comic on the same page.
//!
//! The library holds the pieces of the server that are worth stating
//! precisely: a natural-order comparator for page filenames, the JSON
//! grammar of the wire protocol, the session-sharing core that tracks
//! connected clients and the current page of each comic, and the
//! resolution of server settings.  The transport itself (websockets,
//! files, signals) lives outside and only hands plain values in and out.

pub mod codec;
pub mod config;
pub mod sharing;
pub mod smart_cmp;
