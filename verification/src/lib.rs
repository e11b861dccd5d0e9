//! Discovery of payment mints announced on a public event-relay network.
//!
//! The crate turns raw relay events carrying NIP-87 mint announcements into
//! two deduplicated mappings, one per mint kind: token-mint style (Cashu) and
//! federation style. Relay I/O itself is left to an external provider; this
//! crate builds the query, parses the fetched events and merges announcements
//! that share a mint identity.

pub mod cashu;
pub mod discovery;
pub mod events;
pub mod fedimint;
pub mod network;
pub mod text;
pub mod uniq;
