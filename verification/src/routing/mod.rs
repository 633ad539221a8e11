//! The routing table.

pub mod action;
pub mod entry;
pub mod trail;
pub mod peers;
pub mod lookup;
pub mod table;
pub mod laws;
pub mod lookup_laws;
pub mod table_laws;
