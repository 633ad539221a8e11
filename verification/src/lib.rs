//! Routing and bundle storage for a bundle protocol agent.

pub mod eid;
pub mod order;
pub mod pattern;
pub mod routing;
pub mod storage;
