//! The verified core of a compact-response BitTorrent tracker: parsing announce
//! requests, planning the store commands they issue, and encoding the replies.

pub mod announce;
pub mod common;
pub mod config;
pub mod peer;
pub mod query;
pub mod routing;
