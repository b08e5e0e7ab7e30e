//! Core of a BitTorrent tracker: swarm state, access control, UDP connection
//! identifiers, the BEP-15 announce wire format and the persistence row model.

pub mod info_hash;
pub mod swarm;
pub mod auth;
pub mod repository;
pub mod connection_id;
pub mod tracker;
pub mod databases;
pub mod jobs;
pub mod wire;
pub mod udp;
