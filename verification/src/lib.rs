//! A peer-to-peer file distribution system: the tracker's file and peer
//! registry, the node's local index and download planning, and the text
//! protocol helpers they share.
pub mod text;
pub mod clock;
pub mod digest;
pub mod models;
pub mod blocks;
pub mod announce;
pub mod dto;
pub mod local_files;
pub mod tracker_dto;
pub mod transfer;
pub mod tracker;
pub mod download;
pub mod tracker_client;
pub mod node_shell;
pub mod random_id;
pub mod display;
pub mod signal;
pub mod runtime;
