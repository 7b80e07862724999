//! qstream: peer-to-peer live video streaming over UDP.
pub mod discovery_laws;
pub mod download_laws;
pub mod endpoint;
pub mod fault;
pub mod fault_laws;
pub mod http;
pub mod http_laws;
pub mod laws;
pub mod log;
pub mod log_laws;
pub mod message_laws;
pub mod node;
pub mod peer;
pub mod peers;
pub mod playlist;
pub mod playlist_laws;
pub mod protocol;
pub mod ranking_laws;
pub mod receiver;
pub mod registry;
pub mod registry_laws;
pub mod report_laws;
pub mod schedule_laws;
pub mod sender;
pub mod source_laws;
pub mod stats;
pub mod store;
pub mod store_laws;
pub mod table;
pub mod tag_laws;
pub mod text;
pub mod timer_laws;
pub mod transfer;
pub mod upnp;
pub mod upnp_laws;
pub mod window_laws;
pub mod wire_laws;
