//! Consensus on the cluster's metadata.

pub mod app_state;
pub mod effects;
pub mod grpc;
pub mod heartbeat;
pub mod laws;
pub mod log_store;
pub mod meta_group;
pub mod model;
pub mod multiraft;
pub mod network;
pub mod request;
pub mod response;
pub mod rpc;
pub mod service;
pub mod state_machine;
pub mod store;
pub mod tcp_transport;
pub mod typ;
pub mod types;
pub mod volume_group;
