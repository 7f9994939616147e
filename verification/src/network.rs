//! The replication protocol: the messages, and what host and client
//! decide on each tick. Sending and receiving are left to the caller, who
//! hands in what arrived and gets back what is to be sent.

pub mod client_controller;
pub mod host_controller;
pub mod messages;
pub mod packet;

pub use client_controller::ClientController;
pub use host_controller::HostController;
