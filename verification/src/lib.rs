//! A tick-based network simulator: OSPF link-state routing, BGP best-path
//! selection, route policies, traffic tracing and a scheduled event queue.

pub mod bgp;
pub mod bgp_tick;
pub mod events;
pub mod export;
pub mod gns3;
pub mod ipv4;
pub mod models;
pub mod netops;
pub mod ospf;
pub mod ospf_tick;
pub mod policies;
pub mod requests;
pub mod schemas;
pub mod simulation;
pub mod spf;
pub mod store;
pub mod table;
pub mod text;
pub mod topology;
pub mod traffic;
