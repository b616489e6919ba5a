//! The shapes of the requests and responses that the network service
//! exchanges (their wire encoding lives with the service).

use vstd::prelude::*;

verus! {

/// A request to create an AS.
#[derive(Debug)]
pub struct CreateAsRequest {
    pub asn: u32,
    pub name: String,
}

/// A request to add an interface (address as `a.b.c.d/len`).
#[derive(Debug)]
pub struct AddInterfaceRequest {
    pub name: String,
    pub ip_address: String,
    pub bandwidth: u64,
    pub cost: u32,
}

/// A request to bring a link up or down.
#[derive(Debug)]
pub struct LinkStateRequest {
    pub is_up: bool,
}

/// A request to run BGP on a router.
#[derive(Debug)]
pub struct EnableBgpRequest {
    pub local_asn: u32,
}

/// A request to add a BGP neighbor.
#[derive(Debug)]
pub struct AddBgpNeighborRequest {
    pub neighbor_ip: String,
    pub remote_asn: u32,
    pub import_policy: Option<String>,
    pub export_policy: Option<String>,
}

/// A request to create a traffic generator.
#[derive(Debug)]
pub struct CreateTrafficGeneratorRequest {
    pub source_router_id: String,
    pub dest_prefix: String,
    pub rate_bps: u64,
    pub is_active: bool,
}

/// A request to change a traffic generator; absent fields stay.
#[derive(Debug)]
pub struct UpdateTrafficGeneratorRequest {
    pub rate_bps: Option<u64>,
    pub is_active: Option<bool>,
    pub dest_prefix: Option<String>,
}

/// A request to change the tick rate.
#[derive(Debug)]
pub struct TickRateRequest {
    pub tick_rate_ms: u64,
}

/// A request to add a policy from its text.
#[derive(Debug)]
pub struct PolicyRequest {
    pub policy_text: String,
}

/// The id of what a request created.
#[derive(Debug)]
pub struct IdResponse {
    pub id: String,
}

/// A message about what became of a request.
#[derive(Debug)]
pub struct MessageResponse {
    pub message: String,
}

} // verus!
