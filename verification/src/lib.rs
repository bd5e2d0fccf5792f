//! Verified identity, principal and permission-graph logic of the Gauge permission service.
use vstd::prelude::*;

pub mod actor_id;
pub mod domains;
pub mod group_graph;
pub mod migrate_principal_connections;
pub mod model;
pub mod permission_request_notifier;
pub mod principal_ids;
pub mod revoke_umbrella_grants;
pub mod super_user;
pub mod text;

verus! {

} // verus!
