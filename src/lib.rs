//! A traffic-shadowing reverse proxy core: route-table parsing and lookup,
//! order-preserving collection of per-destination outcomes, and reconciliation
//! of those outcomes into the single response a caller sees.

pub mod outcome;
pub mod dispatch;
pub mod routes;
pub mod text;
pub mod config_file;
pub mod router;
