//! The services of the network: their configuration, replicas and clients.

pub mod changes;
pub mod clients;
pub mod connections;
pub mod edge;
pub mod host_laws;
pub mod input;
pub mod input_laws;
pub mod laws;
pub mod model;
pub mod order_laws;
pub mod room;
pub mod service_info;
pub mod service_laws;
pub mod update_laws;
pub mod walk_laws;
pub mod world;
