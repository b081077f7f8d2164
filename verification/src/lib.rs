//! The core of a controller that connects clients to services over virtual networks.
//!
//! Hosts offer services, proxies ask for them on behalf of clients. A request is answered with a chain
//! of connections: from the client to a replica of the service, and from there along the service's
//! dependencies. Each connection that is set up gets a network of its own, which is set up on the hosts
//! at its two ends and torn down with the last chain that runs over the connection.
//!
//! The exception are proxy clients of a service whose number of networks is limited: past the limit a
//! further client shares the network of one that is connected through the same proxy. A shared network
//! is torn down with the first of its clients that leaves. The others stay connected under its
//! identifier, which is then free and may be handed out again. That each connection has a network of
//! its own that is in use therefore holds as long as no client shares one, see [`network_laws`].
//!
//! A service may be connected to several replicas of another one, as each chain picks its own. Setting
//! up a chain acts on the replica that it picked; taking down the chain of a proxy client acts on the
//! first replica that each service on the way is connected to.
//!
//! The state is a [`services::world::World`]: the services with their replicas and connections, and
//! the orchestrator with the hosts that can be reached, the network identifiers in use and the
//! messages to send. What each operation does is a function on that state; what holds of all of them
//! stands in the modules whose names end in `laws`.

pub mod addr;
pub mod cascade_laws;
pub mod chain_laws;
pub mod chain_setup;
pub mod count_laws;
pub mod detect_laws;
pub mod farewell_laws;
pub mod fixtures;
pub mod graphviz;
pub mod graphviz_laws;
pub mod keep_laws;
pub mod message_laws;
pub mod net;
pub mod net_laws;
pub mod network_laws;
pub mod nullnet_grpc_impl;
pub mod orchestrator;
pub mod plan_laws;
pub mod repeat_laws;
pub mod request_laws;
pub mod seqs;
pub mod services;
pub mod setup_laws;
pub mod state_laws;
pub mod step_laws;
pub mod table;
pub mod teardown_laws;
pub mod text;
pub mod text_laws;
pub mod timeout;
pub mod use_laws;
pub mod vlan;
pub mod vxlan;
