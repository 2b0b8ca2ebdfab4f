//! dormant: a reverse proxy for Docker that starts containers when they are asked for and stops
//! them when nobody uses them any more.
//!
//! The library holds what the proxy decides; reading and sending is left to the program around it.
//! Where outside work and decisions alternate, a decision is a step from a state and an event to
//! the next state and the next action.
//!
//! - `config`, `labels`, `statics`: the settings, the labels of containers and the static routes;
//!   `label_laws`, `static_laws`: how their texts are read, and where static routes lead.
//! - `container`, `docker`: containers, their addresses and states, and the events of the daemon.
//! - `router`: the routes from hosts and ports to containers; `router_laws`, `route_laws`: what
//!   holds of the tables, and what a host or a port resolves to.
//! - `dependencies`, `levels`, `layers`, `level_laws`: what containers depend on, and the order of
//!   starts.
//! - `sessions`, `idle`, `idle_laws`: who is being used, and what is stopped.
//! - `startup`: how a container or a group is started and waited for; `starts`: levels one after
//!   the other; `start_laws`: what holds of both.
//! - `http`, `proxy`, `tcp`: requests and connections, from their arrival to their end; `http_laws`,
//!   `traffic_laws`: what is sent on, and where to.
//! - `aliases`: the names that the proxy itself has on a network; `alias_laws`: what holds of them
//!   and of the answers of the daemon.
//! - `text`, `text_laws`, `number`, `order`, `sequences`, `string_map`, `time`: what all of these
//!   build on.

pub mod alias_laws;
pub mod aliases;
pub mod config;
pub mod container;
pub mod dependencies;
pub mod docker;
pub mod http;
pub mod http_laws;
pub mod idle;
pub mod idle_laws;
pub mod label_laws;
pub mod labels;
pub mod layers;
pub mod level_laws;
pub mod levels;
pub mod number;
pub mod order;
pub mod proxy;
pub mod route_laws;
pub mod router;
pub mod router_laws;
pub mod sequences;
pub mod sessions;
pub mod start_laws;
pub mod starts;
pub mod startup;
pub mod static_laws;
pub mod statics;
pub mod string_map;
pub mod tcp;
pub mod text;
pub mod text_laws;
pub mod time;
pub mod traffic_laws;
