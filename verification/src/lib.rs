//! Verified core of the Saba bandwidth allocator.

pub mod node;
pub mod switch;
pub mod text;
pub mod graph;
pub mod topology;
pub mod clustering;
pub mod order;
pub mod client;
pub mod connection;
pub mod registry;
pub mod protocol;
pub mod model;
pub mod profile;
pub mod record;
pub mod profiler;
pub mod controller_config;
pub mod settings;
pub mod enforcer;
pub mod profiler_config;
pub mod first_profiler_config;
