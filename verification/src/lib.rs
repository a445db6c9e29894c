//! A real-time matchmaker for five-a-side games.

pub mod api;
pub mod balancer;
pub mod clock;
pub mod config;
pub mod fairness;
pub mod ids;
pub mod matcher;
pub mod metrics;
pub mod model;
pub mod number;
pub mod pool;
