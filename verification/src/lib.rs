//! A discrete-event traffic micro-simulation core.
//!
//! The engine advances independent agents (cars, bikes, pedestrians, buses)
//! through a static road network over simulated time. A global event
//! scheduler owns causality ordering; per-intersection controllers arbitrate
//! conflicting turn requests; a trip manager tracks each trip's lifecycle
//! and answers queries about status, delay and completion.

pub mod types;
pub mod scheduler;
pub mod trips;
pub mod intersection;
pub mod network;
pub mod gameplay;
pub mod sim;
pub mod fix_signals;
