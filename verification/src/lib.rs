//! A fleet-dispatch engine on a 2D grid.
//!
//! A pool of timed transport jobs ("rides") is assigned to a fleet of
//! vehicles over a fixed number of discrete time steps.  Each ride has a
//! pickup location with a time window and a dropoff location with a
//! deadline; completing a ride earns its travel distance in points, plus a
//! bonus when the vehicle reaches the pickup before the window opens.
//!
//! The crate is organised leaves first:
//!
//! * [`geometry`] — grid coordinates and Manhattan distance;
//! * [`ride`] — the immutable job description;
//! * [`scoring`] — the pure feasibility and scoring rules;
//! * [`vehicle`] — the mutable agent and its busy/free state machine;
//! * [`strategy`] — the assignment policies that pick a ride for a free
//!   vehicle;
//! * [`graph`] — the dispatch problem as a weighted graph, yielding a
//!   whole best chain for one vehicle;
//! * [`engine`] — the step loop that owns the fleet and the ride pool;
//! * [`codec`] — the textual form of problem instances and results.

pub mod codec;
pub mod engine;
pub mod geometry;
pub mod graph;
pub mod ride;
pub mod scoring;
pub mod strategy;
pub mod vehicle;
