//! Pickup-and-delivery vehicle routing: checking a route plan against the
//! vehicles, calls and travel tables of an instance, computing its cost, and
//! the moves that a simulated-annealing search makes on it.
pub mod constants;
pub mod validity_check;
pub mod alter_solution;
pub mod coordinate_generator;
pub mod correctors;
pub mod images_functions;
pub mod instances;
