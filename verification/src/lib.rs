//! Verified core of a traffic-simulation toolkit: routing graphs in compressed sparse row form,
//! path extraction and landmark choice, trip structure analysis and the checks made before
//! simulating a trip, plan selection, travel-time binning, and the bookkeeping of the distributed
//! scoring: who sits in which vehicle, where events go, when they are released, the
//! event-ordering state machine, the rebuilding of experienced plans, and the end-of-run barriers.
pub mod backpacking;
pub mod collections;
pub mod dijkstra;
pub mod experienced_plans;
pub mod facilities;
pub mod finish_barrier;
pub mod graph;
pub mod homesending;
pub mod landmarks;
pub mod mapping;
pub mod mapping_broker;
pub mod network;
pub mod network_converter;
pub mod occupancy;
pub mod path;
pub mod prepare_for_sim;
pub mod routing;
pub mod scenario;
pub mod scoring;
pub mod selectors;
pub mod state_machine_buffer;
pub mod text;
pub mod travel_times;
pub mod trip_structure;
