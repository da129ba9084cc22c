//! The decisions of a multi-domain scheduler: which CPUs may take work from
//! other domains, how much load each domain carries, and which tasks move from
//! one domain to another.
pub mod accuracy;
pub mod approx;
pub mod config;
pub mod cpumask;
pub mod cpustat;
pub mod dom_loads;
pub mod double;
pub mod exact_loads;
pub mod feasibility;
pub mod load_balancer;
pub mod load_map;
pub mod migration;
pub mod pow2;
pub mod push;
pub mod report;
pub mod rounding;
pub mod timing;
pub mod topology;
pub mod tuner;
pub mod weights;
