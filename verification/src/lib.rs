//! Placement rules of a static Kubernetes scheduling planner: hard-constraint
//! pre-screening, plan scoring over integer quantities, workload unrolling and
//! gang resolution, and the grammar of resource quantities.
pub mod csp;
pub mod labels;
pub mod model;
pub mod text;
pub mod ga;
pub mod phase0;
pub mod fitness;
pub mod parser;
pub mod quantity;
pub mod order;
pub mod gangs;
pub mod ffd;
pub mod plan;
pub mod workloads;
pub mod blueprint;
