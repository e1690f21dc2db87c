//! Core of a layer-4 TCP load balancer: the backend registry with its
//! round-robin selector, the health-probe logic, and the decisions of the
//! connection proxy. Sockets, timers and tasks live with the caller.

pub mod load_balancer;
pub mod pool;
pub mod handler;
pub mod probe;
