//! A verified model of an actor runtime's two cores: the adaptive blocking
//! thread pool and the supervision tree of children groups and supervisors.
pub mod blocking;
pub mod bastion;
pub mod child;
pub mod children;
pub mod message;
pub mod supervisor;
