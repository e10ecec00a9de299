//! The `no_std` core of the workspace variant: a collector over an abstract
//! high-resolution timer, a stuck-delta health test, a memory loop and the
//! SHA-3 conditioners.

pub mod collector;
pub mod conditioner;
pub mod error;
pub mod health;
pub mod memory;
pub mod timer;

pub use collector::JentCollector;
pub use conditioner::{Conditioner, ConditionerKind, Sha3_512Conditioner, Shake256Conditioner};
pub use error::JentError;
pub use health::HealthState;
pub use timer::{CallbackTimer, HighResTimer};
