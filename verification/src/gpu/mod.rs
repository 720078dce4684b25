//! The blur on a graphics processor: what is decided and computed before, between and
//! after the work that the device does.

pub mod boxes;
pub mod device_laws;
pub mod mps;
pub mod params;
pub mod plan;
pub mod plan_laws;
pub mod processor;
pub mod readback;
pub mod strategy;
pub mod upload;
pub mod variable;
pub mod variance;
pub mod weight_laws;
pub mod weights;
