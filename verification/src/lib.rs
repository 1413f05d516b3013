//! Supervision of cooperatively scheduled child tasks: a registry of live
//! task ids, the tokens by which children deregister themselves, and the
//! cancel-and-drain protocol a controller follows at the end of its life.

pub mod list;
pub mod manager;
pub mod model;
pub mod protocol;
pub mod registry;
pub mod teardown;

pub use manager::{Drain, Manager, Release, Scan, SubCo};
pub use registry::Registry;
pub use teardown::{Phase, Step};
