//! Control centre for Lenovo Legion laptops on Linux: the verified core.
//!
//! The library holds the Spectrum RGB controller protocol, the simulated
//! controller, the parsing and decision logic over sysfs values and the
//! configuration format of the custom-mode auto-apply service.

pub mod autoapply;
pub mod hw;
pub mod scan;
pub mod spectrum;
pub mod text;
