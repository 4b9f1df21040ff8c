//! Lenovo Legion Spectrum RGB controller.

pub mod protocol;
pub mod device;
pub mod sim;
pub mod layout;
pub mod editor;
