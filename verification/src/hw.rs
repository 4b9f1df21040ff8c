//! The laptop's platform drivers as sysfs presents them: power modes and
//! limits, battery, fans and the `ideapad_acpi` switches. The library reads
//! the text of attribute files and decides what to write; the files
//! themselves are read and written by the application.

pub mod sysfs;
pub mod power;
pub mod battery;
pub mod device;
pub mod fans;
pub mod info;
