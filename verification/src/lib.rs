pub mod error;
pub mod memory;
pub mod utils;
pub mod device_tree;
pub mod interrupts;
pub mod devices;
pub mod cpu;
pub mod scheduler;
pub mod bus;
pub mod acpi;
pub mod fs;
pub mod disks;
pub mod symbols;
pub mod modules;
pub mod logger;
