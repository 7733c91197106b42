pub mod block;
pub mod initrd;
pub mod mount;
pub mod open;
pub mod path;
pub mod vfs;
pub mod drivers;
