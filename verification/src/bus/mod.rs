pub mod pcie;
