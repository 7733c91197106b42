pub mod pl011_uart;
