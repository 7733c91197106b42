# kernel

The logic of a small AArch64 kernel, written in Verus and proved against its contracts.

- `src/memory`: physical page bitmap (`pmm`), translation tables and their walks (`tables`,
  `frame`, `free_space`), the virtual memory manager (`vmm`) and the kernel heap (`heap`).
- `src/devices`, `src/interrupts`: the GICv2 register writes, the interrupt handler table and the
  interrupt entry, the PL011 UART, exception decoding.
- `src/device_tree`, `src/acpi`, `src/bus`: byte parsers for the flattened device tree, the ACPI
  tables and the PCIe configuration space.
- `src/fs`, `src/disks`: the initrd file system, mount table, block cache and disk reads.
- `src/modules`, `src/symbols`: the ELF module loader (through the `elf` crate) and the kernel
  symbol table.
- `src/scheduler`: threads, their stacks, and the run and sleep queues.

`app/` holds what runs on the machine and cannot be verified: the boot sequence, firmware
memory map reading, MMIO probing of PCI buses, and logging. `tests/` runs the library on
concrete values.
