use kernel::acpi::madt::{Madt, MadtEntryType, MadtTable, GICD, GicMsiFrame};
use kernel::acpi::rsdp::{check_root_table, Rsdp};
use kernel::acpi::sdt::{SdtHeader, Signature};
use kernel::acpi::spcr::{SerialType, Spcr};
use kernel::acpi::{get_table, rsdp_address, table_length, ConfigTableKind};
use kernel::bus::pcie::capabilities::{CapabilitiesIter, Capability};
use kernel::bus::pcie::{
    decode_bar, driver_for, functions_to_scan, get_bars, is_present, Location, PciBar,
    PciBarMemoryLocatable, PciBarType, PciBus, PciDevice, HeaderType, Status,
};
use kernel::error::Error;

fn fix_checksum(b: &mut [u8], len: usize, at: usize) {
    b[at] = 0;
    let s: u32 = b[..len].iter().map(|x| *x as u32).sum();
    b[at] = ((256 - (s % 256)) % 256) as u8;
}

fn rsdp(revision: u8, rsdt: u32, xsdt: u64) -> Vec<u8> {
    let mut b = vec![0u8; 36];
    b[..8].copy_from_slice(b"RSD PTR ");
    b[15] = revision;
    b[16..20].copy_from_slice(&rsdt.to_le_bytes());
    b[20..24].copy_from_slice(&36u32.to_le_bytes());
    b[24..32].copy_from_slice(&xsdt.to_le_bytes());
    let len = if revision > 1 { 36 } else { 20 };
    fix_checksum(&mut b, len, 8);
    b
}

fn table(sig: &[u8; 4], body: &[u8]) -> Vec<u8> {
    let mut b = vec![0u8; 36];
    b[..4].copy_from_slice(sig);
    b.extend_from_slice(body);
    let len = b.len() as u32;
    b[4..8].copy_from_slice(&len.to_le_bytes());
    b[8] = 3;
    let n = b.len();
    fix_checksum(&mut b, n, 9);
    b
}

#[test]
fn rsdp_v1_and_v2() {
    let b = rsdp(0, 0x1234, 0);
    let r = Rsdp::from_bytes(&b).ok().unwrap();
    assert_eq!(r.revision(), 0);
    assert_eq!(r.root_table(), (0x1234, 4));
    let b2 = rsdp(2, 0x1234, 0xABCD_0000);
    let r2 = Rsdp::from_bytes(&b2).ok().unwrap();
    assert_eq!(r2.root_table(), (0xABCD_0000, 8));
}

#[test]
fn rsdp_errors() {
    let mut b = rsdp(0, 0x1234, 0);
    b[0] = b'X';
    match Rsdp::from_bytes(&b) {
        Err(Error::CustomStr(s)) => assert_eq!(s, "Invalid RSDP signature"),
        _ => panic!("expected a signature error"),
    }
    let mut c = rsdp(0, 0x1234, 0);
    c[16] ^= 1;
    match Rsdp::from_bytes(&c) {
        Err(Error::CustomStr(s)) => assert_eq!(s, "Invalid RSDP checksum"),
        _ => panic!("expected a checksum error"),
    }
}

#[test]
fn root_table_entries() {
    let b2 = rsdp(2, 0, 0x1000);
    let r2 = Rsdp::from_bytes(&b2).ok().unwrap();
    let mut body = Vec::new();
    body.extend_from_slice(&0x5000u64.to_le_bytes());
    body.extend_from_slice(&0x6000u64.to_le_bytes());
    let xsdt = table(b"XSDT", &body);
    let mut it = r2.iter(&xsdt);
    assert_eq!(it.next(), Some(0x5000));
    assert_eq!(it.next(), Some(0x6000));
    assert_eq!(it.next(), None);
}

#[test]
fn rsdp_address_prefers_acpi2() {
    let t = vec![(ConfigTableKind::Acpi, 1u64), (ConfigTableKind::Other, 2), (ConfigTableKind::Acpi2, 3)];
    assert_eq!(rsdp_address(&t).ok(), Some(3));
    let t1 = vec![(ConfigTableKind::Acpi, 1u64)];
    assert_eq!(rsdp_address(&t1).ok(), Some(1));
    match rsdp_address(&vec![(ConfigTableKind::Other, 9u64)]) {
        Err(Error::CustomStr(s)) => assert_eq!(s, "ACPI load: RDSP not found"),
        _ => panic!("expected an error"),
    }
}

#[test]
fn tables_by_signature() {
    let a = table(b"FACP", &[1, 2, 3]);
    let b = table(b"APIC", &[0; 8]);
    let tables: Vec<&[u8]> = vec![&a, &b];
    assert_eq!(get_table(&tables, &Signature(*b"APIC")), Some(1));
    assert_eq!(get_table(&tables, &Signature(*b"SPCR")), None);
    let h = SdtHeader::read(&b);
    assert!(h.signature.matches(&Signature(*b"APIC")));
    assert_eq!(h.signature.as_str(), "APIC");
    assert_eq!(h.length, 44);
    assert_eq!(h.revision, 3);
}

#[test]
fn madt_entries() {
    let mut body = vec![0u8; 8];
    // GICD entry
    let mut gicd = vec![0xCu8, 24, 0, 0];
    gicd.extend_from_slice(&7u32.to_le_bytes());
    gicd.extend_from_slice(&0x0800_0000u64.to_le_bytes());
    gicd.extend_from_slice(&[0, 0, 0, 0, 2, 0, 0, 0]);
    body.extend_from_slice(&gicd);
    // MSI frame entry
    let mut msi = vec![0xDu8, 24, 0, 0];
    msi.extend_from_slice(&1u32.to_le_bytes());
    msi.extend_from_slice(&0x0802_0000u64.to_le_bytes());
    msi.extend_from_slice(&0u32.to_le_bytes());
    msi.extend_from_slice(&64u16.to_le_bytes());
    msi.extend_from_slice(&80u16.to_le_bytes());
    body.extend_from_slice(&msi);
    let t = table(b"APIC", &body);
    let m = Madt::read(&t);
    let mut it = m.iter(&t);
    let h1 = it.next().unwrap();
    assert!(h1.struct_type == MadtEntryType::GICD);
    assert_eq!(h1.offset, 44);
    let d = GICD::from_header(&t, &h1).unwrap();
    assert_eq!((d.gic_id, d.base_address, d.version), (7, 0x0800_0000, 2));
    assert!(GicMsiFrame::from_header(&t, &h1).is_none());
    let h2 = it.next().unwrap();
    let f = GicMsiFrame::from_header(&t, &h2).unwrap();
    assert_eq!((f.base_address, f.spi_count, f.spi_base), (0x0802_0000, 64, 80));
    assert!(it.next().is_none());
}

#[test]
fn spcr_serial_type() {
    let mut body = vec![0u8; 44];
    body[0] = 3;
    let mut t = table(b"SPCR", &body);
    t[8] = 2;
    let s = Spcr::read(&t);
    assert!(s.get_serial_type() == SerialType::Pl011UART);
    t[8] = 1;
    let s1 = Spcr::read(&t);
    assert!(s1.get_serial_type() == SerialType::Unknown);
}

#[test]
fn pci_bars_decode() {
    // 32 bits memory BAR of 4 KB, prefetchable
    assert_eq!(
        decode_bar(0xFE00_0008, 0xFFFF_F008, 0),
        Some(PciBar { bar_type: PciBarType::Memory(PciBarMemoryLocatable::Any32, true), addr: 0xFE00_0000, size: 0x1000 })
    );
    // IO BAR of 256 bytes
    assert_eq!(
        decode_bar(0xC001, 0xFFFF_FF01, 0),
        Some(PciBar { bar_type: PciBarType::IO, addr: 0xC000, size: 0x100 })
    );
    assert_eq!(decode_bar(0, 0, 0), None);
    // 64 bits BAR takes the next register as its upper half
    let bars = get_bars([0x0000_0004, 0x1, 0, 0, 0, 0], [0xFFFF_C004, 0xFFFF_FFFF, 0, 0, 0, 0]);
    assert_eq!(
        bars[0],
        Some(PciBar { bar_type: PciBarType::Memory(PciBarMemoryLocatable::Any64, false), addr: 0x1_0000_0000, size: 0x4000 })
    );
    assert_eq!(bars[1], None);
    assert_eq!(bars[2], None);
}

#[test]
fn pci_scan_decisions() {
    assert!(!is_present(0xFFFF));
    assert!(is_present(0x1AF4));
    assert_eq!(functions_to_scan(0xFFFF, 0), 0);
    assert_eq!(functions_to_scan(0x1AF4, 0x00), 1);
    assert_eq!(functions_to_scan(0x1AF4, 0x80), 8);
    assert_eq!(driver_for(1, 8, 2), Some(("nvme", "/initrd/nvme.kmod")));
    assert_eq!(driver_for(2, 0, 0), None);
}

#[test]
fn pci_device_from_config() {
    let mut w = [0u32; 16];
    w[0] = 0x0010_1AF4; // device 0x10, vendor 0x1AF4
    w[1] = 0x0010_0007; // status: capabilities list, command 7
    w[2] = 0x0108_0201; // class 1, subclass 8, prog if 2, revision 1
    w[4] = 0xFE00_0000;
    w[13] = 0x40;
    let d = PciDevice::from_config(Location::new(0, 3, 0), &w, [0xFFFF_F000, 0, 0, 0, 0, 0]);
    assert_eq!((d.vendor_id, d.device_id, d.class, d.subclass, d.prog_if, d.revision), (0x1AF4, 0x10, 1, 8, 2, 1));
    assert!(d.status.has_capabilities_list());
    match d.header_full {
        HeaderType::Common(h) => assert_eq!(h.capabilities_ptr, 0x40),
        _ => panic!("expected a common header"),
    }
    assert_eq!(d.bars().len(), 1);
    let mut caps = d.capabilities().unwrap();
    assert_eq!(caps.next(0x5011), Some(0x40));
    assert_eq!(caps.next(0), Some(0x50));
    assert_eq!(caps.next(0), None);
    assert_eq!(Capability::from_id(0x11, 0x40), Capability::Msix(0x40));
    assert!(!Status(0).has_capabilities_list());
    assert!(PciBus::new(0, vec![d]).is_some());
    assert!(PciBus::new(0, Vec::new()).is_none());
    let _ = CapabilitiesIter::new(0);
}

#[test]
fn rsdp_read_from_memory() {
    let b = rsdp(2, 0x1234, 0xABCD_0000);
    assert_eq!(Rsdp::read(&b).ok().unwrap().root_table(), (0xABCD_0000, 8));
    // a revision 2 structure needs its 36 bytes
    match Rsdp::read(&b[..30]) {
        Err(Error::CustomStr(s)) => assert_eq!(s, "RSDP outside memory"),
        _ => panic!("expected an error"),
    }
    let v1 = rsdp(0, 0x1234, 0);
    assert_eq!(Rsdp::read(&v1).ok().unwrap().root_table(), (0x1234, 4));
}

#[test]
fn root_table_checks() {
    let mut root = table(b"XSDT", &[0u8; 16]);
    assert!(check_root_table(&root, 8).is_ok());
    assert!(check_root_table(&root, 4).is_ok());
    match check_root_table(&root[..20], 8) {
        Err(Error::CustomStr(s)) => assert_eq!(s, "root table outside memory"),
        _ => panic!("expected an error"),
    }
    root[4] = 40; // 4 bytes of entries: not a whole 8 bytes entry
    match check_root_table(&root, 8) {
        Err(Error::CustomStr(s)) => assert_eq!(s, "invalid root table"),
        _ => panic!("expected an error"),
    }
    assert_eq!(table_length(&root), Some(40));
    assert_eq!(table_length(&root[..10]), None);
}

#[test]
fn pci_device_checked_from_config() {
    let mut w = [0u32; 16];
    w[0] = 0x0010_1AF4;
    assert!(PciDevice::probes_bars(&w));
    w[9] = 0xFE00_0004; // a 64 bits memory BAR in the last slot
    assert!(PciDevice::checked_from_config(Location::new(0, 3, 0), &w, [0; 6]).is_none());
    w[9] = 0;
    assert!(PciDevice::checked_from_config(Location::new(0, 3, 0), &w, [0; 6]).is_some());
    w[3] = 0x0001_0000; // header type 1: no BARs
    assert!(!PciDevice::probes_bars(&w));
}
