use kernel::device_tree::{DeviceTree, Header};
use kernel::devices::gic_v2::{GenericInterruptController, GicAddresses};
use kernel::scheduler::smp::{cpu_ids, start_cpus};

struct Fdt {
    structs: Vec<u8>,
    strings: Vec<u8>,
}

impl Fdt {
    fn new() -> Fdt {
        Fdt { structs: Vec::new(), strings: Vec::new() }
    }

    fn word(&mut self, v: u32) {
        self.structs.extend_from_slice(&v.to_be_bytes());
    }

    fn pad(&mut self) {
        while self.structs.len() % 4 != 0 {
            self.structs.push(0);
        }
    }

    fn begin(&mut self, name: &str) {
        self.word(1);
        self.structs.extend_from_slice(name.as_bytes());
        self.structs.push(0);
        self.pad();
    }

    fn end(&mut self) {
        self.word(2);
    }

    fn prop(&mut self, name: &str, value: &[u8]) {
        let off = self.strings.len() as u32;
        self.strings.extend_from_slice(name.as_bytes());
        self.strings.push(0);
        self.word(3);
        self.word(value.len() as u32);
        self.word(off);
        self.structs.extend_from_slice(value);
        self.pad();
    }

    fn prop_cells(&mut self, name: &str, cells: &[u32]) {
        let mut v = Vec::new();
        for c in cells {
            v.extend_from_slice(&c.to_be_bytes());
        }
        self.prop(name, &v);
    }

    fn finish(mut self, boot_cpu: u32) -> Vec<u8> {
        self.word(9);
        let off_struct = 40u32;
        let off_strings = off_struct + self.structs.len() as u32;
        let total = off_strings + self.strings.len() as u32;
        let mut out = Vec::new();
        for v in [
            0xd00dfeedu32,
            total,
            off_struct,
            off_strings,
            0,
            17,
            16,
            boot_cpu,
            self.strings.len() as u32,
            self.structs.len() as u32,
        ] {
            out.extend_from_slice(&v.to_be_bytes());
        }
        out.extend_from_slice(&self.structs);
        out.extend_from_slice(&self.strings);
        out
    }
}

fn sample_dtb(with_msi: bool) -> Vec<u8> {
    let mut f = Fdt::new();
    f.begin("");
    f.prop_cells("#address-cells", &[2]);
    f.prop_cells("#size-cells", &[2]);
    f.begin("intc@8000000");
    f.prop("interrupt-controller", &[]);
    f.prop_cells("reg", &[0, 0x0800_0000, 0, 0x1_0000, 0, 0x0801_0000, 0, 0x1_0000]);
    if with_msi {
        f.begin("v2m@8020000");
        f.prop_cells("reg", &[0, 0x0802_0000, 0, 0x1000]);
        f.end();
    }
    f.end();
    f.begin("cpus");
    f.prop_cells("#address-cells", &[1]);
    f.prop_cells("#size-cells", &[0]);
    for id in 0..3u32 {
        let name = format!("cpu@{}", id);
        f.begin(&name);
        f.prop_cells("reg", &[id]);
        f.prop("enable-method", b"psci\0");
        f.end();
    }
    f.end();
    f.end();
    f.finish(1)
}

#[test]
fn dtb_header_is_checked() {
    let dtb = sample_dtb(true);
    assert!(Header::is_valid(&dtb));
    let mut bad = dtb.clone();
    bad[0] = 0;
    assert!(!Header::is_valid(&bad));
    assert!(!Header::is_valid(&dtb[..20]));
}

#[test]
fn dtb_boot_cpu_id() {
    let dtb = sample_dtb(true);
    let tree = DeviceTree::init(&dtb).ok().unwrap();
    assert_eq!(tree.get_boot_cpu_id(), 1);
}

#[test]
fn dtb_nodes_and_properties() {
    let dtb = sample_dtb(true);
    let tree = DeviceTree::init(&dtb).ok().unwrap();
    assert!(tree.get_node("/intc").is_none());
    let intc = tree.get_node("/intc@8000000").unwrap();
    assert_eq!(intc.name(), "intc@8000000");
    assert_eq!(intc.address_cells(), 2);
    let weak = tree.get_node_weak("/intc").unwrap();
    assert_eq!(weak.name(), "intc@8000000");
    let reg = weak.get_property("reg").unwrap();
    let mut b = reg.buff();
    assert_eq!(b.consume_be_u64(), Some(0x0800_0000));
    assert!(weak.get_property("compatible").is_none());
    let cpu = tree.get_node("/cpus/cpu@2").unwrap();
    let mut r = cpu.get_property("reg").unwrap().buff();
    assert_eq!(r.consume_be_u32(), Some(2));
    let mut m = cpu.get_property("enable-method").unwrap().buff();
    assert_eq!(m.consume_str(), Some("psci"));
    assert!(tree.get_node("/cpus/cpu@7").is_none());
}

#[test]
fn gic_locate_with_msi_frame() {
    let dtb = sample_dtb(true);
    let tree = DeviceTree::init(&dtb).ok().unwrap();
    let intc = tree.get_node_weak("/intc").unwrap();
    let a = GenericInterruptController::locate(&intc).unwrap();
    assert_eq!(
        a,
        GicAddresses { distributor: 0x0800_0000, cpu_interface: 0x0801_0000, msi_frame: Some(0x0802_0000) }
    );
}

#[test]
fn gic_locate_without_msi_frame() {
    let dtb = sample_dtb(false);
    let tree = DeviceTree::init(&dtb).ok().unwrap();
    let intc = tree.get_node_weak("/intc").unwrap();
    let a = GenericInterruptController::locate(&intc).unwrap();
    assert_eq!(a.msi_frame, None);
    assert_eq!(a.cpu_interface, 0x0801_0000);
}

#[test]
fn gic_locate_refuses_other_nodes() {
    let dtb = sample_dtb(true);
    let tree = DeviceTree::init(&dtb).ok().unwrap();
    let cpus = tree.get_node("/cpus").unwrap();
    assert_eq!(GenericInterruptController::locate(&cpus), None);
}

#[test]
fn smp_cpu_ids_in_order() {
    let dtb = sample_dtb(true);
    let tree = DeviceTree::init(&dtb).ok().unwrap();
    let cpus = tree.get_node("/cpus").unwrap();
    assert_eq!(cpu_ids(&cpus), Some(vec![0, 1, 2]));
}

#[test]
fn smp_start_every_other_core() {
    let dtb = sample_dtb(true);
    let tree = DeviceTree::init(&dtb).ok().unwrap();
    let cpus = tree.get_node("/cpus").unwrap();
    assert_eq!(start_cpus(&cpus, 1), Some(vec![0, 2]));
}

#[test]
fn smp_cells_must_be_one_and_zero() {
    let dtb = sample_dtb(true);
    let tree = DeviceTree::init(&dtb).ok().unwrap();
    let intc = tree.get_node_weak("/intc").unwrap();
    assert_eq!(cpu_ids(&intc), None);
}
