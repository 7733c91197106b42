use kernel::devices::serial::pl011_uart::Pl011;
use kernel::devices::{register_device, register_device_handler, DeviceHandlers};
use kernel::bus::pcie::{Location, PciDevice};
use kernel::disks::{read_commands, Disk, DiskInfo, DiskKind, RamDisk, ReadCommand, WriteCommand};
use kernel::error::ModuleLoadError;
use kernel::fs::drivers::{get_driver_for_type, mount_device, register_driver};
use kernel::fs::block::{BlockDevInfos, BlockDevice, BlockIndex, RamBlockDev};
use kernel::fs::initrd::FileSystem;
use kernel::fs::mount::{get_mountpoint, is_mounted, mount, mount_node, MountTable};
use kernel::fs::open::{get_node, open};
use kernel::fs::path::Path;
use kernel::fs::vfs::{DirNode, FileNode, FileOrDir, WriteError};
use kernel::logger::{KernelLogger, Level};
use kernel::memory::address::VirtualAddress;
use kernel::modules::loader::{encode_immediate, load, load_file, Loader};
use kernel::symbols::{init as symbols_init, SymbolTable};
use kernel::utils::{checksum_ok, read_le_u16, read_le_u32, read_le_u64};

fn tar(files: &[(&str, &[u8])]) -> Vec<u8> {
    let mut out = Vec::new();
    for (name, data) in files {
        let mut h = vec![0u8; 512];
        h[..name.len()].copy_from_slice(name.as_bytes());
        let size = format!("{:011o}", data.len());
        h[124..124 + 11].copy_from_slice(size.as_bytes());
        out.extend_from_slice(&h);
        out.extend_from_slice(data);
        while out.len() % 512 != 0 {
            out.push(0);
        }
    }
    out.extend_from_slice(&[0u8; 1024]);
    out
}

#[test]
fn path_components_and_name() {
    let p = Path::new("/initrd/nvme.kmod");
    assert!(p.is_absolute());
    assert_eq!(p.components(), vec!["", "initrd", "nvme.kmod"]);
    assert_eq!(p.file_name(), Some("nvme.kmod"));
    assert_eq!(Path::new("dir/").file_name(), None);
    assert!(!Path::new("a/b").is_absolute());
    assert_eq!(Path::new("a/b").as_str(), "a/b");
}

#[test]
fn initrd_files_read() {
    let data = tar(&[("hello.txt", b"hello world"), ("empty", b"")]);
    let fs = FileSystem::new(&data);
    let root = fs.root();
    assert_eq!(root.list(), vec!["hello.txt", "empty"]);
    let f = root.find("hello.txt").unwrap().as_file().unwrap();
    assert_eq!(f.name(), "hello.txt");
    assert_eq!(f.size(), 11);
    assert_eq!(f.infos().size, 11);
    assert_eq!(f.read(6, 100).ok().unwrap(), b"world".to_vec());
    assert_eq!(f.read(20, 3).ok().unwrap(), Vec::<u8>::new());
    assert_eq!(f.read_to_end_vec(0).ok().unwrap(), b"hello world".to_vec());
    assert_eq!(f.write(0, b"x").err(), Some(WriteError::ReadOnly));
    assert!(root.find("missing").is_none());
}

#[test]
fn mount_then_open() {
    let data = tar(&[("nvme.kmod", b"\x7fELF")]);
    let fs = FileSystem::new(&data);
    let root = fs.root();
    let mut table = MountTable::new();
    mount(&mut table, "/initrd", FileOrDir::Dir(root));
    mount(&mut table, "/", FileOrDir::Dir(root));
    let mp = get_mountpoint(&table, "/initrd/nvme.kmod").unwrap();
    assert_eq!(mp.path, "/initrd");
    let node = open(&table, "/initrd/nvme.kmod").unwrap();
    let f = node.as_file().unwrap();
    assert_eq!(f.size(), 4);
    assert!(open(&table, "/initrd/other").is_none());
}

#[test]
fn disk_read_across_blocks() {
    let data: Vec<u8> = (0..64u32).map(|i| i as u8).collect();
    let d = DiskInfo { disk: RamDisk::new(data.clone(), 8) };
    assert!(d.disk.kind() == DiskKind::Ram);
    assert_eq!(d.disk.block_count(), 8);
    assert_eq!(d.size().ok(), Some(64));
    assert_eq!(d.read(3, 2).ok().unwrap(), vec![3, 4]);
    assert_eq!(d.read(5, 20).ok().unwrap(), data[5..25].to_vec());
    assert_eq!(d.read(8, 32).ok().unwrap(), data[8..40].to_vec());
    assert_eq!(d.read(1, 62).ok().unwrap(), data[1..63].to_vec());
    assert_eq!(d.read(3, 0).ok().unwrap(), Vec::<u8>::new());
    let mut cmds = vec![ReadCommand { block_off: 2, buff: vec![0; 8] }];
    assert!(d.disk.read(&mut cmds).is_ok());
    assert_eq!(cmds[0].buff, data[16..24].to_vec());
}

#[test]
fn block_infos_size() {
    let i = BlockDevInfos { block_size: 512, block_count: 10, name: String::from("nvme0") };
    assert_eq!(i.size(), 5120);
    assert_eq!(BlockIndex(3), BlockIndex(3));
}

#[test]
fn symbol_table_from_file() {
    let mut d = Vec::new();
    d.extend_from_slice(&0x1000u64.to_le_bytes());
    d.extend_from_slice(b"kmalloc\0");
    d.extend_from_slice(&0x2000u64.to_le_bytes());
    d.extend_from_slice(b"kfree\0");
    d.extend_from_slice(&0x3000u64.to_le_bytes());
    d.extend_from_slice(b"kmalloc\0");
    let t = symbols_init(&d);
    assert_eq!(t.get(b"kfree"), Some(0x2000));
    assert_eq!(t.get(b"kmalloc"), Some(0x3000));
    assert_eq!(t.get(b"printk"), None);
    let mut s = SymbolTable::new();
    s.insert(b"a".to_vec(), 1);
    s.insert(b"a".to_vec(), 2);
    assert_eq!(s.get(b"a"), Some(2));
}

#[test]
fn loader_refuses_non_elf() {
    let kernel = SymbolTable::new();
    let junk = vec![0u8; 64];
    assert!(matches!(Loader::new(&junk), Err(ModuleLoadError::ElfParsingError)));
    assert!(matches!(load(&junk, 0x1000, &kernel), Err(ModuleLoadError::ElfParsingError)));
}

#[test]
fn immediate_encoding() {
    let mut ins = 0x9400_0000u32;
    assert!(encode_immediate(&mut ins, 26, 2, 0x100, true).is_ok());
    // the immediate is shifted by 2 and the 26 bits mask too
    assert_eq!(ins, 0x9000_0400);
    let mut ins2 = 0u32;
    assert!(encode_immediate(&mut ins2, 12, 0, 0x1000, true).is_err());
}

#[test]
fn logger_filters_and_prefixes() {
    let l = KernelLogger::new(Level::Debug);
    assert!(l.enabled(Level::Info, "kernel"));
    assert!(!l.enabled(Level::Trace, "kernel"));
    let t = KernelLogger::new(Level::Trace);
    assert!(t.enabled(Level::Trace, "nvme"));
    assert!(!t.enabled(Level::Trace, "pmm"));
    assert!(t.enabled(Level::Debug, "pmm"));
    assert_eq!(KernelLogger::prefix(Level::Info, "kernel", None, None), "\x1B[97m");
    assert_eq!(KernelLogger::prefix(Level::Warn, "pmm", None, None), "\x1B[93m[WARN] pmm: ");
    assert_eq!(KernelLogger::prefix(Level::Error, "kernel::memory", None, None), "\x1B[91m[ERROR] ");
    assert_eq!(
        KernelLogger::prefix(Level::Info, "x", Some("modules/nvme/src/lib.rs"), Some("nvme::queue")),
        "\x1B[97mnvme: "
    );
    assert_eq!(KernelLogger::prefix(Level::Debug, "x", Some("modules/a.rs"), None), "\x1B[37m[DEBUG] ");
}

fn dummy_device() -> PciDevice {
    let w = [0x0010_1AF4u32, 0, 0x0108_0200, 0, 0, 0, 0, 0, 0, 0, 0, 0, 0, 0, 0, 0];
    PciDevice::from_config(Location::new(0, 1, 0), &w, [0; 6])
}

#[test]
fn device_handlers_register_once() {
    let mut h = DeviceHandlers::new();
    assert!(register_device_handler(&mut h, "nvme", 7).is_ok());
    assert!(register_device_handler(&mut h, "nvme", 8).is_err());
    let d = dummy_device();
    assert_eq!(register_device(&h, "nvme", &d), Some(7));
    assert_eq!(register_device(&h, "ahci", &d), None);
}

#[test]
fn uart_bytes() {
    let mut u = Pl011::new(VirtualAddress::new(0xFFFF_0000_0900_0000));
    assert_eq!(u.data_register(), 0xFFFF_0000_0900_0000);
    assert_eq!(u.write_str("a\nb"), b"a\n\rb".to_vec());
    assert_eq!(u.write_char('é'), vec![0xC3, 0xA9]);
}

#[test]
fn little_endian_reads_and_checksum() {
    let d = [0x01u8, 0x02, 0x03, 0x04, 0x05, 0x06, 0x07, 0x08];
    assert_eq!(read_le_u16(&d, 0), 0x0201);
    assert_eq!(read_le_u32(&d, 4), 0x0807_0605);
    assert_eq!(read_le_u64(&d, 0), 0x0807_0605_0403_0201);
    assert!(checksum_ok(&[0x10, 0xF0], 2));
    assert!(!checksum_ok(&[0x10, 0xF1], 2));
}

#[test]
fn ram_disk_refuses_writes() {
    let d = RamDisk::new(vec![0u8; 16], 8);
    let cmds = vec![WriteCommand { block_off: 0, buff: vec![1; 8] }];
    assert!(matches!(d.write(&cmds), Err(kernel::error::Error::IoError)));
}

#[test]
fn disk_read_commands_layout() {
    let layout = |v: Vec<ReadCommand>| v.iter().map(|c| (c.block_off, c.buff.len())).collect::<Vec<_>>();
    assert_eq!(layout(read_commands(100, 2000, 512)), vec![(1, 1536), (0, 512), (4, 512)]);
    assert_eq!(layout(read_commands(0, 512, 512)), vec![(0, 512)]);
    assert_eq!(layout(read_commands(1024, 1024, 512)), vec![(2, 1024)]);
    assert_eq!(layout(read_commands(1024, 1536, 512)), vec![(2, 1536)]);
    assert!(read_commands(100, 2000, 512).iter().all(|c| c.buff.iter().all(|b| *b == 0)));
}

#[test]
fn load_file_by_path() {
    let data = tar(&[("nvme.kmod", b"\x7fELF")]);
    let fs = FileSystem::new(&data);
    let root = fs.root();
    let mut table = MountTable::new();
    mount(&mut table, "/initrd", FileOrDir::Dir(root));
    let kernel = SymbolTable::new();
    assert!(matches!(load_file(&table, "/initrd/missing.kmod", 0x1000, &kernel), Err(ModuleLoadError::NotFound)));
    // a truncated ELF file
    assert!(matches!(load_file(&table, "/initrd/nvme.kmod", 0x1000, &kernel), Err(ModuleLoadError::ElfParsingError)));
}

#[test]
fn block_cache_reads_and_writes() {
    let data: Vec<u8> = (0..64u32).map(|i| i as u8).collect();
    let mut d = BlockDevice::new(RamBlockDev::new(data.clone(), 16, String::from("ram0")));
    assert_eq!(d.size(), 64);
    assert_eq!(d.get_block(BlockIndex(1)).ok().unwrap(), data[16..32].to_vec());
    assert_eq!(d.read(10, 20).ok().unwrap(), data[10..30].to_vec());
    assert!(d.write_block(BlockIndex(2), &[7u8; 16]).is_ok());
    assert_eq!(d.read(30, 4).ok().unwrap(), vec![30, 31, 7, 7]);
    assert!(d.write_in_block(BlockIndex(0), 2, &[9, 9]).is_ok());
    assert_eq!(d.read(0, 5).ok().unwrap(), vec![0, 1, 9, 9, 4]);
    assert_eq!(d.read(60, 0).ok().unwrap(), Vec::<u8>::new());
}

#[test]
fn mount_node_refuses_a_second_mount() {
    let data = tar(&[("a.txt", b"abc")]);
    let fs = FileSystem::new(&data);
    let root = fs.root();
    let mut table = MountTable::new();
    assert!(mount_node(&mut table, "/initrd", FileOrDir::Dir(root)).is_ok());
    assert!(is_mounted(&table, "/initrd"));
    assert!(!is_mounted(&table, "/dev"));
    match mount_node(&mut table, "/initrd", FileOrDir::Dir(root)) {
        Err(kernel::error::Error::Fs(kernel::error::FsError::CustomStr(s))) => assert_eq!(s, "Already mounted"),
        _ => panic!("expected an error"),
    }
    assert_eq!(get_node(&table, "/initrd/a.txt").ok().unwrap().as_file().unwrap().size(), 3);
    assert!(matches!(
        get_node(&table, "/initrd/b.txt"),
        Err(kernel::error::Error::Fs(kernel::error::FsError::NotFound))
    ));
}

struct FixedRoot(usize);

impl kernel::fs::drivers::FsDriver<usize> for FixedRoot {
    fn get_root_node(&self, device: usize) -> Result<usize, kernel::error::Error> {
        if device == 0 {
            Err(kernel::error::Error::IoError)
        } else {
            Ok(self.0 + device)
        }
    }
}

#[test]
fn fs_drivers_and_mount_device() {
    let mut drivers = DeviceHandlers::new();
    register_driver(&mut drivers, "tarfs", 0);
    assert_eq!(get_driver_for_type(&drivers, "tarfs"), Some(0));
    assert_eq!(get_driver_for_type(&drivers, "ext2"), None);
    register_driver(&mut drivers, "tarfs", 1);
    assert_eq!(get_driver_for_type(&drivers, "tarfs"), Some(1));
    let impls = vec![FixedRoot(100), FixedRoot(200)];
    let mut table: MountTable<usize> = MountTable::new();
    assert!(mount_device(&mut table, &drivers, &impls, "/mnt", 5, "tarfs").is_ok());
    assert_eq!(get_mountpoint(&table, "/mnt/x").unwrap().node, 205);
    match mount_device(&mut table, &drivers, &impls, "/disk", 1, "ext2") {
        Err(kernel::error::Error::Fs(kernel::error::FsError::Custom(s))) => assert_eq!(s, "Unknown filesystem type: ext2"),
        _ => panic!("expected an unknown type"),
    }
    assert!(matches!(mount_device(&mut table, &drivers, &impls, "/disk", 0, "tarfs"), Err(kernel::error::Error::IoError)));
    assert!(!is_mounted(&table, "/disk"));
}
