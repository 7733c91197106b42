use vstd::prelude::*;

pub mod madt;
pub mod rsdp;
pub mod sdt;
pub mod spcr;

use self::rsdp::{root_table_ok, AcpiIterator, Rsdp};
use self::sdt::{Signature, SDT_HEADER_SIZE};
use crate::error::Error;
use crate::utils::{byte_sum, checksum_ok, le_u32, le_u64, read_le_u32, read_le_u64};

verus! {

#[derive(Clone, Copy, Debug, PartialEq, Eq, Structural)]
pub enum AddressSpaceId {
    SystemMemory,
    IO,
    PCI,
    EmbeddedController,
    SMBus,
    SystemCMOS,
    PciBarTarget,
    IPMI,
    GeneralPurposeIO,
    SerialBus,
    PCC,
    PRM,
    FunctionalFixedHardware,
}

impl AddressSpaceId {
    /// The address space encoded as `v`: 0 to 0xB in order, or 0x7F.
    pub fn from_u8(v: u8) -> (r: Option<Self>)
        ensures
            r is Some <==> v <= 0xB || v == 0x7F,
            v == 0 ==> r == Some(AddressSpaceId::SystemMemory),
            v == 1 ==> r == Some(AddressSpaceId::IO),
            v == 2 ==> r == Some(AddressSpaceId::PCI),
            v == 0x7F ==> r == Some(AddressSpaceId::FunctionalFixedHardware),
    {
        match v {
            0 => Some(AddressSpaceId::SystemMemory),
            1 => Some(AddressSpaceId::IO),
            2 => Some(AddressSpaceId::PCI),
            3 => Some(AddressSpaceId::EmbeddedController),
            4 => Some(AddressSpaceId::SMBus),
            5 => Some(AddressSpaceId::SystemCMOS),
            6 => Some(AddressSpaceId::PciBarTarget),
            7 => Some(AddressSpaceId::IPMI),
            8 => Some(AddressSpaceId::GeneralPurposeIO),
            9 => Some(AddressSpaceId::SerialBus),
            0xA => Some(AddressSpaceId::PCC),
            0xB => Some(AddressSpaceId::PRM),
            0x7F => Some(AddressSpaceId::FunctionalFixedHardware),
            _ => None,
        }
    }
}

#[derive(Clone, Copy, Debug, PartialEq, Eq, Structural)]
pub enum AccessSize {
    Undefined,
    Byte,
    Word,
    DWord,
    QWord,
}

impl AccessSize {
    /// The access size encoded as `v`, 0 to 4 in order.
    pub fn from_u8(v: u8) -> (r: Option<Self>)
        ensures
            r is Some <==> v <= 4,
            v == 0 ==> r == Some(AccessSize::Undefined),
            v == 1 ==> r == Some(AccessSize::Byte),
            v == 2 ==> r == Some(AccessSize::Word),
            v == 3 ==> r == Some(AccessSize::DWord),
            v == 4 ==> r == Some(AccessSize::QWord),
    {
        match v {
            0 => Some(AccessSize::Undefined),
            1 => Some(AccessSize::Byte),
            2 => Some(AccessSize::Word),
            3 => Some(AccessSize::DWord),
            4 => Some(AccessSize::QWord),
            _ => None,
        }
    }
}

/// A register address in an address space. The space and the access size are kept as they
/// are encoded (see `AddressSpaceId::from_u8` and `AccessSize::from_u8`).
#[derive(Clone, Copy, Debug, PartialEq, Eq, Structural)]
pub struct AcpiGenericAddress {
    pub address_space_id: u8,
    pub register_bit_width: u8,
    pub register_bit_offset: u8,
    pub access_size: u8,
    pub address: u64,
}

impl AcpiGenericAddress {
    /// The 12 bytes structure at `off` in `b`.
    pub fn read(b: &[u8], off: usize) -> (r: Self)
        requires
            off + 12 <= b@.len(),
        ensures
            r == (AcpiGenericAddress {
                address_space_id: b@[off as int],
                register_bit_width: b@[off + 1],
                register_bit_offset: b@[off + 2],
                access_size: b@[off + 3],
                address: le_u64(b@, off + 4),
            }),
    {
        AcpiGenericAddress {
            address_space_id: b[off],
            register_bit_width: b[off + 1],
            register_bit_offset: b[off + 2],
            access_size: b[off + 3],
            address: read_le_u64(b, off + 4),
        }
    }
}

/// What an entry of the firmware configuration table points to, by its GUID.
#[derive(Clone, Copy, Debug, PartialEq, Eq, Structural)]
pub enum ConfigTableKind {
    /// The ACPI 1.0 RSDP.
    Acpi,
    /// The ACPI 2.0 RSDP.
    Acpi2,
    Other,
}

/// The address given by the last entry of `tables` of kind `kind`.
pub open spec fn last_of_kind(tables: Seq<(ConfigTableKind, u64)>, kind: ConfigTableKind) -> Option<u64>
    decreases tables.len(),
{
    if tables.len() == 0 {
        None
    } else if tables.last().0 == kind {
        Some(tables.last().1)
    } else {
        last_of_kind(tables.drop_last(), kind)
    }
}

/// The physical address of the RSDP given by the firmware configuration table `tables`: the
/// ACPI 2.0 one if there is one, else the ACPI 1.0 one; an error if there is neither.
pub fn rsdp_address(tables: &Vec<(ConfigTableKind, u64)>) -> (r: Result<u64, Error>)
    ensures
        r == match last_of_kind(tables@, ConfigTableKind::Acpi2) {
            Some(a) => Ok::<u64, Error>(a),
            None => match last_of_kind(tables@, ConfigTableKind::Acpi) {
                Some(a) => Ok(a),
                None => Err(Error::CustomStr("ACPI load: RDSP not found")),
            },
        },
{
    let mut acpi: Option<u64> = None;
    let mut acpi2: Option<u64> = None;
    let mut i: usize = 0;
    while i < tables.len()
        invariant
            i <= tables@.len(),
            acpi == last_of_kind(tables@.take(i as int), ConfigTableKind::Acpi),
            acpi2 == last_of_kind(tables@.take(i as int), ConfigTableKind::Acpi2),
        decreases tables@.len() - i,
    {
        proof {
            assert(tables@.take(i + 1).drop_last() =~= tables@.take(i as int));
        }
        let (kind, addr) = tables[i];
        if kind == ConfigTableKind::Acpi {
            acpi = Some(addr);
        } else if kind == ConfigTableKind::Acpi2 {
            acpi2 = Some(addr);
        }
        i += 1;
    }
    proof {
        assert(tables@.take(i as int) =~= tables@);
    }
    if let Some(a) = acpi2 {
        Ok(a)
    } else if let Some(a) = acpi {
        Ok(a)
    } else {
        Err(Error::CustomStr("ACPI load: RDSP not found"))
    }
}

/// An iterator over the tables listed in the root table `root` of `rsdp`, if ACPI is set up.
pub fn iter_tables<'a>(rsdp: &Option<Rsdp>, root: &'a [u8]) -> (r: Option<AcpiIterator<'a>>)
    requires
        rsdp matches Some(p) ==> root_table_ok(root@, if p.revision_spec() < 2 { 4 } else { 8 }),
    ensures
        r is Some <==> rsdp is Some,
        r matches Some(it) ==> it.wf() && it.entries() == rsdp::root_entries(
            root@,
            if rsdp.unwrap().revision_spec() < 2 { 4 } else { 8 },
        ),
{
    match rsdp {
        Some(p) => Some(p.iter(root)),
        None => None,
    }
}

/// The length of the table whose bytes, from its address on, are `head`, when they hold its
/// header and the length covers at least that header.
pub fn table_length(head: &[u8]) -> (r: Option<usize>)
    ensures
        r == if head@.len() >= SDT_HEADER_SIZE && le_u32(head@, 4) >= SDT_HEADER_SIZE {
            Some(le_u32(head@, 4) as usize)
        } else {
            None::<usize>
        },
{
    if head.len() < SDT_HEADER_SIZE {
        return None;
    }
    let len = read_le_u32(head, 4) as usize;
    if len < SDT_HEADER_SIZE {
        None
    } else {
        Some(len)
    }
}

/// The table `b` holds a whole table: its header, and as many bytes as its length says.
pub open spec fn table_ok(b: Seq<u8>) -> bool {
    b.len() >= SDT_HEADER_SIZE && le_u32(b, 4) <= b.len()
}

/// The index of the first table of `tables` whose signature is `signature`.
pub open spec fn first_with_signature(tables: Seq<Seq<u8>>, signature: Seq<u8>) -> int
    decreases tables.len(),
{
    if tables.len() == 0 {
        0
    } else if tables[0].subrange(0, 4) == signature {
        0
    } else {
        1 + first_with_signature(tables.drop_first(), signature)
    }
}

/// The index of the first of `tables` whose signature is `signature`, if any. That table
/// must check: its bytes add up to 0.
pub fn get_table(tables: &Vec<&[u8]>, signature: &Signature) -> (r: Option<usize>)
    requires
        forall|i: int| 0 <= i < tables@.len() ==> table_ok((#[trigger] tables@[i])@),
        ({
            let v = tables@.map_values(|t: &[u8]| t@);
            let k = first_with_signature(v, signature@);
            k < v.len() ==> byte_sum(v[k].take(le_u32(v[k], 4) as int)) % 256 == 0
        }),
    ensures
        ({
            let v = tables@.map_values(|t: &[u8]| t@);
            let k = first_with_signature(v, signature@);
            &&& k < v.len() ==> r == Some(k as usize)
            &&& k >= v.len() ==> r is None
        }),
{
    let ghost v = tables@.map_values(|t: &[u8]| t@);
    let mut i: usize = 0;
    proof {
        assert(v.skip(0) =~= v);
    }
    while i < tables.len()
        invariant
            i <= tables@.len(),
            v == tables@.map_values(|t: &[u8]| t@),
            forall|j: int| 0 <= j < tables@.len() ==> table_ok((#[trigger] tables@[j])@),
            first_with_signature(v, signature@) == i + first_with_signature(v.skip(i as int), signature@),
        decreases tables@.len() - i,
    {
        let t: &[u8] = tables[i];
        let sig = Signature([t[0], t[1], t[2], t[3]]);
        proof {
            assert(v.skip(i as int)[0] == t@);
            assert(sig@ =~= t@.subrange(0, 4));
        }
        if sig.matches(signature) {
            proof {
                assert(first_with_signature(v.skip(i as int), signature@) == 0);
            }
            return Some(i);
        }
        proof {
            assert(v.skip(i as int).drop_first() =~= v.skip(i + 1));
        }
        i += 1;
    }
    None
}

} // verus!
