use vstd::prelude::*;

use super::address::{PhysicalAddress, VirtualAddress};
use super::vmm::MapFlags;

verus! {

/// Mask of the output address bits (47:12) of a descriptor.
pub const ADDRESS_MASK: u64 = 0x0000_FFFF_FFFF_F000;

/// Lower attributes of a block or page descriptor (10 bits, descriptor bits 11:2):
/// attr_index (3 bits), non_secure, EL0_access, readonly, shareability (2 bits), access_flag,
/// non_global.
#[derive(Clone, Copy, Debug)]
pub struct LowerDescriptorAttributes(pub u16);

impl LowerDescriptorAttributes {
    pub fn new() -> (r: Self)
        ensures
            r.0 == 0,
    {
        Self(0)
    }

    pub fn with_attr_index(self, v: u8) -> (r: Self)
        requires
            v < 8,
        ensures
            r.0 == (self.0 & !0x7u16) | (v as u16),
    {
        Self((self.0 & !0x7u16) | (v as u16))
    }

    pub fn with_el0_access(self, v: bool) -> (r: Self)
        ensures
            r.0 == (self.0 & !0x10u16) | (if v {
                0x10u16
            } else {
                0u16
            }),
    {
        Self((self.0 & !0x10u16) | if v {
            0x10u16
        } else {
            0u16
        })
    }

    pub fn with_readonly(self, v: bool) -> (r: Self)
        ensures
            r.0 == (self.0 & !0x20u16) | (if v {
                0x20u16
            } else {
                0u16
            }),
    {
        Self((self.0 & !0x20u16) | if v {
            0x20u16
        } else {
            0u16
        })
    }

    pub fn with_shareability(self, v: u8) -> (r: Self)
        requires
            v < 4,
        ensures
            r.0 == (self.0 & !0xC0u16) | ((v as u16) << 6u16),
    {
        Self((self.0 & !0xC0u16) | ((v as u16) << 6u16))
    }

    pub fn with_access_flag(self, v: u8) -> (r: Self)
        requires
            v < 2,
        ensures
            r.0 == (self.0 & !0x100u16) | ((v as u16) << 8u16),
    {
        Self((self.0 & !0x100u16) | ((v as u16) << 8u16))
    }
}

/// Upper attributes of a block or page descriptor (12 bits, descriptor bits 63:52):
/// contiguous, PXN, UXN.
#[derive(Clone, Copy, Debug)]
pub struct UpperDescriptorAttributes(pub u16);

impl UpperDescriptorAttributes {
    pub fn new() -> (r: Self)
        ensures
            r.0 == 0,
    {
        Self(0)
    }
}

/// The bits of a table descriptor pointing at the table at `addr`.
pub open spec fn table_descriptor_bits(addr: u64) -> u64 {
    3u64 | (addr & ADDRESS_MASK)
}

/// The bits of a block (`is_page` false) or page descriptor mapping `addr`.
pub open spec fn leaf_descriptor_bits(addr: u64, lower: u16, upper: u16, is_page: bool) -> u64 {
    1u64 | (if is_page {
        2u64
    } else {
        0u64
    }) | (((lower & 0x3FFu16) as u64) << 2u64) | (addr & ADDRESS_MASK) | (((upper & 0xFFFu16)
        as u64) << 52u64)
}

/// An entry of a translation table.
#[derive(Clone, Copy, Debug)]
pub struct TableEntry {
    pub bits: u64,
}

impl TableEntry {
    pub open spec fn spec_present(self) -> bool {
        self.bits & 1 != 0
    }

    pub open spec fn spec_addr(self) -> u64 {
        self.bits & ADDRESS_MASK
    }

    pub open spec fn spec_block(self) -> bool {
        self.bits & 2 == 0
    }

    /// An empty (not present) entry.
    pub fn empty() -> (r: Self)
        ensures
            r.bits == 0,
    {
        TableEntry { bits: 0 }
    }

    pub fn create_table_descriptor(address: PhysicalAddress) -> (r: Self)
        ensures
            r.bits == table_descriptor_bits(address@),
    {
        TableEntry { bits: 3u64 | (address.addr() & ADDRESS_MASK) }
    }

    pub fn create_page_descriptor(
        address: PhysicalAddress,
        l_attrib: LowerDescriptorAttributes,
        u_attrib: UpperDescriptorAttributes,
    ) -> (r: Self)
        ensures
            r.bits == leaf_descriptor_bits(address@, l_attrib.0, u_attrib.0, true),
    {
        TableEntry {
            bits: 1u64 | 2u64 | (((l_attrib.0 & 0x3FFu16) as u64) << 2u64) | (address.addr()
                & ADDRESS_MASK) | (((u_attrib.0 & 0xFFFu16) as u64) << 52u64),
        }
    }

    pub fn create_block_descriptor(
        address: PhysicalAddress,
        l_attrib: LowerDescriptorAttributes,
        u_attrib: UpperDescriptorAttributes,
    ) -> (r: Self)
        ensures
            r.bits == leaf_descriptor_bits(address@, l_attrib.0, u_attrib.0, false),
    {
        TableEntry {
            bits: 1u64 | 0u64 | (((l_attrib.0 & 0x3FFu16) as u64) << 2u64) | (address.addr()
                & ADDRESS_MASK) | (((u_attrib.0 & 0xFFFu16) as u64) << 52u64),
        }
    }

    pub fn is_present(&self) -> (r: bool)
        ensures
            r == self.spec_present(),
    {
        self.bits & 1 != 0
    }

    pub fn addr(&self) -> (r: PhysicalAddress)
        ensures
            r@ == self.spec_addr(),
    {
        PhysicalAddress::new(self.bits & ADDRESS_MASK)
    }

    pub fn is_block(&self) -> (r: bool)
        ensures
            r == self.spec_block(),
    {
        self.bits & 2 == 0
    }

    /// The lower attributes of a block or page descriptor.
    pub fn lower_attributes(&self) -> (r: LowerDescriptorAttributes)
        ensures
            r.0 == ((self.bits >> 2u64) & 0x3FF) as u16,
    {
        LowerDescriptorAttributes(((self.bits >> 2u64) & 0x3FF) as u16)
    }

    /// The upper attributes of a block or page descriptor.
    pub fn upper_attributes(&self) -> (r: UpperDescriptorAttributes)
        ensures
            r.0 == ((self.bits >> 52u64) & 0xFFF) as u16,
    {
        UpperDescriptorAttributes(((self.bits >> 52u64) & 0xFFF) as u16)
    }

    pub fn set_present(&mut self, present: bool)
        ensures
            final(self).bits == (if present {
                old(self).bits | 1
            } else {
                old(self).bits & !1u64
            }),
    {
        if present {
            self.bits = self.bits | 1;
        } else {
            self.bits = self.bits & !1u64;
        }
    }

    /// Mark the entry as not present and return the address it pointed at.
    pub fn unmap(&mut self) -> (r: PhysicalAddress)
        requires
            old(self).spec_present(),
        ensures
            r@ == old(self).spec_addr(),
            !final(self).spec_present(),
            final(self).spec_addr() == old(self).spec_addr(),
            final(self).bits == old(self).bits & !1u64,
    {
        let addr = self.addr();
        let b = self.bits;
        self.set_present(false);
        proof {
            lemma_clear_present(b);
        }
        addr
    }
}

/// Clearing bit 0 of a descriptor makes it not present and keeps the address it holds.
pub proof fn lemma_clear_present(b: u64)
    ensures
        (b & !1u64) & 1 == 0,
        (b & !1u64) & 0x0000_FFFF_FFFF_F000u64 == b & 0x0000_FFFF_FFFF_F000u64,
{
    assert((b & !1u64) & 1 == 0 && (b & !1u64) & 0x0000_FFFF_FFFF_F000u64 == b & 0x0000_FFFF_FFFF_F000u64)
        by (bit_vector);
}

/// A descriptor reads back as present, with the address it was created with (its bits 47:12),
/// and as a block exactly when it was created as a block.
pub proof fn lemma_descriptor_roundtrip(addr: u64, lower: u16, upper: u16, is_page: bool)
    ensures
        ({
            let e = TableEntry { bits: leaf_descriptor_bits(addr, lower, upper, is_page) };
            &&& e.spec_present()
            &&& e.spec_addr() == addr & ADDRESS_MASK
            &&& e.spec_block() == !is_page
        }),
        ({
            let t = TableEntry { bits: table_descriptor_bits(addr) };
            &&& t.spec_present()
            &&& t.spec_addr() == addr & ADDRESS_MASK
            &&& !t.spec_block()
        }),
{
    let p: u64 = if is_page {
        2u64
    } else {
        0u64
    };
    assert({
        let b = 1u64 | p | (((lower & 0x3FFu16) as u64) << 2u64) | (addr & 0x0000_FFFF_FFFF_F000u64)
            | (((upper & 0xFFFu16) as u64) << 52u64);
        &&& b & 1 != 0
        &&& b & 0x0000_FFFF_FFFF_F000u64 == addr & 0x0000_FFFF_FFFF_F000u64
        &&& (b & 2 == 0) == (p == 0)
        &&& (3u64 | (addr & 0x0000_FFFF_FFFF_F000u64)) & 1 != 0
        &&& (3u64 | (addr & 0x0000_FFFF_FFFF_F000u64)) & 0x0000_FFFF_FFFF_F000u64 == addr & 0x0000_FFFF_FFFF_F000u64
        &&& (3u64 | (addr & 0x0000_FFFF_FFFF_F000u64)) & 2 != 0
    }) by (bit_vector)
        requires
            p == 0 || p == 2,
    ;
}

/// A level of the translation tables.
#[derive(PartialEq, Eq, Structural, Clone, Copy, Debug)]
pub enum PageLevel {
    L0,
    L1,
    L2,
    L3,
}

impl PageLevel {
    pub open spec fn index(self) -> int {
        match self {
            PageLevel::L0 => 0,
            PageLevel::L1 => 1,
            PageLevel::L2 => 2,
            PageLevel::L3 => 3,
        }
    }

    /// The level number `l` (0 to 3).
    pub fn from(l: usize) -> (r: Self)
        requires
            l <= 3,
        ensures
            r.index() == l,
    {
        match l {
            0 => PageLevel::L0,
            1 => PageLevel::L1,
            2 => PageLevel::L2,
            _ => PageLevel::L3,
        }
    }
}

/// The shift of the address bits that index a table of `level`.
pub open spec fn level_shift(level: PageLevel) -> u64 {
    (39 - 9 * level.index()) as u64
}

/// The index in the table of `level` of the entry that translates `addr`.
pub fn get_page_level_index(addr: VirtualAddress, level: PageLevel) -> (r: usize)
    ensures
        r == (addr@ >> level_shift(level)) & 0x1FF,
        r < 512,
{
    let a = addr.addr();
    let v = match level {
        PageLevel::L0 => (a >> 39u64) & 0x1FF,
        PageLevel::L1 => (a >> 30u64) & 0x1FF,
        PageLevel::L2 => (a >> 21u64) & 0x1FF,
        PageLevel::L3 => (a >> 12u64) & 0x1FF,
    };
    assert(v & 0x1FF == v && v < 512) by (bit_vector)
        requires
            v == (a >> 39u64) & 0x1FF || v == (a >> 30u64) & 0x1FF || v == (a >> 21u64) & 0x1FF
                || v == (a >> 12u64) & 0x1FF,
    ;
    v as usize
}

/// The lower attributes of a 4 KB or 2 MB mapping: attribute index 1, inner shareable,
/// accessed.
pub fn default_lower_attributes() -> (r: LowerDescriptorAttributes)
    ensures
        r.0 == 0x1C1,
{
    let r = LowerDescriptorAttributes::new().with_attr_index(1).with_shareability(0b11).with_access_flag(
        1,
    );
    assert(((((0u16 & !0x7u16) | 1u16) & !0xC0u16) | (3u16 << 6u16)) & !0x100u16 | (1u16
        << 8u16) == 0x1C1u16) by (bit_vector);
    r
}

/// The lower attributes of a 1 GB mapping made with `flags`.
pub fn lower_attributes_from_flags(flags: MapFlags) -> (r: LowerDescriptorAttributes)
    ensures
        r.0 == ((flags.0 & 0x70) >> 4u8) as u16 | ((((flags.0 & 0x0C) >> 2u8) as u16) << 6u16)
            | (if flags.0 & 2 != 0 {
            0x10u16
        } else {
            0u16
        }) | (if flags.0 & 1 != 0 {
            0x20u16
        } else {
            0u16
        }) | 0x100u16,
{
    let ai = flags.attr_index();
    let sh = flags.shareability();
    let b = flags.0;
    assert(((b & 0x70) >> 4u8) < 8 && ((b & 0x0C) >> 2u8) < 4) by (bit_vector);
    let r = LowerDescriptorAttributes::new().with_attr_index(ai).with_shareability(sh).with_el0_access(
        flags.el0_access(),
    ).with_readonly(flags.read_only()).with_access_flag(1);
    let e: u16 = if flags.0 & 2 != 0 {
        0x10u16
    } else {
        0u16
    };
    let ro: u16 = if flags.0 & 1 != 0 {
        0x20u16
    } else {
        0u16
    };
    let aiu = ai as u16;
    let shu = sh as u16;
    assert(((((((((0u16 & !0x7u16) | aiu) & !0xC0u16) | (shu << 6u16)) & !0x10u16) | e)
        & !0x20u16) | ro) & !0x100u16 | (1u16 << 8u16) == aiu | (shu << 6u16) | e | ro | 0x100u16)
        by (bit_vector)
        requires
            aiu < 8,
            shu < 4,
            e == 0 || e == 0x10,
            ro == 0 || ro == 0x20,
    ;
    r
}

} // verus!
