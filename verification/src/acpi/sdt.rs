use vstd::prelude::*;

use crate::utils::{le_u32, read_le_u32, str_from_utf8};
use vstd::string::StringSliceAdditionalSpecFns;
use vstd::utf8::valid_utf8;

verus! {

/// The four bytes that name a system description table.
#[derive(Clone, Copy, Debug)]
pub struct Signature(pub [u8; 4]);

impl Signature {
    pub const RSDT: [u8; 4] = [0x52, 0x53, 0x44, 0x54];
    pub const XSDT: [u8; 4] = [0x58, 0x53, 0x44, 0x54];
    pub const FADT: [u8; 4] = [0x46, 0x41, 0x43, 0x50];
    pub const HPET: [u8; 4] = [0x48, 0x50, 0x45, 0x54];
    pub const MADT: [u8; 4] = [0x41, 0x50, 0x49, 0x43];
    pub const MCFG: [u8; 4] = [0x4D, 0x43, 0x46, 0x47];
    pub const SSDT: [u8; 4] = [0x53, 0x53, 0x44, 0x54];
    pub const BERT: [u8; 4] = [0x42, 0x45, 0x52, 0x54];
    pub const BGRT: [u8; 4] = [0x42, 0x47, 0x52, 0x54];
    pub const CPEP: [u8; 4] = [0x43, 0x50, 0x45, 0x50];
    pub const DSDT: [u8; 4] = [0x44, 0x53, 0x44, 0x54];
    pub const ECDT: [u8; 4] = [0x45, 0x43, 0x44, 0x54];
    pub const EINJ: [u8; 4] = [0x45, 0x49, 0x4E, 0x4A];
    pub const ERST: [u8; 4] = [0x45, 0x52, 0x53, 0x54];
    pub const FACS: [u8; 4] = [0x46, 0x41, 0x43, 0x53];
    pub const FPDT: [u8; 4] = [0x46, 0x50, 0x44, 0x54];
    pub const GTDT: [u8; 4] = [0x47, 0x54, 0x44, 0x54];
    pub const HEST: [u8; 4] = [0x48, 0x45, 0x53, 0x54];
    pub const MSCT: [u8; 4] = [0x4D, 0x53, 0x43, 0x54];
    pub const MPST: [u8; 4] = [0x4D, 0x50, 0x53, 0x54];
    pub const NFIT: [u8; 4] = [0x4E, 0x46, 0x49, 0x54];
    pub const PCCT: [u8; 4] = [0x50, 0x43, 0x43, 0x54];
    pub const PHAT: [u8; 4] = [0x50, 0x48, 0x41, 0x54];
    pub const PMTT: [u8; 4] = [0x50, 0x4D, 0x54, 0x54];
    pub const PSDT: [u8; 4] = [0x50, 0x53, 0x44, 0x54];
    pub const RASF: [u8; 4] = [0x52, 0x41, 0x53, 0x46];
    pub const SBST: [u8; 4] = [0x53, 0x42, 0x53, 0x54];
    pub const SDEV: [u8; 4] = [0x53, 0x44, 0x45, 0x56];
    pub const SLIT: [u8; 4] = [0x53, 0x4C, 0x49, 0x54];
    pub const SRAT: [u8; 4] = [0x53, 0x52, 0x41, 0x54];
    pub const AEST: [u8; 4] = [0x41, 0x45, 0x53, 0x54];
    pub const BDAT: [u8; 4] = [0x42, 0x44, 0x41, 0x54];
    pub const CDIT: [u8; 4] = [0x43, 0x44, 0x49, 0x54];
    pub const CEDT: [u8; 4] = [0x43, 0x45, 0x44, 0x54];
    pub const CRAT: [u8; 4] = [0x43, 0x52, 0x41, 0x54];
    pub const CSRT: [u8; 4] = [0x43, 0x53, 0x52, 0x54];
    pub const DBGP: [u8; 4] = [0x44, 0x42, 0x47, 0x50];
    pub const DBG2: [u8; 4] = [0x44, 0x42, 0x47, 0x32];
    pub const DMAR: [u8; 4] = [0x44, 0x4D, 0x41, 0x52];
    pub const DRTM: [u8; 4] = [0x44, 0x52, 0x54, 0x4D];
    pub const ETDT: [u8; 4] = [0x45, 0x54, 0x44, 0x54];
    pub const IBFT: [u8; 4] = [0x49, 0x42, 0x46, 0x54];
    pub const IORT: [u8; 4] = [0x49, 0x4F, 0x52, 0x54];
    pub const IVRS: [u8; 4] = [0x49, 0x56, 0x52, 0x53];
    pub const LPIT: [u8; 4] = [0x4C, 0x50, 0x49, 0x54];
    pub const MCHI: [u8; 4] = [0x4D, 0x43, 0x48, 0x49];
    pub const MPAM: [u8; 4] = [0x4D, 0x50, 0x41, 0x4D];
    pub const MSDM: [u8; 4] = [0x4D, 0x53, 0x44, 0x4D];
    pub const PRMT: [u8; 4] = [0x50, 0x52, 0x4D, 0x54];
    pub const RGRT: [u8; 4] = [0x52, 0x47, 0x52, 0x54];
    pub const SDEI: [u8; 4] = [0x53, 0x44, 0x45, 0x49];
    pub const SLIC: [u8; 4] = [0x53, 0x4C, 0x49, 0x43];
    pub const SPCR: [u8; 4] = [0x53, 0x50, 0x43, 0x52];
    pub const SPMI: [u8; 4] = [0x53, 0x50, 0x4D, 0x49];
    pub const STAO: [u8; 4] = [0x53, 0x54, 0x41, 0x4F];
    pub const SVKL: [u8; 4] = [0x53, 0x56, 0x4B, 0x4C];
    pub const TCPA: [u8; 4] = [0x54, 0x43, 0x50, 0x41];
    pub const TPM2: [u8; 4] = [0x54, 0x50, 0x4D, 0x32];
    pub const UEFI: [u8; 4] = [0x55, 0x45, 0x46, 0x49];
    pub const WAET: [u8; 4] = [0x57, 0x41, 0x45, 0x54];
    pub const WDAT: [u8; 4] = [0x57, 0x44, 0x41, 0x54];
    pub const WDRT: [u8; 4] = [0x57, 0x44, 0x52, 0x54];
    pub const WPBT: [u8; 4] = [0x57, 0x50, 0x42, 0x54];
    pub const WSMT: [u8; 4] = [0x57, 0x53, 0x4D, 0x54];
    pub const XENV: [u8; 4] = [0x58, 0x45, 0x4E, 0x56];

    pub open spec fn view(self) -> Seq<u8> {
        self.0@
    }

    /// Whether `self` and `other` are the same signature.
    pub fn matches(&self, other: &Signature) -> (r: bool)
        ensures
            r == (self@ == other@),
    {
        let r = self.0[0] == other.0[0] && self.0[1] == other.0[1] && self.0[2] == other.0[2] && self.0[3]
            == other.0[3];
        proof {
            if r {
                assert(self@ =~= other@);
            }
        }
        r
    }

    /// The signature as text; its bytes must be valid UTF-8.
    pub fn as_str(&self) -> (r: &str)
        requires
            valid_utf8(self@),
        ensures
            r.spec_bytes() == self@,
    {
        str_from_utf8(self.0.as_slice()).unwrap()
    }
}

/// The header every system description table starts with.
#[derive(Clone, Copy, Debug)]
pub struct SdtHeader {
    pub signature: Signature,
    pub length: u32,
    pub revision: u8,
    pub checksum: u8,
    pub oem_id: [u8; 6],
    pub oem_table_id: [u8; 8],
    pub oem_revision: u32,
    pub creator_id: u32,
    pub creator_revision: u32,
}

/// The size of a table header in bytes.
pub const SDT_HEADER_SIZE: usize = 36;

impl SdtHeader {
    /// The header at the start of `bytes`, which hold at least `SDT_HEADER_SIZE` bytes.
    pub fn read(bytes: &[u8]) -> (r: Self)
        requires
            bytes@.len() >= SDT_HEADER_SIZE,
        ensures
            r.signature@ == bytes@.subrange(0, 4),
            r.length == le_u32(bytes@, 4),
            r.revision == bytes@[8],
            r.checksum == bytes@[9],
            r.oem_id@ == bytes@.subrange(10, 16),
            r.oem_table_id@ == bytes@.subrange(16, 24),
            r.oem_revision == le_u32(bytes@, 24),
            r.creator_id == le_u32(bytes@, 28),
            r.creator_revision == le_u32(bytes@, 32),
    {
        let signature = Signature([bytes[0], bytes[1], bytes[2], bytes[3]]);
        let oem_id = [bytes[10], bytes[11], bytes[12], bytes[13], bytes[14], bytes[15]];
        let oem_table_id = [bytes[16], bytes[17], bytes[18], bytes[19], bytes[20], bytes[21], bytes[22], bytes[23]];
        proof {
            assert(signature@ =~= bytes@.subrange(0, 4));
            assert(oem_id@ =~= bytes@.subrange(10, 16));
            assert(oem_table_id@ =~= bytes@.subrange(16, 24));
        }
        SdtHeader {
            signature,
            length: read_le_u32(bytes, 4),
            revision: bytes[8],
            checksum: bytes[9],
            oem_id,
            oem_table_id,
            oem_revision: read_le_u32(bytes, 24),
            creator_id: read_le_u32(bytes, 28),
            creator_revision: read_le_u32(bytes, 32),
        }
    }
}

} // verus!
