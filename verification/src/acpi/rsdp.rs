use vstd::prelude::*;

use super::sdt::SDT_HEADER_SIZE;
use crate::error::Error;
use crate::utils::{byte_sum, checksum_ok, le_u32, le_u64, read_le_u32, read_le_u64};

verus! {

/// "RSD PTR "
pub const RSDP_SIGNATURE: [u8; 8] = [0x52, 0x53, 0x44, 0x20, 0x50, 0x54, 0x52, 0x20];

/// The size of the first revision of the structure, which its checksum covers.
pub const RSDP_V1_SIZE: usize = 20;

/// The size of the structure from revision 2.
pub const RSDP_SIZE: usize = 36;

/// The Root System Description Pointer.
#[derive(Clone, Copy, Debug)]
pub struct Rsdp {
    signature: [u8; 8],
    checksum: u8,
    oemid: [u8; 6],
    revision: u8,
    rsdt_ptr: u32,
    // if revision >= 2
    length: u32,
    xsdt_ptr: u64,
    checksum2: u8,
}

/// The number of bytes the checksum of the structure in `b` covers.
pub open spec fn rsdp_length(b: Seq<u8>) -> int {
    if b[15] > 1 {
        le_u32(b, 20) as int
    } else {
        RSDP_V1_SIZE as int
    }
}

impl Rsdp {
    pub closed spec fn revision_spec(&self) -> u8 {
        self.revision
    }

    pub closed spec fn rsdt_spec(&self) -> u32 {
        self.rsdt_ptr
    }

    pub closed spec fn xsdt_spec(&self) -> u64 {
        self.xsdt_ptr
    }

    /// The structure in `bytes`, which hold as many bytes as it says it covers: an error if its
    /// signature is not "RSD PTR " or if its bytes do not add up to 0.
    pub fn from_bytes(bytes: &[u8]) -> (r: Result<Self, Error>)
        requires
            bytes@.len() >= RSDP_SIZE,
            bytes@.len() >= rsdp_length(bytes@),
        ensures
            bytes@.subrange(0, 8) != RSDP_SIGNATURE@ ==> r == Err::<Self, Error>(
                Error::CustomStr("Invalid RSDP signature"),
            ),
            bytes@.subrange(0, 8) == RSDP_SIGNATURE@ && byte_sum(bytes@.take(rsdp_length(bytes@))) % 256 != 0
                ==> r == Err::<Self, Error>(Error::CustomStr("Invalid RSDP checksum")),
            r is Ok <==> bytes@.subrange(0, 8) == RSDP_SIGNATURE@ && byte_sum(bytes@.take(rsdp_length(bytes@))) % 256
                == 0,
            r matches Ok(s) ==> s.revision_spec() == bytes@[15] && s.rsdt_spec() == le_u32(bytes@, 16)
                && s.xsdt_spec() == le_u64(bytes@, 24),
    {
        let mut i: usize = 0;
        while i < 8
            invariant
                i <= 8,
                bytes@.len() >= RSDP_SIZE,
                forall|j: int| 0 <= j < i ==> bytes@[j] == RSDP_SIGNATURE@[j],
            decreases 8 - i,
        {
            if bytes[i] != RSDP_SIGNATURE[i] {
                proof {
                    assert(bytes@.subrange(0, 8)[i as int] != RSDP_SIGNATURE@[i as int]);
                }
                return Err(Error::CustomStr("Invalid RSDP signature"));
            }
            i += 1;
        }
        proof {
            assert(bytes@.subrange(0, 8) =~= RSDP_SIGNATURE@);
        }
        let revision = bytes[15];
        let length = if revision > 1 {
            read_le_u32(bytes, 20) as usize
        } else {
            RSDP_V1_SIZE
        };
        if !checksum_ok(bytes, length) {
            return Err(Error::CustomStr("Invalid RSDP checksum"));
        }
        Ok(Rsdp {
            signature: RSDP_SIGNATURE,
            checksum: bytes[8],
            oemid: [bytes[9], bytes[10], bytes[11], bytes[12], bytes[13], bytes[14]],
            revision,
            rsdt_ptr: read_le_u32(bytes, 16),
            length: read_le_u32(bytes, 20),
            xsdt_ptr: read_le_u64(bytes, 24),
            checksum2: bytes[32],
        })
    }

    /// The structure at the start of `bytes`, the memory from its address on: an error if they
    /// do not hold as many bytes as it covers (its revision says how many), else as `from_bytes`.
    pub fn read(bytes: &[u8]) -> (r: Result<Self, Error>)
        ensures
            !(bytes@.len() >= RSDP_SIZE && bytes@.len() >= rsdp_length(bytes@)) ==> r == Err::<Self, Error>(
                Error::CustomStr("RSDP outside memory"),
            ),
            bytes@.len() >= RSDP_SIZE && bytes@.len() >= rsdp_length(bytes@) ==> {
                &&& bytes@.subrange(0, 8) != RSDP_SIGNATURE@ ==> r == Err::<Self, Error>(
                    Error::CustomStr("Invalid RSDP signature"),
                )
                &&& bytes@.subrange(0, 8) == RSDP_SIGNATURE@ && byte_sum(bytes@.take(rsdp_length(bytes@))) % 256
                    != 0 ==> r == Err::<Self, Error>(Error::CustomStr("Invalid RSDP checksum"))
                &&& r matches Ok(s) ==> s.revision_spec() == bytes@[15] && s.rsdt_spec() == le_u32(bytes@, 16)
                    && s.xsdt_spec() == le_u64(bytes@, 24)
                &&& r is Ok <==> bytes@.subrange(0, 8) == RSDP_SIGNATURE@ && byte_sum(
                    bytes@.take(rsdp_length(bytes@)),
                ) % 256 == 0
            },
    {
        if bytes.len() < RSDP_SIZE {
            return Err(Error::CustomStr("RSDP outside memory"));
        }
        let length = if bytes[15] > 1 {
            read_le_u32(bytes, 20) as usize
        } else {
            RSDP_V1_SIZE
        };
        if bytes.len() < length {
            return Err(Error::CustomStr("RSDP outside memory"));
        }
        Self::from_bytes(bytes)
    }

    pub fn revision(&self) -> (r: u8)
        ensures
            r == self.revision_spec(),
    {
        self.revision
    }

    /// The physical address of the root table and the size of its entries: the XSDT, with 8
    /// bytes entries, from revision 2, else the RSDT, with 4 bytes entries.
    pub fn root_table(&self) -> (r: (u64, usize))
        ensures
            r == if self.revision_spec() < 2 {
                (self.rsdt_spec() as u64, 4usize)
            } else {
                (self.xsdt_spec(), 8usize)
            },
    {
        if self.revision < 2 {
            (self.rsdt_ptr as u64, 4)
        } else {
            (self.xsdt_ptr, 8)
        }
    }

    /// An iterator over the tables listed in `root`, the bytes of the root table (see
    /// `root_table`). Its length must cover whole entries.
    pub fn iter<'a>(&self, root: &'a [u8]) -> (r: AcpiIterator<'a>)
        requires
            root_table_ok(root@, if self.revision_spec() < 2 { 4 } else { 8 }),
        ensures
            r.wf(),
            r.entries() == root_entries(root@, if self.revision_spec() < 2 { 4 } else { 8 }),
    {
        let (_, size) = self.root_table();
        AcpiIterator::new(root, size)
    }
}

/// The bytes of a root table whose entries are `size` bytes: its length is at least a header
/// and covers whole entries, and the bytes hold that length.
pub open spec fn root_table_ok(b: Seq<u8>, size: int) -> bool {
    &&& b.len() >= SDT_HEADER_SIZE
    &&& le_u32(b, 4) >= SDT_HEADER_SIZE
    &&& (le_u32(b, 4) - SDT_HEADER_SIZE) % size == 0
    &&& le_u32(b, 4) <= b.len()
}

/// Check the root table whose bytes, from its address on, are `root`, for entries of
/// `entry_size` bytes (see `root_table_ok`).
pub fn check_root_table(root: &[u8], entry_size: usize) -> (r: Result<(), Error>)
    requires
        entry_size > 0,
    ensures
        root@.len() < SDT_HEADER_SIZE ==> r == Err::<(), Error>(Error::CustomStr("root table outside memory")),
        root@.len() >= SDT_HEADER_SIZE ==> (r is Ok <==> root_table_ok(root@, entry_size as int)),
        root@.len() >= SDT_HEADER_SIZE && r is Err ==> r == Err::<(), Error>(
            Error::CustomStr("invalid root table"),
        ),
{
    if root.len() < SDT_HEADER_SIZE {
        return Err(Error::CustomStr("root table outside memory"));
    }
    let len = read_le_u32(root, 4) as usize;
    if len < SDT_HEADER_SIZE || (len - SDT_HEADER_SIZE) % entry_size != 0 || len > root.len() {
        return Err(Error::CustomStr("invalid root table"));
    }
    Ok(())
}

/// The entry `i` of a root table: the physical address of a table.
pub open spec fn root_entry(b: Seq<u8>, size: int, i: int) -> u64 {
    if size == 4 {
        le_u32(b, SDT_HEADER_SIZE + i * 4) as u64
    } else {
        le_u64(b, SDT_HEADER_SIZE + i * 8)
    }
}

/// The entries of a root table, in order.
pub open spec fn root_entries(b: Seq<u8>, size: int) -> Seq<u64> {
    Seq::new(((le_u32(b, 4) - SDT_HEADER_SIZE) / size) as nat, |i: int| root_entry(b, size, i))
}

/// Iterator over the physical addresses of the tables listed in a root table.
pub struct AcpiIterator<'a> {
    table: &'a [u8],
    entry_size: usize,
    len: usize,
    index: usize,
}

impl<'a> AcpiIterator<'a> {
    /// The entries not yet returned.
    pub closed spec fn entries(&self) -> Seq<u64> {
        Seq::new((self.len - self.index) as nat, |i: int| root_entry(self.table@, self.entry_size as int, self.index + i))
    }

    pub closed spec fn wf(&self) -> bool {
        &&& self.index <= self.len
        &&& self.entry_size == 4 || self.entry_size == 8
        &&& SDT_HEADER_SIZE + self.len * self.entry_size <= self.table@.len()
    }

    /// An iterator over the entries, `entry_size` bytes each, of the root table in `table`.
    pub fn new(table: &'a [u8], entry_size: usize) -> (r: Self)
        requires
            entry_size == 4 || entry_size == 8,
            root_table_ok(table@, entry_size as int),
        ensures
            r.wf(),
            r.entries() == root_entries(table@, entry_size as int),
    {
        let length = read_le_u32(table, 4) as usize;
        let len = (length - SDT_HEADER_SIZE) / entry_size;
        let r = AcpiIterator { table, entry_size, len, index: 0 };
        proof {
            assert(r.entries() =~= root_entries(table@, entry_size as int));
        }
        r
    }

    /// The next entry.
    pub fn next(&mut self) -> (r: Option<u64>)
        requires
            old(self).wf(),
        ensures
            final(self).wf(),
            old(self).entries().len() == 0 ==> r is None && final(self).entries().len() == 0,
            old(self).entries().len() > 0 ==> r == Some(old(self).entries()[0]) && final(self).entries()
                == old(self).entries().drop_first(),
    {
        if self.index >= self.len {
            return None;
        }
        proof {
            let (i, n, z) = (self.index as int, self.len as int, self.entry_size as int);
            assert((i + 1) * z <= n * z) by (nonlinear_arith)
                requires
                    i < n,
                    z > 0,
            ;
            assert(i * z + z == (i + 1) * z) by (nonlinear_arith);
            assert(self.table@.len() == self.table.len());
        }
        let off = SDT_HEADER_SIZE + self.index * self.entry_size;
        let value = if self.entry_size == 4 {
            read_le_u32(self.table, off) as u64
        } else {
            read_le_u64(self.table, off)
        };
        let ghost before = self.entries();
        self.index += 1;
        proof {
            assert(self.entries() =~= before.drop_first());
        }
        Some(value)
    }
}

} // verus!
