use vstd::prelude::*;
use vstd::string::*;
use vstd::utf8::*;

verus! {

/// `core::str::from_utf8`: the bytes as a `str` exactly when they are valid UTF-8.
#[verifier::external_body]
pub(crate) fn str_from_utf8<'a>(bytes: &'a [u8]) -> (r: Option<&'a str>)
    ensures
        r is Some <==> valid_utf8(bytes@),
        r matches Some(s) ==> s.spec_bytes() == bytes@,
{
    core::str::from_utf8(bytes).ok()
}

/// The index of the first NUL byte of `d` at or after `i` (`d.len()` when there is none).
pub open spec fn nul_from(d: Seq<u8>, i: int) -> int
    decreases d.len() - i,
{
    if i < 0 || i >= d.len() {
        d.len() as int
    } else if d[i] == 0 {
        i
    } else {
        nul_from(d, i + 1)
    }
}

pub proof fn lemma_nul_from(d: Seq<u8>, i: int)
    requires
        0 <= i,
    ensures
        nul_from(d, i) == d.len() || (i <= nul_from(d, i) < d.len() && d[nul_from(d, i)] == 0),
        forall|k: int| i <= k < nul_from(d, i) ==> d[k] != 0,
    decreases d.len() - i,
{
    if i < d.len() && d[i] != 0 {
        lemma_nul_from(d, i + 1);
    }
}

/// The index of the first NUL byte of `data` at or after `from` (`data.len()` when none).
pub fn find_nul(data: &[u8], from: usize) -> (r: usize)
    ensures
        r == nul_from(data@, from as int),
{
    let mut i = from;
    if i >= data.len() {
        return data.len();
    }
    while i < data.len()
        invariant
            from <= i <= data.len(),
            nul_from(data@, from as int) == nul_from(data@, i as int),
        decreases data.len() - i,
    {
        if data[i] == 0 {
            return i;
        }
        i += 1;
    }
    i
}

/// Whether the byte strings `a` and `b` are equal.
pub fn bytes_eq(a: &[u8], b: &[u8]) -> (r: bool)
    ensures
        r == (a@ == b@),
{
    if a.len() != b.len() {
        return false;
    }
    let mut i: usize = 0;
    while i < a.len()
        invariant
            a.len() == b.len(),
            0 <= i <= a.len(),
            forall|k: int| 0 <= k < i ==> a@[k] == b@[k],
        decreases a.len() - i,
    {
        if a[i] != b[i] {
            return false;
        }
        i += 1;
    }
    assert(a@ =~= b@);
    true
}

/// Whether `a` starts with `b`.
pub fn bytes_starts_with(a: &[u8], b: &[u8]) -> (r: bool)
    ensures
        r == (b.len() <= a.len() && a@.subrange(0, b.len() as int) == b@),
{
    if b.len() > a.len() {
        return false;
    }
    let mut i: usize = 0;
    while i < b.len()
        invariant
            b.len() <= a.len(),
            0 <= i <= b.len(),
            forall|k: int| 0 <= k < i ==> a@[k] == b@[k],
        decreases b.len() - i,
    {
        if a[i] != b[i] {
            assert(a@.subrange(0, b.len() as int)[i as int] != b@[i as int]);
            return false;
        }
        i += 1;
    }
    assert(a@.subrange(0, b.len() as int) =~= b@);
    true
}

/// The index of the first byte `b` of `d` at or after `i` (`d.len()` when there is none).
pub open spec fn byte_from(d: Seq<u8>, i: int, b: u8) -> int
    decreases d.len() - i,
{
    if i < 0 || i >= d.len() {
        d.len() as int
    } else if d[i] == b {
        i
    } else {
        byte_from(d, i + 1, b)
    }
}

pub proof fn lemma_byte_from(d: Seq<u8>, i: int, b: u8)
    requires
        0 <= i,
    ensures
        byte_from(d, i, b) == d.len() || (i <= byte_from(d, i, b) < d.len() && d[byte_from(
            d,
            i,
            b,
        )] == b),
        i <= d.len() ==> i <= byte_from(d, i, b),
        forall|k: int| i <= k < byte_from(d, i, b) ==> d[k] != b,
    decreases d.len() - i,
{
    if i < d.len() && d[i] != b {
        lemma_byte_from(d, i + 1, b);
    }
}

/// The index of the first byte `b` of `data` at or after `from` (`data.len()` when none).
pub fn find_byte(data: &[u8], from: usize, b: u8) -> (r: usize)
    ensures
        r == byte_from(data@, from as int, b),
{
    let mut i = from;
    if i >= data.len() {
        return data.len();
    }
    while i < data.len()
        invariant
            from <= i <= data.len(),
            byte_from(data@, from as int, b) == byte_from(data@, i as int, b),
        decreases data.len() - i,
    {
        if data[i] == b {
            return i;
        }
        i += 1;
    }
    i
}


/// The little endian 16 bits value at `i` in `d`.
pub open spec fn le_u16(d: Seq<u8>, i: int) -> u16 {
    (d[i] as u16) | ((d[i + 1] as u16) << 8u16)
}

/// The little endian 32 bits value at `i` in `d`.
pub open spec fn le_u32(d: Seq<u8>, i: int) -> u32 {
    (d[i] as u32) | ((d[i + 1] as u32) << 8u32) | ((d[i + 2] as u32) << 16u32) | ((d[i + 3] as u32) << 24u32)
}

/// The little endian 64 bits value at `i` in `d`.
pub open spec fn le_u64(d: Seq<u8>, i: int) -> u64 {
    (le_u32(d, i) as u64) | ((le_u32(d, i + 4) as u64) << 32u64)
}

pub fn read_le_u16(d: &[u8], i: usize) -> (r: u16)
    requires
        i + 2 <= d@.len(),
    ensures
        r == le_u16(d@, i as int),
{
    (d[i] as u16) | ((d[i + 1] as u16) << 8u16)
}

pub fn read_le_u32(d: &[u8], i: usize) -> (r: u32)
    requires
        i + 4 <= d@.len(),
    ensures
        r == le_u32(d@, i as int),
{
    (d[i] as u32) | ((d[i + 1] as u32) << 8u32) | ((d[i + 2] as u32) << 16u32) | ((d[i + 3] as u32) << 24u32)
}

pub fn read_le_u64(d: &[u8], i: usize) -> (r: u64)
    requires
        i + 8 <= d@.len(),
    ensures
        r == le_u64(d@, i as int),
{
    assert(d@.len() == d.len());
    (read_le_u32(d, i) as u64) | ((read_le_u32(d, i + 4) as u64) << 32u64)
}

/// The sum of the bytes of `s`.
pub open spec fn byte_sum(s: Seq<u8>) -> int
    decreases s.len(),
{
    if s.len() == 0 {
        0
    } else {
        byte_sum(s.drop_last()) + s.last()
    }
}

/// Whether the first `len` bytes of `d` add up to 0 modulo 256.
pub fn checksum_ok(d: &[u8], len: usize) -> (r: bool)
    requires
        len <= d@.len(),
    ensures
        r == (byte_sum(d@.take(len as int)) % 256 == 0),
{
    let mut sum: u8 = 0;
    let mut i: usize = 0;
    while i < len
        invariant
            i <= len <= d@.len(),
            sum == byte_sum(d@.take(i as int)) % 256,
        decreases len - i,
    {
        proof {
            assert(d@.take(i + 1).drop_last() =~= d@.take(i as int));
        }
        sum = sum.wrapping_add(d[i]);
        i += 1;
    }
    sum == 0
}

} // verus!
