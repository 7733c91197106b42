use vstd::prelude::*;
use vstd::slice::slice_subrange;
use vstd::string::*;
use vstd::utf8::*;

use crate::utils::{byte_from, bytes_eq, lemma_byte_from, find_nul, lemma_nul_from, nul_from, str_from_utf8};

verus! {

pub const MAGIC: u32 = 0xd00dfeed;

pub const FDT_BEGIN_NODE: u32 = 0x01;

pub const FDT_END_NODE: u32 = 0x02;

pub const FDT_PROP: u32 = 0x03;

pub const FDT_NOP: u32 = 0x04;

pub const FDT_END: u32 = 0x09;

/// The big-endian `u32` at `i` in `d`.
pub open spec fn be_u32(d: Seq<u8>, i: int) -> u32 {
    ((d[i] as u32) << 24u32) | ((d[i + 1] as u32) << 16u32) | ((d[i + 2] as u32) << 8u32) | (d[i
        + 3] as u32)
}

/// The big-endian `u64` at `i` in `d`.
pub open spec fn be_u64(d: Seq<u8>, i: int) -> u64 {
    ((d[i] as u64) << 56u64) | ((d[i + 1] as u64) << 48u64) | ((d[i + 2] as u64) << 40u64) | ((d[i
        + 3] as u64) << 32u64) | ((d[i + 4] as u64) << 24u64) | ((d[i + 5] as u64) << 16u64) | ((d[i
        + 6] as u64) << 8u64) | (d[i + 7] as u64)
}

/// `x` rounded up to a multiple of 4.
pub open spec fn align4(x: int) -> int {
    (x + 3) / 4 * 4
}

/// The `u32` token at `pos` and the position after it, if `d` holds 4 bytes there.
pub open spec fn u32_at(d: Seq<u8>, pos: int) -> Option<(u32, int)> {
    if 0 <= pos && pos + 4 <= d.len() {
        Some((be_u32(d, pos), pos + 4))
    } else {
        None
    }
}

/// The NUL terminated UTF-8 string at `off` in the strings block `strs`.
pub open spec fn str_at(strs: Seq<u8>, off: int) -> Option<Seq<u8>> {
    let e = nul_from(strs, off);
    if 0 <= off <= strs.len() && e < strs.len() && valid_utf8(strs.subrange(off, e)) {
        Some(strs.subrange(off, e))
    } else {
        None
    }
}

/// "#address-cells"
pub open spec fn address_cells_name() -> Seq<u8> {
    seq![35u8, 97, 100, 100, 114, 101, 115, 115, 45, 99, 101, 108, 108, 115]
}

/// "reg", the property that holds the register blocks (or the id) of a node.
pub open spec fn reg_name() -> Seq<u8> {
    seq![114u8, 101, 103]
}

pub proof fn lemma_reg_name()
    ensures
        "reg".spec_bytes() == reg_name(),
{
    reveal_strlit("reg");
    is_ascii_spec_bytes("reg");
    assert("reg".spec_bytes() =~= reg_name());
}

/// "#size-cells"
pub open spec fn size_cells_name() -> Seq<u8> {
    seq![35u8, 115, 105, 122, 101, 45, 99, 101, 108, 108, 115]
}

/// A node as it is read from the structure block: name, body (from just after the name to
/// just after the `FDT_END_NODE` token), `#address-cells` and `#size-cells`.
pub type NodeView = (Seq<u8>, Seq<u8>, u32, u32);

/// A property: name and value.
pub type PropertyView = (Seq<u8>, Seq<u8>);

/// Parse the tokens of a node body from `pos` up to its `FDT_END_NODE`; the body started at
/// `start`. Returns the end of the body, the cells values found in it and the position after it.
pub open spec fn parse_body(
    d: Seq<u8>,
    strs: Seq<u8>,
    start: int,
    pos: int,
    ac: u32,
    sc: u32,
) -> Option<(int, u32, u32, int)>
    decreases d.len() - pos, 0int,
{
    match u32_at(d, pos) {
        None => None,
        Some((tok, p)) => {
            if tok == FDT_BEGIN_NODE {
                match parse_node(d, strs, p, ac, sc) {
                    None => None,
                    Some((_, _, _, _, end)) => {
                        let q = align4(end);
                        if q <= pos || q > d.len() {
                            None
                        } else {
                            parse_body(d, strs, start, q, ac, sc)
                        }
                    },
                }
            } else if tok == FDT_END_NODE {
                let q = align4(p);
                if q > d.len() {
                    None
                } else {
                    Some((q, ac, sc, q))
                }
            } else if tok == FDT_PROP {
                match u32_at(d, p) {
                    None => None,
                    Some((len, p2)) => match u32_at(d, p2) {
                        None => None,
                        Some((name_off, p3)) => {
                            if p3 + len > d.len() || align4(p3 + len) > d.len() {
                                None
                            } else {
                                let q = align4(p3 + len);
                                match str_at(strs, name_off as int) {
                                    None => None,
                                    Some(name) => {
                                        if name == size_cells_name() || name
                                            == address_cells_name() {
                                            if len != 4 {
                                                None
                                            } else if name == size_cells_name() {
                                                parse_body(d, strs, start, q, ac, be_u32(d, p3))
                                            } else {
                                                parse_body(d, strs, start, q, be_u32(d, p3), sc)
                                            }
                                        } else {
                                            parse_body(d, strs, start, q, ac, sc)
                                        }
                                    },
                                }
                            }
                        },
                    },
                }
            } else if tok == FDT_NOP {
                parse_body(d, strs, start, p, ac, sc)
            } else {
                None
            }
        },
    }
}

/// Parse a node whose `FDT_BEGIN_NODE` token was consumed just before `pos`. Returns its
/// name, body, cells values and the position after it.
pub open spec fn parse_node(d: Seq<u8>, strs: Seq<u8>, pos: int, ac: u32, sc: u32) -> Option<
    (Seq<u8>, Seq<u8>, u32, u32, int),
>
    decreases d.len() - pos, 1int,
{
    let e = nul_from(d, pos);
    if pos < 0 || pos > d.len() || e >= d.len() || !valid_utf8(d.subrange(pos, e)) {
        None
    } else {
        let start = align4(e + 1);
        if start <= pos || start > d.len() {
            None
        } else {
            match parse_body(d, strs, start, start, ac, sc) {
                None => None,
                Some((data_end, ac2, sc2, end)) => Some(
                    (d.subrange(pos, e), d.subrange(start, data_end), ac2, sc2, end),
                ),
            }
        }
    }
}

/// A cursor over big-endian data.
pub struct Buff<'a> {
    data: &'a [u8],
    index: usize,
}

impl<'a> Buff<'a> {
    pub closed spec fn data(&self) -> Seq<u8> {
        self.data@
    }

    pub closed spec fn pos(&self) -> int {
        self.index as int
    }

    pub fn new(data: &'a [u8]) -> (r: Self)
        ensures
            r.data() == data@,
            r.pos() == 0,
    {
        Self { data, index: 0 }
    }

    pub fn consume_be_u32(&mut self) -> (r: Option<u32>)
        ensures
            final(self).data() == old(self).data(),
            match u32_at(old(self).data(), old(self).pos()) {
                Some((v, p)) => r == Some(v) && final(self).pos() == p,
                None => r is None && final(self).pos() == old(self).pos(),
            },
    {
        if self.index > self.data.len() || 4 > self.data.len() - self.index {
            return None;
        }
        let i = self.index;
        let val = ((self.data[i] as u32) << 24u32) | ((self.data[i + 1] as u32) << 16u32) | ((
        self.data[i + 2] as u32) << 8u32) | (self.data[i + 3] as u32);
        self.index = i + 4;
        Some(val)
    }

    pub fn consume_be_u64(&mut self) -> (r: Option<u64>)
        ensures
            final(self).data() == old(self).data(),
            if 0 <= old(self).pos() && old(self).pos() + 8 <= old(self).data().len() {
                r == Some(be_u64(old(self).data(), old(self).pos())) && final(self).pos() == old(
                    self,
                ).pos() + 8
            } else {
                r is None && final(self).pos() == old(self).pos()
            },
    {
        if self.index > self.data.len() || 8 > self.data.len() - self.index {
            return None;
        }
        let i = self.index;
        let d = self.data;
        let val = ((d[i] as u64) << 56u64) | ((d[i + 1] as u64) << 48u64) | ((d[i + 2] as u64)
            << 40u64) | ((d[i + 3] as u64) << 32u64) | ((d[i + 4] as u64) << 24u64) | ((d[i
            + 5] as u64) << 16u64) | ((d[i + 6] as u64) << 8u64) | (d[i + 7] as u64);
        self.index = i + 8;
        Some(val)
    }

    /// Consume a NUL terminated string. The cursor moves past the NUL byte even when the bytes
    /// are not valid UTF-8, in which case `None` is returned.
    pub fn consume_str(&mut self) -> (r: Option<&'a str>)
        ensures
            final(self).data() == old(self).data(),
            ({
                let d = old(self).data();
                let i = old(self).pos();
                let e = nul_from(d, i);
                if i <= d.len() && e < d.len() {
                    &&& final(self).pos() == e + 1
                    &&& (r is Some <==> valid_utf8(d.subrange(i, e)))
                    &&& r matches Some(s) ==> s.spec_bytes() == d.subrange(i, e)
                } else {
                    r is None && final(self).pos() == old(self).pos()
                }
            }),
    {
        if self.index > self.data.len() {
            return None;
        }
        let e = find_nul(self.data, self.index);
        proof {
            lemma_nul_from(self.data@, self.index as int);
        }
        if e >= self.data.len() {
            return None;
        }
        let bytes = slice_subrange(self.data, self.index, e);
        self.index = e + 1;
        str_from_utf8(bytes)
    }

    pub fn consume_slice(&mut self, len: usize) -> (r: Option<&'a [u8]>)
        ensures
            final(self).data() == old(self).data(),
            ({
                let d = old(self).data();
                let i = old(self).pos();
                if i + len <= d.len() {
                    r matches Some(s) && s@ == d.subrange(i, i + len) && final(self).pos() == i
                        + len
                } else {
                    r is None && final(self).pos() == i
                }
            }),
    {
        if self.index > self.data.len() || len > self.data.len() - self.index {
            return None;
        }
        let slice = slice_subrange(self.data, self.index, self.index + len);
        self.index = self.index + len;
        Some(slice)
    }

    /// Move the cursor `bytes_count` bytes forward; `Err` when it ends at or past the end.
    pub fn advance_by(&mut self, bytes_count: usize) -> (r: Result<(), ()>)
        requires
            old(self).pos() + bytes_count <= usize::MAX,
        ensures
            final(self).data() == old(self).data(),
            final(self).pos() == old(self).pos() + bytes_count,
            r is Ok <==> final(self).pos() < final(self).data().len(),
    {
        self.index = self.index + bytes_count;
        if self.index >= self.data.len() {
            Err(())
        } else {
            Ok(())
        }
    }

    /// Skip the name offset and the `len` bytes of a property value, then align: `false` when
    /// that does not end before the end of the data.
    fn skip_property(&mut self, len: u32) -> (r: bool)
        requires
            old(self).data().len() + 8 <= usize::MAX,
            old(self).pos() <= old(self).data().len(),
        ensures
            final(self).data() == old(self).data(),
            ({
                let idx = old(self).pos() + len + 4;
                &&& r == (idx < old(self).data().len() && align4(idx) <= old(self).data().len())
                &&& r ==> final(self).pos() == align4(idx)
            }),
    {
        if self.index > self.data.len() || len as usize >= self.data.len() - self.index || 4
            >= self.data.len() - self.index - len as usize {
            return false;
        }
        let _ = self.advance_by(len as usize + 4);
        let q = (self.index + 3) / 4 * 4;
        if q > self.data.len() {
            return false;
        }
        self.index = q;
        true
    }

    /// Align the cursor to 4 bytes.
    fn align(&mut self)
        requires
            old(self).pos() + 3 <= usize::MAX,
        ensures
            final(self).data() == old(self).data(),
            final(self).pos() == align4(old(self).pos()),
    {
        self.index = (self.index + 3) / 4 * 4;
    }
}

/// The NUL terminated UTF-8 string at `index` of the strings block.
fn get_str<'a>(str_buff: &'a [u8], index: usize) -> (r: Option<&'a str>)
    ensures
        match str_at(str_buff@, index as int) {
            Some(name) => r matches Some(s) && s.spec_bytes() == name,
            None => r is None,
        },
{
    if index > str_buff.len() {
        return None;
    }
    let e = find_nul(str_buff, index);
    proof {
        lemma_nul_from(str_buff@, index as int);
    }
    if e >= str_buff.len() {
        return None;
    }
    str_from_utf8(slice_subrange(str_buff, index, e))
}


/// Parsing moves forward: a parsed body or node ends after where it starts.
proof fn lemma_parse_progress(d: Seq<u8>, strs: Seq<u8>, start: int, pos: int, ac: u32, sc: u32)
    ensures
        parse_body(d, strs, start, pos, ac, sc) matches Some((de, a, s, end)) ==> end > pos
            && de == end && end <= d.len(),
        parse_node(d, strs, pos, ac, sc) matches Some((_, _, _, _, end)) ==> end > pos && end
            <= d.len(),
    decreases d.len() - pos,
{
    if 0 <= pos <= d.len() {
        // the node
        let e = nul_from(d, pos);
        if !(e >= d.len() || !valid_utf8(d.subrange(pos, e))) {
            let st = align4(e + 1);
            if st > pos && st <= d.len() {
                lemma_parse_progress(d, strs, st, st, ac, sc);
            }
        }
        // the body
        if let Some((tok, p)) = u32_at(d, pos) {
            if tok == FDT_BEGIN_NODE {
                lemma_parse_progress(d, strs, start, p, ac, sc);
                if let Some((_, _, _, _, end)) = parse_node(d, strs, p, ac, sc) {
                    let q = align4(end);
                    if q > pos && q <= d.len() {
                        lemma_parse_progress(d, strs, start, q, ac, sc);
                    }
                }
            } else if tok == FDT_PROP {
                if let Some((len, p2)) = u32_at(d, p) {
                    if let Some((name_off, p3)) = u32_at(d, p2) {
                        let q = align4(p3 + len);
                        if q <= d.len() {
                            lemma_parse_progress(d, strs, start, q, ac, be_u32(d, p3));
                            lemma_parse_progress(d, strs, start, q, be_u32(d, p3), sc);
                            lemma_parse_progress(d, strs, start, q, ac, sc);
                        }
                    }
                }
            } else if tok == FDT_NOP {
                lemma_parse_progress(d, strs, start, p, ac, sc);
            }
        }
    }
}

/// Whether `b` is "#size-cells".
fn is_size_cells_name(b: &[u8]) -> (r: bool)
    ensures
        r == (b@ == size_cells_name()),
{
    let r = b.len() == 11 && b[0] == 35 && b[1] == 115 && b[2] == 105 && b[3] == 122 && b[4]
        == 101 && b[5] == 45 && b[6] == 99 && b[7] == 101 && b[8] == 108 && b[9] == 108 && b[10]
        == 115;
    proof {
        if r {
            assert(b@ =~= size_cells_name());
        }
    }
    r
}

/// Whether `b` is "#address-cells".
fn is_address_cells_name(b: &[u8]) -> (r: bool)
    ensures
        r == (b@ == address_cells_name()),
{
    let r = b.len() == 14 && b[0] == 35 && b[1] == 97 && b[2] == 100 && b[3] == 100 && b[4]
        == 114 && b[5] == 101 && b[6] == 115 && b[7] == 115 && b[8] == 45 && b[9] == 99 && b[10]
        == 101 && b[11] == 108 && b[12] == 108 && b[13] == 115;
    proof {
        if r {
            assert(b@ =~= address_cells_name());
        }
    }
    r
}

/// The big-endian `u32` of a 4 bytes slice.
fn be_u32_of(b: &[u8]) -> (r: u32)
    requires
        b.len() == 4,
    ensures
        r == be_u32(b@, 0),
{
    ((b[0] as u32) << 24u32) | ((b[1] as u32) << 16u32) | ((b[2] as u32) << 8u32) | (b[3] as u32)
}

/// A node of the device tree.
pub struct Node<'a> {
    name: &'a str,
    data: &'a [u8],
    str_buff: &'a [u8],
    address_cells: u32,
    size_cells: u32,
}

impl<'a> Node<'a> {
    /// Name, body, `#address-cells` and `#size-cells` of the node.
    pub closed spec fn view(&self) -> NodeView {
        (self.name.spec_bytes(), self.data@, self.address_cells, self.size_cells)
    }

    /// The strings block of the device tree.
    pub closed spec fn strs(&self) -> Seq<u8> {
        self.str_buff@
    }

    /// The body of the node is small enough for cursors over it.
    pub closed spec fn wf(&self) -> bool {
        self.data@.len() + 8 <= usize::MAX
    }

    pub fn copy(&self) -> (r: Self)
        ensures
            r@ == self@,
            r.strs() == self.strs(),
            r.wf() == self.wf(),
    {
        Node {
            name: self.name,
            data: self.data,
            str_buff: self.str_buff,
            address_cells: self.address_cells,
            size_cells: self.size_cells,
        }
    }

    pub fn address_cells(&self) -> (r: usize)
        ensures
            r == self@.2,
    {
        self.address_cells as usize
    }

    pub fn size_cells(&self) -> (r: usize)
        ensures
            r == self@.3,
    {
        self.size_cells as usize
    }

    pub fn name(&self) -> (r: &'a str)
        ensures
            r.spec_bytes() == self@.0,
    {
        self.name
    }
}

/// Try to get a node in `buff`. The `FDT_BEGIN_NODE` should already have been consumed.
#[verifier::rlimit(40)]
fn get_node_in_buff<'a>(
    buff: &mut Buff<'a>,
    str_buff: &'a [u8],
    address_cells: u32,
    size_cells: u32,
) -> (r: Option<Node<'a>>)
    requires
        old(buff).data().len() + 8 <= usize::MAX,
    ensures
        final(buff).data() == old(buff).data(),
        match parse_node(old(buff).data(), str_buff@, old(buff).pos(), address_cells, size_cells) {
            Some((name, body, ac, sc, end)) => r matches Some(n) && n@ == (name, body, ac, sc)
                && n.strs() == str_buff@ && n.wf() && final(buff).pos() == end,
            None => r is None,
        },
    decreases old(buff).data().len() - old(buff).pos(),
{
    let ghost d = buff.data();
    let ghost strs = str_buff@;
    let ghost p0 = buff.pos();
    proof {
        lemma_nul_from(d, p0);
    }
    let name = match buff.consume_str() {
        Some(name) => name,
        None => return None,
    };
    buff.align();
    let start_idx = buff.index;
    let ghost start = start_idx as int;
    let ghost e = nul_from(d, p0);
    assert(start > p0);
    let mut ac = address_cells;
    let mut sc = size_cells;
    loop
        invariant
            buff.data() == d,
            d == old(buff).data(),
            p0 == old(buff).pos(),
            d.len() + 8 <= usize::MAX,
            strs == str_buff@,
            start == start_idx,
            p0 < start <= buff.pos() <= d.len() + 3,
            e == nul_from(d, p0),
            name.spec_bytes() == d.subrange(p0, e),
            e < d.len(),
            start == align4(e + 1),
            parse_node(d, strs, p0, address_cells, size_cells) == (match parse_body(
                d,
                strs,
                start,
                buff.pos(),
                ac,
                sc,
            ) {
                None => None,
                Some((data_end, ac2, sc2, end)) => Some(
                    (d.subrange(p0, e), d.subrange(start, data_end), ac2, sc2, end),
                ),
            }),
        decreases d.len() + 3 - buff.pos(),
    {
        let ghost pos = buff.pos();
        let token = match buff.consume_be_u32() {
            Some(t) => t,
            None => return None,
        };
        if token == FDT_BEGIN_NODE {
            proof {
                lemma_parse_progress(d, strs, start, buff.pos(), ac, sc);
            }
            match get_node_in_buff(buff, str_buff, ac, sc) {
                Some(_) => {},
                None => return None,
            }
            buff.align();
        } else if token == FDT_END_NODE {
            let q = (buff.index + 3) / 4 * 4;
            if q > buff.data.len() {
                return None;
            }
            buff.index = q;
            let data = slice_subrange(buff.data, start_idx, buff.index);
            return Some(Node { name, data, str_buff, address_cells: ac, size_cells: sc });
        } else if token == FDT_PROP {
            let len = match buff.consume_be_u32() {
                Some(v) => v,
                None => return None,
            };
            let name_off = match buff.consume_be_u32() {
                Some(v) => v,
                None => return None,
            };
            let data = match buff.consume_slice(len as usize) {
                Some(v) => v,
                None => return None,
            };
            buff.align();
            let pname = match get_str(str_buff, name_off as usize) {
                Some(v) => v,
                None => return None,
            };
            let pbytes = pname.as_bytes();
            let is_size = is_size_cells_name(pbytes);
            let is_address = is_address_cells_name(pbytes);
            if is_size || is_address {
                if len != 4 {
                    return None;
                }
                let val = be_u32_of(data);
                if is_size {
                    sc = val;
                } else {
                    ac = val;
                }
            }
        } else if token == FDT_NOP {
        } else {
            return None;
        }
    }
}


/// The next property of a node body from `pos`, and the position after it. Nested nodes are
/// skipped; `None` at the end of the body or on malformed data.
pub open spec fn next_property(d: Seq<u8>, strs: Seq<u8>, pos: int, ac: u32, sc: u32) -> Option<
    (PropertyView, int),
>
    decreases d.len() - pos,
{
    match u32_at(d, pos) {
        None => None,
        Some((tok, p)) => {
            if tok == FDT_PROP {
                match u32_at(d, p) {
                    None => None,
                    Some((len, p2)) => match u32_at(d, p2) {
                        None => None,
                        Some((name_off, p3)) => match str_at(strs, name_off as int) {
                            None => None,
                            Some(name) => {
                                if p3 + len > d.len() {
                                    None
                                } else {
                                    Some(((name, d.subrange(p3, p3 + len)), align4(p3 + len)))
                                }
                            },
                        },
                    },
                }
            } else if tok == FDT_BEGIN_NODE {
                match parse_node(d, strs, p, ac, sc) {
                    None => None,
                    Some((_, _, _, _, end)) => {
                        if end <= pos || end > d.len() {
                            None
                        } else {
                            next_property(d, strs, end, ac, sc)
                        }
                    },
                }
            } else if tok == FDT_NOP {
                next_property(d, strs, p, ac, sc)
            } else {
                None
            }
        },
    }
}

/// The next child node of a node body from `pos`, and the position after it. Properties are
/// skipped; `None` at the end of the body or on malformed data.
pub open spec fn next_child(d: Seq<u8>, strs: Seq<u8>, pos: int, ac: u32, sc: u32) -> Option<
    (NodeView, int),
>
    decreases d.len() - pos,
{
    match u32_at(d, pos) {
        None => None,
        Some((tok, p)) => {
            if tok == FDT_PROP {
                match u32_at(d, p) {
                    None => None,
                    Some((len, p2)) => {
                        let idx = p2 + len + 4;
                        if idx >= d.len() {
                            None
                        } else {
                            let q = align4(idx);
                            if q > d.len() {
                                None
                            } else {
                                next_child(d, strs, q, ac, sc)
                            }
                        }
                    },
                }
            } else if tok == FDT_BEGIN_NODE {
                match parse_node(d, strs, p, ac, sc) {
                    None => None,
                    Some((name, body, ac2, sc2, end)) => Some(((name, body, ac2, sc2), end)),
                }
            } else if tok == FDT_NOP {
                next_child(d, strs, p, ac, sc)
            } else {
                None
            }
        },
    }
}

proof fn lemma_next_progress(d: Seq<u8>, strs: Seq<u8>, pos: int, ac: u32, sc: u32)
    ensures
        next_property(d, strs, pos, ac, sc) matches Some((_, q)) ==> pos < q,
        next_child(d, strs, pos, ac, sc) matches Some((_, q)) ==> pos < q,
    decreases d.len() - pos,
{
    if let Some((tok, p)) = u32_at(d, pos) {
        lemma_parse_progress(d, strs, 0, p, ac, sc);
        if tok == FDT_BEGIN_NODE {
            if let Some((_, _, _, _, end)) = parse_node(d, strs, p, ac, sc) {
                if end > pos && end <= d.len() {
                    lemma_next_progress(d, strs, end, ac, sc);
                }
            }
        } else if tok == FDT_NOP {
            lemma_next_progress(d, strs, p, ac, sc);
        } else if tok == FDT_PROP {
            if let Some((len, p2)) = u32_at(d, p) {
                let q = align4(p2 + len + 4);
                if p2 + len + 4 < d.len() && q <= d.len() {
                    lemma_next_progress(d, strs, q, ac, sc);
                }
            }
        }
    }
}

/// The properties of a node body from `pos`, in order.
pub open spec fn properties_from(d: Seq<u8>, strs: Seq<u8>, pos: int, ac: u32, sc: u32) -> Seq<
    PropertyView,
>
    decreases d.len() + 3 - pos,
{
    match next_property(d, strs, pos, ac, sc) {
        None => Seq::empty(),
        Some((prop, q)) => if q <= pos || q > d.len() + 3 {
            Seq::empty()
        } else {
            seq![prop] + properties_from(d, strs, q, ac, sc)
        },
    }
}

/// The children of a node body from `pos`, in order.
pub open spec fn children_from(d: Seq<u8>, strs: Seq<u8>, pos: int, ac: u32, sc: u32) -> Seq<
    NodeView,
>
    decreases d.len() - pos,
{
    match next_child(d, strs, pos, ac, sc) {
        None => Seq::empty(),
        Some((child, q)) => if q <= pos || q > d.len() {
            Seq::empty()
        } else {
            seq![child] + children_from(d, strs, q, ac, sc)
        },
    }
}

/// The properties of the node `n`.
pub open spec fn node_properties(n: NodeView, strs: Seq<u8>) -> Seq<PropertyView> {
    properties_from(n.1, strs, 0, n.2, n.3)
}

/// The children of the node `n`.
pub open spec fn node_children(n: NodeView, strs: Seq<u8>) -> Seq<NodeView> {
    children_from(n.1, strs, 0, n.2, n.3)
}

/// The first child of `s` whose name is `name`.
pub open spec fn first_named(s: Seq<NodeView>, name: Seq<u8>) -> Option<NodeView>
    decreases s.len(),
{
    if s.len() == 0 {
        None
    } else if s[0].0 == name {
        Some(s[0])
    } else {
        first_named(s.drop_first(), name)
    }
}

/// The first property of `s` whose name is `name`.
pub open spec fn first_named_property(s: Seq<PropertyView>, name: Seq<u8>) -> Option<
    PropertyView,
>
    decreases s.len(),
{
    if s.len() == 0 {
        None
    } else if s[0].0 == name {
        Some(s[0])
    } else {
        first_named_property(s.drop_first(), name)
    }
}

/// A property of a node.
pub struct Property<'a> {
    name: &'a str,
    data: &'a [u8],
}

impl<'a> Property<'a> {
    pub closed spec fn view(&self) -> PropertyView {
        (self.name.spec_bytes(), self.data@)
    }

    pub fn name(&self) -> (r: &'a str)
        ensures
            r.spec_bytes() == self@.0,
    {
        self.name
    }

    /// A cursor over the value of the property.
    pub fn buff(&self) -> (r: Buff<'a>)
        ensures
            r.data() == self@.1,
            r.pos() == 0,
    {
        Buff::new(self.data)
    }
}

/// Iterator over the properties of a node.
pub struct NodePropertiesIterator<'a> {
    buff: Buff<'a>,
    str_buff: &'a [u8],
    address_cells: u32,
    size_cells: u32,
}

impl<'a> NodePropertiesIterator<'a> {
    /// The properties not yet returned.
    pub closed spec fn remaining(&self) -> Seq<PropertyView> {
        properties_from(
            self.buff.data(),
            self.str_buff@,
            self.buff.pos(),
            self.address_cells,
            self.size_cells,
        )
    }

    pub closed spec fn wf(&self) -> bool {
        self.buff.data().len() + 8 <= usize::MAX
    }

    /// The next property; `None` at the end of the node (and on malformed data).
    pub fn next(&mut self) -> (r: Option<Property<'a>>)
        requires
            old(self).wf(),
        ensures
            final(self).wf(),
            match r {
                Some(p) => old(self).remaining().len() > 0 && p@ == old(self).remaining()[0]
                    && final(self).remaining() == old(self).remaining().drop_first(),
                None => old(self).remaining().len() == 0,
            },
    {
        let ghost d = self.buff.data();
        let ghost strs = self.str_buff@;
        let ghost p0 = self.buff.pos();
        let ghost ac = self.address_cells;
        let ghost sc = self.size_cells;
        if self.buff.index > self.buff.data.len() {
            return None;
        }
        loop
            invariant
                self.buff.data() == d,
                strs == old(self).str_buff@,
                self.str_buff@ == strs,
                self.address_cells == ac,
                self.size_cells == sc,
                d.len() + 8 <= usize::MAX,
                p0 <= self.buff.pos() <= d.len() + 3,
                next_property(d, strs, p0, ac, sc) == next_property(
                    d,
                    strs,
                    self.buff.pos(),
                    ac,
                    sc,
                ),
                old(self).remaining() == properties_from(d, strs, p0, ac, sc),
            decreases d.len() + 3 - self.buff.pos(),
        {
            proof {
                lemma_next_progress(d, strs, p0, ac, sc);
            }
            let ghost pos = self.buff.pos();
            let token = match self.buff.consume_be_u32() {
                Some(t) => t,
                None => return None,
            };
            if token == FDT_PROP {
                let len = match self.buff.consume_be_u32() {
                    Some(v) => v,
                    None => return None,
                };
                let name_off = match self.buff.consume_be_u32() {
                    Some(v) => v,
                    None => return None,
                };
                let name = match get_str(self.str_buff, name_off as usize) {
                    Some(v) => v,
                    None => return None,
                };
                let data = match self.buff.consume_slice(len as usize) {
                    Some(v) => v,
                    None => return None,
                };
                self.buff.align();
                return Some(Property { name, data });
            } else if token == FDT_BEGIN_NODE {
                proof {
                    lemma_parse_progress(d, strs, 0, self.buff.pos(), ac, sc);
                }
                match get_node_in_buff(&mut self.buff, self.str_buff, self.address_cells, self.size_cells) {
                    Some(_) => {},
                    None => return None,
                }
            } else if token == FDT_NOP {
            } else {
                return None;
            }
        }
    }
}

/// Iterator over the children of a node.
pub struct NodeChildrenIterator<'a> {
    buff: Buff<'a>,
    str_buff: &'a [u8],
    address_cells: u32,
    size_cells: u32,
}

impl<'a> NodeChildrenIterator<'a> {
    /// The children not yet returned.
    pub closed spec fn remaining(&self) -> Seq<NodeView> {
        children_from(
            self.buff.data(),
            self.str_buff@,
            self.buff.pos(),
            self.address_cells,
            self.size_cells,
        )
    }

    pub closed spec fn strs(&self) -> Seq<u8> {
        self.str_buff@
    }

    pub closed spec fn wf(&self) -> bool {
        self.buff.data().len() + 8 <= usize::MAX
    }

    #[verifier::rlimit(60)]
    /// The next child; `None` at the end of the node (and on malformed data).
    pub fn next(&mut self) -> (r: Option<Node<'a>>)
        requires
            old(self).wf(),
        ensures
            final(self).wf(),
            final(self).strs() == old(self).strs(),
            match r {
                Some(n) => old(self).remaining().len() > 0 && n@ == old(self).remaining()[0]
                    && n.strs() == old(self).strs() && n.wf() && final(self).remaining() == old(
                    self,
                ).remaining().drop_first(),
                None => old(self).remaining().len() == 0,
            },
    {
        let ghost d = self.buff.data();
        let ghost strs = self.str_buff@;
        let ghost p0 = self.buff.pos();
        let ghost ac = self.address_cells;
        let ghost sc = self.size_cells;
        if self.buff.index > self.buff.data.len() {
            return None;
        }
        loop
            invariant
                self.buff.data() == d,
                strs == old(self).strs(),
                self.str_buff@ == strs,
                self.address_cells == ac,
                self.size_cells == sc,
                d.len() + 8 <= usize::MAX,
                p0 <= self.buff.pos() <= d.len(),
                next_child(d, strs, p0, ac, sc) == next_child(
                    d,
                    strs,
                    self.buff.pos(),
                    ac,
                    sc,
                ),
                old(self).remaining() == children_from(d, strs, p0, ac, sc),
            decreases d.len() - self.buff.pos(),
        {
            proof {
                lemma_next_progress(d, strs, p0, ac, sc);
            }
            let token = match self.buff.consume_be_u32() {
                Some(t) => t,
                None => return None,
            };
            if token == FDT_PROP {
                let len = match self.buff.consume_be_u32() {
                    Some(v) => v,
                    None => return None,
                };
                if !self.buff.skip_property(len) {
                    return None;
                }
            } else if token == FDT_BEGIN_NODE {
                proof {
                    lemma_parse_progress(d, strs, 0, self.buff.pos(), ac, sc);
                }
                let node = match get_node_in_buff(&mut self.buff, self.str_buff, self.address_cells, self.size_cells) {
                    Some(n) => n,
                    None => return None,
                };
                proof {
                    let rest = children_from(d, strs, self.buff.pos(), ac, sc);
                    assert(old(self).remaining() == seq![node@] + rest);
                    assert(old(self).remaining().drop_first() =~= rest);
                }
                return Some(node);
            } else if token == FDT_NOP {
            } else {
                return None;
            }
        }
    }
}


/// The name `cname` starts with `comp` followed by nothing or by '@'.
pub open spec fn weak_match(cname: Seq<u8>, comp: Seq<u8>) -> bool {
    &&& comp.len() <= cname.len()
    &&& cname.subrange(0, comp.len() as int) == comp
    &&& (cname.len() == comp.len() || cname[comp.len() as int] == 64)
}

/// The first node of `s` whose name weakly matches `comp`.
pub open spec fn first_weak(s: Seq<NodeView>, comp: Seq<u8>) -> Option<NodeView>
    decreases s.len(),
{
    if s.len() == 0 {
        None
    } else if weak_match(s[0].0, comp) {
        Some(s[0])
    } else {
        first_weak(s.drop_first(), comp)
    }
}

/// Follow the '/' separated components of `path` from index `i`, starting at the node `n`.
pub open spec fn path_lookup(n: NodeView, strs: Seq<u8>, path: Seq<u8>, i: int, weak: bool) -> Option<
    NodeView,
>
    decreases path.len() - i,
{
    if i < 0 || i > path.len() {
        None
    } else {
        proof {
            lemma_byte_from(path, i, 47);
        }
        let e = byte_from(path, i, 47);
        let comp = path.subrange(i, e);
        let children = node_children(n, strs);
        let found = if weak {
            first_weak(children, comp)
        } else {
            first_named(children, comp)
        };
        match found {
            None => None,
            Some(c) => if e >= path.len() {
                Some(c)
            } else {
                path_lookup(c, strs, path, e + 1, weak)
            },
        }
    }
}

impl<'a> Node<'a> {
    pub fn properties(&self) -> (r: NodePropertiesIterator<'a>)
        requires
            self.wf(),
        ensures
            r.wf(),
            r.remaining() == node_properties(self@, self.strs()),
    {
        NodePropertiesIterator {
            buff: Buff::new(self.data),
            str_buff: self.str_buff,
            address_cells: self.address_cells,
            size_cells: self.size_cells,
        }
    }

    pub fn children(&self) -> (r: NodeChildrenIterator<'a>)
        requires
            self.wf(),
        ensures
            r.wf(),
            r.strs() == self.strs(),
            r.remaining() == node_children(self@, self.strs()),
    {
        NodeChildrenIterator {
            buff: Buff::new(self.data),
            str_buff: self.str_buff,
            address_cells: self.address_cells,
            size_cells: self.size_cells,
        }
    }

    /// The first child whose name is `name` (as bytes).
    fn find_child(&self, name: &[u8], weak: bool) -> (r: Option<Node<'a>>)
        requires
            self.wf(),
        ensures
            match (if weak {
                first_weak(node_children(self@, self.strs()), name@)
            } else {
                first_named(node_children(self@, self.strs()), name@)
            }) {
                Some(v) => r matches Some(n) && n@ == v && n.strs() == self.strs() && n.wf(),
                None => r is None,
            },
    {
        let mut it = self.children();
        let ghost all = node_children(self@, self.strs());
        loop
            invariant
                it.wf(),
                it.strs() == self.strs(),
                all == node_children(self@, self.strs()),
                weak ==> first_weak(all, name@) == first_weak(it.remaining(), name@),
                !weak ==> first_named(all, name@) == first_named(it.remaining(), name@),
            decreases it.remaining().len(),
        {
            match it.next() {
                None => return None,
                Some(c) => {
                    let cname = c.name().as_bytes();
                    let found = if weak {
                        let ok = crate::utils::bytes_starts_with(cname, name) && (cname.len()
                            == name.len() || cname[name.len()] == 64);
                        proof {
                            assert(ok == weak_match(c@.0, name@));
                        }
                        ok
                    } else {
                        bytes_eq(cname, name)
                    };
                    if found {
                        return Some(c);
                    }
                },
            }
        }
    }

    /// The first child named `name`.
    pub fn get_child(&self, name: &str) -> (r: Option<Node<'a>>)
        requires
            self.wf(),
        ensures
            match first_named(node_children(self@, self.strs()), name.spec_bytes()) {
                Some(v) => r matches Some(n) && n@ == v && n.strs() == self.strs() && n.wf(),
                None => r is None,
            },
    {
        self.find_child(name.as_bytes(), false)
    }

    /// The first property named `name`.
    pub fn get_property(&self, name: &str) -> (r: Option<Property<'a>>)
        requires
            self.wf(),
        ensures
            match first_named_property(node_properties(self@, self.strs()), name.spec_bytes()) {
                Some(v) => r matches Some(p) && p@ == v,
                None => r is None,
            },
    {
        let nb = name.as_bytes();
        let mut it = self.properties();
        let ghost all = node_properties(self@, self.strs());
        loop
            invariant
                it.wf(),
                nb@ == name.spec_bytes(),
                all == node_properties(self@, self.strs()),
                first_named_property(all, nb@) == first_named_property(it.remaining(), nb@),
            decreases it.remaining().len(),
        {
            match it.next() {
                None => return None,
                Some(p) => {
                    if bytes_eq(p.name().as_bytes(), nb) {
                        return Some(p);
                    }
                },
            }
        }
    }
}

/// The header of a flattened device tree.
pub struct Header {
    pub magic: u32,
    pub totalsize: u32,
    pub off_dt_struct: u32,
    pub off_dt_strings: u32,
    pub off_mem_rsvmap: u32,
    pub version: u32,
    pub last_comp_version: u32,
    pub boot_cpuid_phys: u32,
    pub size_dt_struct: u32,
    pub size_dt_strings: u32,
}

/// The structure block of the device tree `b`.
pub open spec fn struct_block(b: Seq<u8>) -> Seq<u8> {
    b.subrange(be_u32(b, 8) as int, be_u32(b, 8) + be_u32(b, 36))
}

/// The strings block of the device tree `b`.
pub open spec fn strings_block(b: Seq<u8>) -> Seq<u8> {
    b.subrange(be_u32(b, 12) as int, be_u32(b, 12) + be_u32(b, 32))
}

/// `b` starts with a valid version 17 header whose blocks lie inside `b`, and its structure
/// block starts with `FDT_BEGIN_NODE` when it holds a token.
pub open spec fn dtb_ok(b: Seq<u8>) -> bool {
    &&& b.len() >= 40
    &&& b.len() + 8 <= usize::MAX
    &&& be_u32(b, 0) == MAGIC
    &&& be_u32(b, 20) == 17
    &&& be_u32(b, 4) == b.len()
    &&& be_u32(b, 8) + be_u32(b, 36) <= b.len()
    &&& be_u32(b, 12) + be_u32(b, 32) <= b.len()
    &&& (be_u32(b, 36) >= 4 ==> be_u32(struct_block(b), 0) == FDT_BEGIN_NODE)
}

impl Header {
    pub closed spec fn view(&self) -> Seq<u32> {
        seq![
            self.magic,
            self.totalsize,
            self.off_dt_struct,
            self.off_dt_strings,
            self.off_mem_rsvmap,
            self.version,
            self.last_comp_version,
            self.boot_cpuid_phys,
            self.size_dt_strings,
            self.size_dt_struct,
        ]
    }

    /// Whether `buff` is a device tree `init` accepts.
    pub fn is_valid(buff: &[u8]) -> (r: bool)
        ensures
            r == dtb_ok(buff@),
    {
        if buff.len() < 40 || buff.len() > usize::MAX - 8 {
            return false;
        }
        let h = Self::read(buff);
        if !(h.magic == MAGIC && h.version == 17 && h.totalsize as usize == buff.len()) {
            return false;
        }
        if h.off_dt_struct as usize > buff.len() || h.size_dt_struct as usize > buff.len()
            - h.off_dt_struct as usize {
            return false;
        }
        if h.off_dt_strings as usize > buff.len() || h.size_dt_strings as usize > buff.len()
            - h.off_dt_strings as usize {
            return false;
        }
        if h.size_dt_struct >= 4 {
            let mut b = h.get_struct_buff(buff);
            let t = b.consume_be_u32();
            return t == Some(FDT_BEGIN_NODE);
        }
        true
    }

    fn read(buff: &[u8]) -> (r: Self)
        requires
            buff.len() >= 40,
        ensures
            r@ == Seq::new(10, |k: int| be_u32(buff@, 4 * k)),
    {
        let mut b = Buff::new(buff);
        let magic = b.consume_be_u32().unwrap();
        let totalsize = b.consume_be_u32().unwrap();
        let off_dt_struct = b.consume_be_u32().unwrap();
        let off_dt_strings = b.consume_be_u32().unwrap();
        let off_mem_rsvmap = b.consume_be_u32().unwrap();
        let version = b.consume_be_u32().unwrap();
        let last_comp_version = b.consume_be_u32().unwrap();
        let boot_cpuid_phys = b.consume_be_u32().unwrap();
        let size_dt_strings = b.consume_be_u32().unwrap();
        let size_dt_struct = b.consume_be_u32().unwrap();
        let r = Self {
            magic,
            totalsize,
            off_dt_struct,
            off_dt_strings,
            off_mem_rsvmap,
            version,
            last_comp_version,
            boot_cpuid_phys,
            size_dt_strings,
            size_dt_struct,
        };
        assert(r@ =~= Seq::new(10, |k: int| be_u32(buff@, 4 * k)));
        r
    }

    /// Read the header of the device tree `buff`.
    pub fn from_buff(buff: &[u8]) -> (r: Self)
        requires
            dtb_ok(buff@),
        ensures
            r@ == Seq::new(10, |k: int| be_u32(buff@, 4 * k)),
    {
        Self::read(buff)
    }

    /// A cursor over the structure block.
    fn get_struct_buff<'a>(&self, buff: &'a [u8]) -> (r: Buff<'a>)
        requires
            self.off_dt_struct + self.size_dt_struct <= buff.len(),
        ensures
            r.data() == buff@.subrange(
                self.off_dt_struct as int,
                self.off_dt_struct + self.size_dt_struct,
            ),
            r.pos() == 0,
    {
        Buff::new(
            slice_subrange(
                buff,
                self.off_dt_struct as usize,
                self.off_dt_struct as usize + self.size_dt_struct as usize,
            ),
        )
    }

    /// The strings block.
    fn get_str_buff<'a>(&self, buff: &'a [u8]) -> (r: &'a [u8])
        requires
            self.off_dt_strings + self.size_dt_strings <= buff.len(),
        ensures
            r@ == buff@.subrange(
                self.off_dt_strings as int,
                self.off_dt_strings + self.size_dt_strings,
            ),
    {
        slice_subrange(
            buff,
            self.off_dt_strings as usize,
            self.off_dt_strings as usize + self.size_dt_strings as usize,
        )
    }
}

/// A parsed device tree: its header and root node.
pub struct DeviceTree<'a> {
    dtb: &'a [u8],
    header: Header,
    root: Node<'a>,
}

impl<'a> DeviceTree<'a> {
    /// The device tree blob.
    pub closed spec fn dtb(&self) -> Seq<u8> {
        self.dtb@
    }

    /// The root node.
    pub closed spec fn root(&self) -> NodeView {
        self.root@
    }

    pub closed spec fn wf(&self) -> bool {
        &&& self.root.wf()
        &&& self.root.strs() == strings_block(self.dtb@)
        &&& self.header.boot_cpuid_phys == be_u32(self.dtb@, 28)
    }

    /// Parse the device tree `dtb`. `Err` when the root node cannot be read.
    pub fn init(dtb: &'a [u8]) -> (r: Result<DeviceTree<'a>, ()>)
        requires
            dtb_ok(dtb@),
        ensures
            match parse_node(struct_block(dtb@), strings_block(dtb@), 4, 0, 0) {
                Some((name, body, ac, sc, _)) => r matches Ok(t) && t.wf() && t.dtb() == dtb@
                    && t.root() == (name, body, ac, sc),
                None => r is Err,
            },
    {
        let header = Header::from_buff(dtb);
        let mut struct_buff = header.get_struct_buff(dtb);
        let token = match struct_buff.consume_be_u32() {
            Some(t) => t,
            None => {
                return Err(());
            },
        };
        let str_buff = header.get_str_buff(dtb);
        let root = match get_node_in_buff(&mut struct_buff, str_buff, 0, 0) {
            Some(n) => n,
            None => return Err(()),
        };
        Ok(DeviceTree { dtb, header, root })
    }

    /// Find the node at `path`, which starts with '/'.
    pub fn get_node(&self, path: &str) -> (r: Option<Node<'a>>)
        requires
            self.wf(),
            path.spec_bytes().len() >= 1,
            path.spec_bytes()[0] == 47,
        ensures
            match path_lookup(self.root(), strings_block(self.dtb()), path.spec_bytes(), 1, false) {
                Some(v) => r matches Some(n) && n@ == v,
                None => r is None,
            },
            r matches Some(n) ==> n.wf(),
    {
        self.lookup(path.as_bytes(), false)
    }

    /// The same as `get_node` except that each node's name should start with the path
    /// component followed by nothing or by '@'.
    pub fn get_node_weak(&self, path: &str) -> (r: Option<Node<'a>>)
        requires
            self.wf(),
            path.spec_bytes().len() >= 1,
            path.spec_bytes()[0] == 47,
        ensures
            match path_lookup(self.root(), strings_block(self.dtb()), path.spec_bytes(), 1, true) {
                Some(v) => r matches Some(n) && n@ == v,
                None => r is None,
            },
            r matches Some(n) ==> n.wf(),
    {
        self.lookup(path.as_bytes(), true)
    }

    fn lookup(&self, path: &[u8], weak: bool) -> (r: Option<Node<'a>>)
        requires
            self.wf(),
            path.len() >= 1,
        ensures
            match path_lookup(self.root(), strings_block(self.dtb()), path@, 1, weak) {
                Some(v) => r matches Some(n) && n@ == v,
                None => r is None,
            },
            r matches Some(n) ==> n.wf(),
    {
        let ghost strs = strings_block(self.dtb());
        let mut current = self.root.copy();
        let mut i: usize = 1;
        loop
            invariant
                1 <= i <= path.len(),
                self.wf(),
                strs == strings_block(self.dtb()),
                current.wf(),
                current.strs() == strs,
                path_lookup(self.root(), strs, path@, 1, weak) == path_lookup(
                    current@,
                    strs,
                    path@,
                    i as int,
                    weak,
                ),
            decreases path.len() - i,
        {
            let e = crate::utils::find_byte(path, i, 47);
            proof {
                crate::utils::lemma_byte_from(path@, i as int, 47);
            }
            let comp = slice_subrange(path, i, e);
            current = match current.find_child(comp, weak) {
                Some(c) => c,
                None => return None,
            };
            if e >= path.len() {
                return Some(current);
            }
            i = e + 1;
        }
    }

    pub fn get_boot_cpu_id(&self) -> (r: u32)
        requires
            self.wf(),
        ensures
            r == be_u32(self.dtb(), 28),
    {
        self.header.boot_cpuid_phys
    }
}

} // verus!
