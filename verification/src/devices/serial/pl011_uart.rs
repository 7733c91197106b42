use vstd::prelude::*;

use crate::memory::VirtualAddress;
use vstd::string::StringSliceAdditionalSpecFns;
use vstd::utf8::{
    encode_scalar, has_width_1_encoding, has_width_2_encoding, has_width_3_encoding, last_continuation_byte,
    leading_byte_width_1, leading_byte_width_2, leading_byte_width_3, leading_byte_width_4,
    second_last_continuation_byte, third_last_continuation_byte,
};

verus! {

/// The bytes sent to the UART for the bytes `b`: NUL bytes are dropped, and a carriage return
/// follows each line feed.
pub open spec fn uart_bytes(b: Seq<u8>) -> Seq<u8>
    decreases b.len(),
{
    if b.len() == 0 {
        Seq::empty()
    } else {
        let last = b.last();
        uart_bytes(b.drop_last()) + if last == 0 {
            Seq::<u8>::empty()
        } else if last == 0x0A {
            seq![0x0Au8, 0x0Du8]
        } else {
            seq![last]
        }
    }
}

/// What the UART is sent for two byte strings one after the other is what it is sent for each.
pub proof fn lemma_uart_bytes_concat(a: Seq<u8>, b: Seq<u8>)
    ensures
        uart_bytes(a + b) == uart_bytes(a) + uart_bytes(b),
    decreases b.len(),
{
    if b.len() == 0 {
        assert(a + b =~= a);
        assert(uart_bytes(b) =~= Seq::<u8>::empty());
        assert(uart_bytes(a) + uart_bytes(b) =~= uart_bytes(a));
    } else {
        assert((a + b).drop_last() =~= a + b.drop_last());
        lemma_uart_bytes_concat(a, b.drop_last());
        let t = if b.last() == 0 {
            Seq::<u8>::empty()
        } else if b.last() == 0x0A {
            seq![0x0Au8, 0x0Du8]
        } else {
            seq![b.last()]
        };
        assert(uart_bytes(a) + uart_bytes(b.drop_last()) + t =~= uart_bytes(a) + (uart_bytes(b.drop_last()) + t));
    }
}

/// A PL011 UART whose data register is at `base`; writing a byte there sends it.
pub struct Pl011 {
    base: VirtualAddress,
}

impl Pl011 {
    pub closed spec fn base_spec(&self) -> u64 {
        self.base@
    }

    pub fn new(base: VirtualAddress) -> (r: Self)
        ensures
            r.base_spec() == base@,
    {
        Self { base }
    }

    /// The address of the data register.
    pub fn data_register(&self) -> (r: u64)
        ensures
            r == self.base_spec(),
    {
        self.base.copy().addr()
    }

    /// The bytes to send for `c`: its UTF-8 encoding, without NUL bytes, and a carriage return
    /// after a line feed.
    pub fn write_char(&mut self, c: char) -> (r: Vec<u8>)
        ensures
            r@ == uart_bytes(encode_scalar(c as u32)),
            final(self).base_spec() == old(self).base_spec(),
    {
        let v = c as u32;
        let mut b: Vec<u8> = Vec::new();
        if v <= 0x7F {
            b.push((v & 0x7F) as u8);
        } else if v <= 0x7FF {
            b.push(0xC0 | ((v >> 6u32) & 0x1F) as u8);
            b.push(0x80 | (v & 0x3F) as u8);
        } else if v <= 0xFFFF {
            b.push(0xE0 | ((v >> 12u32) & 0x0F) as u8);
            b.push(0x80 | ((v >> 6u32) & 0x3F) as u8);
            b.push(0x80 | (v & 0x3F) as u8);
        } else {
            b.push(0xF0 | ((v >> 18u32) & 0x7) as u8);
            b.push(0x80 | ((v >> 12u32) & 0x3F) as u8);
            b.push(0x80 | ((v >> 6u32) & 0x3F) as u8);
            b.push(0x80 | (v & 0x3F) as u8);
        }
        proof {
            assert(b@ =~= encode_scalar(v));
        }
        Self::output(b.as_slice())
    }

    /// The bytes to send for `s` (see `uart_bytes`).
    pub fn write_str(&mut self, s: &str) -> (r: Vec<u8>)
        ensures
            r@ == uart_bytes(s.spec_bytes()),
            final(self).base_spec() == old(self).base_spec(),
    {
        Self::output(s.as_bytes())
    }

    /// The bytes to send for the bytes `b`.
    fn output(b: &[u8]) -> (r: Vec<u8>)
        ensures
            r@ == uart_bytes(b@),
    {
        let mut out: Vec<u8> = Vec::new();
        let mut i: usize = 0;
        while i < b.len()
            invariant
                i <= b@.len(),
                out@ == uart_bytes(b@.take(i as int)),
            decreases b@.len() - i,
        {
            proof {
                assert(b@.take(i + 1).drop_last() =~= b@.take(i as int));
            }
            let byte = b[i];
            if byte != 0 {
                out.push(byte);
                if byte == 0x0A {
                    out.push(0x0D);
                }
            }
            proof {
                assert(out@ =~= uart_bytes(b@.take(i + 1)));
            }
            i += 1;
        }
        proof {
            assert(b@.take(i as int) =~= b@);
        }
        out
    }
}

} // verus!
