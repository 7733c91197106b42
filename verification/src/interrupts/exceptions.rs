use vstd::prelude::*;

verus! {

/// A CPU exception, decoded from the exception syndrome register.
#[derive(PartialEq, Eq, Structural, Clone, Copy, Debug)]
pub enum CpuException {
    Unknown(u32),
    /// Not implemented in the exception handler.
    NotImplemented(u32),
    SvcInstruction,
    HvcInstruction,
    SmcInstruction,
    /// Fault address and syndrome.
    InstructionAbort(u64, u32),
    PCAlignment,
    /// Fault address and syndrome.
    DataAbort(u64, u32),
    StackAlignment,
    FloatingPointException,
    SError,
}

/// The exception class of a syndrome.
pub open spec fn exception_class(esr: u32) -> u32 {
    esr >> 26u32
}

impl CpuException {
    /// Decode the syndrome `esr`; `far` is the fault address register.
    pub fn from_esr(esr: u32, far: u64) -> (r: CpuException)
        ensures
            ({
                let ec = exception_class(esr);
                r == if ec == 0x00 {
                    CpuException::Unknown(esr)
                } else if ec == 0x11 || ec == 0x15 {
                    CpuException::SvcInstruction
                } else if ec == 0x12 || ec == 0x16 {
                    CpuException::HvcInstruction
                } else if ec == 0x13 || ec == 0x17 {
                    CpuException::SmcInstruction
                } else if ec == 0x20 || ec == 0x21 {
                    CpuException::InstructionAbort(far, esr)
                } else if ec == 0x22 {
                    CpuException::PCAlignment
                } else if ec == 0x24 || ec == 0x25 {
                    CpuException::DataAbort(far, esr)
                } else if ec == 0x26 {
                    CpuException::StackAlignment
                } else if ec == 0x28 || ec == 0x2C {
                    CpuException::FloatingPointException
                } else if ec == 0x2F {
                    CpuException::SError
                } else {
                    CpuException::NotImplemented(esr)
                }
            }),
    {
        let ec = esr >> 26u32;
        match ec {
            0x00 => CpuException::Unknown(esr),
            0x11 => CpuException::SvcInstruction,
            0x12 => CpuException::HvcInstruction,
            0x13 => CpuException::SmcInstruction,
            0x15 => CpuException::SvcInstruction,
            0x16 => CpuException::HvcInstruction,
            0x17 => CpuException::SmcInstruction,
            0x20 | 0x21 => CpuException::InstructionAbort(far, esr),
            0x22 => CpuException::PCAlignment,
            0x24 | 0x25 => CpuException::DataAbort(far, esr),
            0x26 => CpuException::StackAlignment,
            0x28 | 0x2C => CpuException::FloatingPointException,
            0x2F => CpuException::SError,
            _ => CpuException::NotImplemented(esr),
        }
    }
}

/// The kind of an instruction or data abort, from its fault status code.
#[derive(PartialEq, Eq, Structural, Clone, Copy, Debug)]
pub enum FaultKind {
    /// With the lookup level.
    AddressSize(u32),
    Translation(u32),
    AccessFlag(u32),
    Permission(u32),
    ExternalAbort,
    ParityError,
    ExternalAbortOnTableWalk(u32),
    ParityErrorOnTableWalk(u32),
    Alignment,
    TlbConflict,
    Unknown,
}

/// The kind of fault that the syndrome `esr` of an abort reports.
pub open spec fn fault_kind_spec(esr: u32) -> FaultKind {
    let iss = esr & 0x1FFFFFF;
    let ll = iss & 0b11;
    let code = (iss >> 2u32) & 0b1111;
    if code == 0 {
        FaultKind::AddressSize(ll)
    } else if code == 1 {
        FaultKind::Translation(ll)
    } else if code == 2 {
        FaultKind::AccessFlag(ll)
    } else if code == 3 {
        FaultKind::Permission(ll)
    } else if code == 4 && ll == 0 {
        FaultKind::ExternalAbort
    } else if code == 6 && ll == 0 {
        FaultKind::ParityError
    } else if code == 5 {
        FaultKind::ExternalAbortOnTableWalk(ll)
    } else if code == 7 && ll == 0 {
        FaultKind::ParityErrorOnTableWalk(ll)
    } else if code == 8 && ll == 1 {
        FaultKind::Alignment
    } else if code == 12 && ll == 0 {
        FaultKind::TlbConflict
    } else {
        FaultKind::Unknown
    }
}

/// Decode the fault status code of the syndrome `esr` of an abort.
pub fn fault_kind(esr: u32) -> (r: FaultKind)
    ensures
        r == fault_kind_spec(esr),
{
    let iss = esr & 0x1FFFFFF;
    let ll = iss & 0b11;
    let code = (iss >> 2u32) & 0b1111;
    if code == 0 {
        FaultKind::AddressSize(ll)
    } else if code == 1 {
        FaultKind::Translation(ll)
    } else if code == 2 {
        FaultKind::AccessFlag(ll)
    } else if code == 3 {
        FaultKind::Permission(ll)
    } else if code == 4 && ll == 0 {
        FaultKind::ExternalAbort
    } else if code == 6 && ll == 0 {
        FaultKind::ParityError
    } else if code == 5 {
        FaultKind::ExternalAbortOnTableWalk(ll)
    } else if code == 7 && ll == 0 {
        FaultKind::ParityErrorOnTableWalk(ll)
    } else if code == 8 && ll == 1 {
        FaultKind::Alignment
    } else if code == 12 && ll == 0 {
        FaultKind::TlbConflict
    } else {
        FaultKind::Unknown
    }
}

/// Whether a data abort was caused by a write (or cache maintenance / address translation).
pub fn abort_caused_by_write(esr: u32) -> (r: bool)
    ensures
        r == (((esr & 0x1FFFFFF) >> 6u32) & 1 == 1),
{
    ((esr & 0x1FFFFFF) >> 6u32) & 1 == 1
}

/// The digits `'0'..'9'` followed by the six letters, in upper or lower case.
pub open spec fn digit_chars(upper: bool) -> Seq<char> {
    if upper {
        seq!['0', '1', '2', '3', '4', '5', '6', '7', '8', '9', 'A', 'B', 'C', 'D', 'E', 'F']
    } else {
        seq!['0', '1', '2', '3', '4', '5', '6', '7', '8', '9', 'a', 'b', 'c', 'd', 'e', 'f']
    }
}

/// The digits of `v` written in base `radix`, most significant first, without leading zeros
/// (zero is one digit).
pub open spec fn radix_digits(v: nat, radix: nat, upper: bool) -> Seq<char>
    decreases v,
{
    if radix < 2 || v < radix {
        seq![digit_chars(upper)[v as int]]
    } else {
        proof {
            assert(v / radix < v) by (nonlinear_arith)
                requires
                    radix >= 2,
                    v >= radix,
            ;
        }
        radix_digits(v / radix, radix, upper).push(digit_chars(upper)[(v % radix) as int])
    }
}

/// `s` with zeros in front up to `width` characters.
pub open spec fn zero_padded(s: Seq<char>, width: nat) -> Seq<char> {
    if s.len() < width {
        Seq::new((width - s.len()) as nat, |i: int| '0') + s
    } else {
        s
    }
}

/// A number in upper case hexadecimal with the `0x` prefix, zero padded to `width` digits.
pub open spec fn hex_upper(v: nat, width: nat) -> Seq<char> {
    "0x"@ + zero_padded(radix_digits(v, 16, true), width)
}

/// An address as a pointer is written: `0x` and lower case hexadecimal.
pub open spec fn pointer_text(v: nat) -> Seq<char> {
    "0x"@ + radix_digits(v, 16, false)
}

/// The description of the fault that the syndrome `esr` of an abort reports.
pub open spec fn fault_text(esr: u32) -> Seq<char> {
    match fault_kind_spec(esr) {
        FaultKind::AddressSize(ll) => "Address size fault LL="@ + radix_digits(ll as nat, 10, false),
        FaultKind::Translation(ll) => "Translation fault LL="@ + radix_digits(ll as nat, 10, false),
        FaultKind::AccessFlag(ll) => "Access Flag fault LL="@ + radix_digits(ll as nat, 10, false),
        FaultKind::Permission(ll) => "Permission fault LL="@ + radix_digits(ll as nat, 10, false),
        FaultKind::ExternalAbort => "External abort"@,
        FaultKind::ParityError => "Parity error"@,
        FaultKind::ExternalAbortOnTableWalk(ll) => "External abort on table walk LL="@
            + radix_digits(ll as nat, 10, false),
        FaultKind::ParityErrorOnTableWalk(ll) => "Parity error on table walk LL="@ + radix_digits(
            ll as nat,
            10,
            false,
        ),
        FaultKind::Alignment => "Alignment fault"@,
        FaultKind::TlbConflict => "TLB Conflict fault"@,
        FaultKind::Unknown => "Unkown fault ESR_EL1: "@ + hex_upper(esr as nat, 0),
    }
}

/// The text that describes the exception `e`.
pub open spec fn exception_text(e: CpuException) -> Seq<char> {
    "Cpu exception: "@ + match e {
        CpuException::Unknown(esr) => "Unkown Exception ESR: "@ + hex_upper(esr as nat, 8),
        CpuException::SvcInstruction => "SVC Instruction Exception"@,
        CpuException::HvcInstruction => "HvcInstruction Exception"@,
        CpuException::SmcInstruction => "SmcInstruction Exception"@,
        CpuException::InstructionAbort(far, esr) => "Instruction Abort at "@ + pointer_text(
            far as nat,
        ) + ": "@ + fault_text(esr),
        CpuException::PCAlignment => "PC Alignment Exception"@,
        CpuException::DataAbort(far, esr) => "Data Abort at "@ + pointer_text(far as nat) + ": "@
            + fault_text(esr) + " caused by a "@ + if ((esr & 0x1FFFFFF) >> 6u32) & 1 == 1 {
            "write operation or cache maintenance/address translation"@
        } else {
            "read operation"@
        },
        CpuException::StackAlignment => "Stack Alignment Exception"@,
        CpuException::FloatingPointException => "Floating Point Exception"@,
        CpuException::SError => "SError Exception"@,
        CpuException::NotImplemented(esr) => "Unimplemented Exception: ESR_EL1: "@ + hex_upper(
            esr as nat,
            0,
        ) + " EC: "@ + hex_upper(exception_class(esr) as nat, 0) + " ISS: "@ + "0b"@
            + zero_padded(radix_digits((esr & 0x1FFFFFF) as nat, 2, false), 23),
    }
}

/// Append the digits of `v` in base `radix` to `out`.
fn append_digits(out: &mut String, v: u64, radix: u64, upper: bool)
    requires
        2 <= radix <= 16,
    ensures
        final(out)@ == old(out)@ + radix_digits(v as nat, radix as nat, upper),
    decreases v,
{
    if v >= radix {
        append_digits(out, v / radix, radix, upper);
    }
    let d = (v % radix) as usize;
    let table = if upper {
        "0123456789ABCDEF"
    } else {
        "0123456789abcdef"
    };
    proof {
        reveal_strlit("0123456789ABCDEF");
        reveal_strlit("0123456789abcdef");
        assert(table@ =~= digit_chars(upper));
    }
    out.append(table.substring_char(d, d + 1));
    proof {
        assert(table@.subrange(d as int, d + 1) =~= seq![digit_chars(upper)[d as int]]);
    }
}

/// Append the digits of `v` in base `radix`, zero padded to `width`, to `out`.
fn append_padded(out: &mut String, v: u64, radix: u64, upper: bool, width: usize)
    requires
        2 <= radix <= 16,
    ensures
        final(out)@ == old(out)@ + zero_padded(radix_digits(v as nat, radix as nat, upper), width as nat),
{
    let ghost start = out@;
    let mut digits = String::new();
    append_digits(&mut digits, v, radix, upper);
    let n = digits.as_str().unicode_len();
    let mut i = n;
    while i < width
        invariant
            n <= i,
            i <= width || i == n,
            out@ == start + Seq::new((i - n) as nat, |k: int| '0'),
        decreases width - i,
    {
        out.append("0");
        proof {
            reveal_strlit("0");
            assert(start + Seq::new((i + 1 - n) as nat, |k: int| '0') =~= start + Seq::new(
                (i - n) as nat,
                |k: int| '0',
            ) + "0"@);
        }
        i = i + 1;
    }
    out.append(digits.as_str());
    proof {
        let d = radix_digits(v as nat, radix as nat, upper);
        if n < width {
            assert(out@ =~= start + zero_padded(d, width as nat));
        } else {
            assert(out@ =~= start + zero_padded(d, width as nat));
        }
    }
}

/// Append the description of the fault in the syndrome `esr` to `out`.
fn append_fault_text(out: &mut String, esr: u32)
    ensures
        final(out)@ == old(out)@ + fault_text(esr),
{
    let iss = esr & 0x1FFFFFF;
    let ghost start = out@;
    match fault_kind(esr) {
        FaultKind::AddressSize(ll) => {
            out.append("Address size fault LL=");
            append_digits(out, ll as u64, 10, false);
        },
        FaultKind::Translation(ll) => {
            out.append("Translation fault LL=");
            append_digits(out, ll as u64, 10, false);
        },
        FaultKind::AccessFlag(ll) => {
            out.append("Access Flag fault LL=");
            append_digits(out, ll as u64, 10, false);
        },
        FaultKind::Permission(ll) => {
            out.append("Permission fault LL=");
            append_digits(out, ll as u64, 10, false);
        },
        FaultKind::ExternalAbort => out.append("External abort"),
        FaultKind::ParityError => out.append("Parity error"),
        FaultKind::ExternalAbortOnTableWalk(ll) => {
            out.append("External abort on table walk LL=");
            append_digits(out, ll as u64, 10, false);
        },
        FaultKind::ParityErrorOnTableWalk(ll) => {
            out.append("Parity error on table walk LL=");
            append_digits(out, ll as u64, 10, false);
        },
        FaultKind::Alignment => out.append("Alignment fault"),
        FaultKind::TlbConflict => out.append("TLB Conflict fault"),
        FaultKind::Unknown => {
            out.append("Unkown fault ESR_EL1: ");
            out.append("0x");
            append_padded(out, esr as u64, 16, true, 0);
        },
    }
    assert(out@ =~= start + fault_text(esr));
}

impl CpuException {
    /// The text that describes this exception.
    pub fn message(&self) -> (r: String)
        ensures
            r@ == exception_text(*self),
    {
        let mut out = String::from_str("Cpu exception: ");
        let ghost start = out@;
        match *self {
            CpuException::Unknown(esr) => {
                out.append("Unkown Exception ESR: ");
                out.append("0x");
                append_padded(&mut out, esr as u64, 16, true, 8);
            },
            CpuException::SvcInstruction => out.append("SVC Instruction Exception"),
            CpuException::HvcInstruction => out.append("HvcInstruction Exception"),
            CpuException::SmcInstruction => out.append("SmcInstruction Exception"),
            CpuException::InstructionAbort(far, esr) => {
                out.append("Instruction Abort at ");
                out.append("0x");
                append_digits(&mut out, far, 16, false);
                out.append(": ");
                append_fault_text(&mut out, esr);
            },
            CpuException::PCAlignment => out.append("PC Alignment Exception"),
            CpuException::DataAbort(far, esr) => {
                out.append("Data Abort at ");
                out.append("0x");
                append_digits(&mut out, far, 16, false);
                out.append(": ");
                append_fault_text(&mut out, esr);
                out.append(" caused by a ");
                if abort_caused_by_write(esr) {
                    out.append("write operation or cache maintenance/address translation");
                } else {
                    out.append("read operation");
                }
            },
            CpuException::StackAlignment => out.append("Stack Alignment Exception"),
            CpuException::FloatingPointException => out.append("Floating Point Exception"),
            CpuException::SError => out.append("SError Exception"),
            CpuException::NotImplemented(esr) => {
                out.append("Unimplemented Exception: ESR_EL1: ");
                out.append("0x");
                append_padded(&mut out, esr as u64, 16, true, 0);
                out.append(" EC: ");
                out.append("0x");
                append_padded(&mut out, (esr >> 26u32) as u64, 16, true, 0);
                out.append(" ISS: ");
                out.append("0b");
                append_padded(&mut out, (esr & 0x1FFFFFF) as u64, 2, false, 23);
            },
        }
        assert(out@ =~= exception_text(*self));
        out
    }
}

/// A saved state of the DAIF register: the D, A, I, F mask bits in bits 3:0, bit 7 always set
/// so that the value is never zero.
#[derive(PartialEq, Eq, Structural, Clone, Copy, Debug)]
pub struct DaifState(pub u8);

impl DaifState {
    /// The state held by the DAIF register value `v`.
    pub fn from_u64(v: u64) -> (r: Self)
        ensures
            r.0 == ((v >> 6u64) as u8) | 0x80,
            r.0 != 0,
    {
        let b = (v >> 6u64) as u8;
        assert((b | 0x80u8) != 0) by (bit_vector);
        Self(b | 0x80)
    }

    /// The DAIF register value that restores this state.
    pub fn into_u64(self) -> (r: u64)
        ensures
            r == ((self.0 & 0x7F) as u64) << 6u64,
    {
        ((self.0 & 0x7F) as u64) << 6u64
    }

    /// Whether every exception is masked.
    pub fn all_masked(self) -> (r: bool)
        ensures
            r == (self.0 & 0b1111 == 0b1111),
    {
        self.0 & 0b1111 == 0b1111
    }
}

/// `s` when `b` holds, else nothing.
pub open spec fn text_if(b: bool, s: Seq<char>) -> Seq<char> {
    if b {
        s
    } else {
        Seq::empty()
    }
}

/// The text that describes the saved DAIF state `s`: the exceptions that are not masked.
pub open spec fn daif_text(s: u8) -> Seq<char> {
    let val = s & 0x7F;
    let (f, i, a, d) = (val & 1 == 0, val & 2 == 0, val & 4 == 0, val & 8 == 0);
    "IrqState("@ + if val == 0b1111 {
        "All masked)"@
    } else {
        text_if(f, "FIQ"@ + text_if(i, ", "@)) + text_if(i, "IRQ"@ + text_if(a, ", "@)) + text_if(
            a,
            "SError"@ + text_if(d, ", "@),
        ) + text_if(d, "Debug"@) + ")"@
    }
}

impl DaifState {
    /// The text that describes this state.
    pub fn message(&self) -> (r: String)
        ensures
            r@ == daif_text(self.0),
    {
        let mut out = String::from_str("IrqState(");
        let ghost start = out@;
        let val = self.0 & 0x7F;
        if val == 0b1111 {
            out.append("All masked)");
            assert(out@ =~= daif_text(self.0));
            return out;
        }
        let f = val & 1 == 0;
        let i = val & 2 == 0;
        let a = val & 4 == 0;
        let d = val & 8 == 0;
        if f {
            out.append("FIQ");
            if i {
                out.append(", ");
            }
        }
        let ghost s1 = out@;
        if i {
            out.append("IRQ");
            if a {
                out.append(", ");
            }
        }
        let ghost s2 = out@;
        if a {
            out.append("SError");
            if d {
                out.append(", ");
            }
        }
        let ghost s3 = out@;
        if d {
            out.append("Debug");
        }
        out.append(")");
        proof {
            assert(s1 =~= start + text_if(f, "FIQ"@ + text_if(i, ", "@)));
            assert(s2 =~= s1 + text_if(i, "IRQ"@ + text_if(a, ", "@)));
            assert(s3 =~= s2 + text_if(a, "SError"@ + text_if(d, ", "@)));
            assert(out@ =~= daif_text(self.0));
        }
        out
    }
}

/// Saving the DAIF register in a `DaifState` and restoring it gives back the register value.
pub proof fn lemma_daif_roundtrip(v: u64)
    requires
        v & !0x3C0u64 == 0,
    ensures
        ((((((v >> 6u64) as u8) | 0x80u8) & 0x7Fu8) as u64) << 6u64) == v,
{
    assert(((((((v >> 6u64) as u8) | 0x80u8) & 0x7Fu8) as u64) << 6u64) == v) by (bit_vector)
        requires
            v & !0x3C0u64 == 0,
    ;
}

/// Count one more level of disabled exceptions in the per CPU `depth`. Returns whether the
/// exceptions must be masked now (the depth was 0).
pub fn disable_exceptions_depth(depth: &mut u32) -> (r: bool)
    ensures
        *final(depth) == (*old(depth)).wrapping_add(1),
        r == (*old(depth) == 0),
{
    let d = *depth;
    *depth = d.wrapping_add(1);
    d == 0
}

/// Count one less level of disabled exceptions in the per CPU `depth`. Returns whether the
/// exceptions must be unmasked now (the depth was 1).
pub fn restore_exceptions_depth(depth: &mut u32) -> (r: bool)
    ensures
        *final(depth) == (*old(depth)).wrapping_sub(1),
        r == (*old(depth) == 1),
{
    let d = *depth;
    *depth = d.wrapping_sub(1);
    d == 1
}

/// A restore undoes a disable: the depth comes back, and the outermost pair is the one that
/// masks and unmasks the exceptions.
pub proof fn lemma_depth_roundtrip(d: u32)
    requires
        d < u32::MAX,
    ensures
        d.wrapping_add(1).wrapping_sub(1) == d,
        (d == 0) == (d.wrapping_add(1) == 1),
{
}

} // verus!
