use vstd::prelude::*;

use crate::error::ModuleLoadError;
use crate::fs::mount::MountTable;
use crate::fs::open::{can_open, get_node, open_spec};
use crate::fs::vfs::{DirNode, FileNode, FileOrDir};
use crate::memory::PAGE_SIZE;
use crate::symbols::SymbolTable;
use crate::utils::{bytes_eq, le_u32, le_u64, read_le_u32};
use vstd::string::StringSliceAdditionalSpecFns;

verus! {

#[verifier::external_type_specification]
#[verifier::external_body]
pub struct ExElfParseError(elf::ParseError);

/// A section header of an ELF file.
#[derive(Clone, Copy, Debug, PartialEq, Eq, Structural)]
pub struct Section {
    pub sh_name: u32,
    pub sh_type: u32,
    pub sh_flags: u64,
    pub sh_addr: u64,
    pub sh_offset: u64,
    pub sh_size: u64,
    pub sh_link: u32,
    pub sh_info: u32,
    pub sh_addralign: u64,
    pub sh_entsize: u64,
}

/// A symbol of an ELF symbol table.
#[derive(Clone, Copy, Debug, PartialEq, Eq, Structural)]
pub struct ElfSymbol {
    pub st_name: u32,
    pub st_shndx: u16,
    pub st_info: u8,
    pub st_other: u8,
    pub st_value: u64,
    pub st_size: u64,
}

/// A relocation with an addend.
#[derive(Clone, Copy, Debug, PartialEq, Eq, Structural)]
pub struct ElfRela {
    pub r_offset: u64,
    pub r_sym: u32,
    pub r_type: u32,
    pub r_addend: i64,
}

/// Whether `elf::ElfBytes::minimal_parse` accepts `data` as a little endian ELF file.
pub uninterp spec fn elf_parse_ok(data: Seq<u8>) -> bool;

/// The section headers `elf` reads from `data`, if the file has a section header table.
pub uninterp spec fn elf_sections(data: Seq<u8>) -> Option<Seq<Section>>;

/// The symbols of the `.symtab` of `data` as `elf` reads them: `None` on a parse error,
/// `Some(None)` without a symbol table.
pub uninterp spec fn elf_symbols(data: Seq<u8>) -> Option<Option<Seq<ElfSymbol>>>;

/// The string at `offset` in the string table of the symbol table of `data`, as `elf` reads
/// it: `None` on an error, `Some(None)` without a symbol table.
pub uninterp spec fn elf_symbol_string(data: Seq<u8>, offset: usize) -> Option<Option<Seq<u8>>>;

/// The relocations `elf` reads from the section `section` of `data`; `None` on an error.
pub uninterp spec fn elf_relas(data: Seq<u8>, section: Section) -> Option<Seq<ElfRela>>;

/// `elf::ElfBytes::<LittleEndian>::minimal_parse`: whether `data` parses as an ELF file.
#[verifier::external_body]
fn elf_parse(data: &[u8]) -> (r: Result<(), elf::ParseError>)
    ensures
        r is Ok <==> elf_parse_ok(data@),
{
    match elf::ElfBytes::<elf::endian::LittleEndian>::minimal_parse(data) {
        Ok(_) => Ok(()),
        Err(e) => Err(e),
    }
}

/// `elf::ElfBytes::section_headers` of the parsed `data`: its section headers, converted field
/// by field.
#[verifier::external_body]
fn elf_section_headers(data: &[u8]) -> (r: Option<Vec<Section>>)
    requires
        elf_parse_ok(data@),
    ensures
        match r {
            Some(v) => elf_sections(data@) == Some(v@),
            None => elf_sections(data@) is None,
        },
{
    let file = elf::ElfBytes::<elf::endian::LittleEndian>::minimal_parse(data).ok()?;
    let mut v = Vec::new();
    for s in file.section_headers()?.iter() {
        v.push(Section { sh_name: s.sh_name, sh_type: s.sh_type, sh_flags: s.sh_flags, sh_addr: s.sh_addr,
            sh_offset: s.sh_offset, sh_size: s.sh_size, sh_link: s.sh_link, sh_info: s.sh_info,
            sh_addralign: s.sh_addralign, sh_entsize: s.sh_entsize });
    }
    Some(v)
}

/// `elf::ElfBytes::symbol_table` of the parsed `data`: its symbols, converted field by field.
#[verifier::external_body]
fn elf_symbol_table(data: &[u8]) -> (r: Result<Option<Vec<ElfSymbol>>, elf::ParseError>)
    requires
        elf_parse_ok(data@),
    ensures
        match r {
            Ok(Some(v)) => elf_symbols(data@) == Some(Some(v@)),
            Ok(None) => elf_symbols(data@) == Some(None::<Seq<ElfSymbol>>),
            Err(_) => elf_symbols(data@) is None,
        },
{
    let file = elf::ElfBytes::<elf::endian::LittleEndian>::minimal_parse(data)?;
    let Some((symtab, _)) = file.symbol_table()? else { return Ok(None) };
    let mut v = Vec::new();
    for s in symtab.iter() {
        v.push(ElfSymbol { st_name: s.st_name, st_shndx: s.st_shndx, st_info: s.st_info,
            st_other: s.st_other, st_value: s.st_value, st_size: s.st_size });
    }
    Ok(Some(v))
}

/// `elf::string_table::StringTable::get` on the string table of the symbol table of `data`.
#[verifier::external_body]
fn elf_string(data: &[u8], offset: usize) -> (r: Result<Option<&str>, elf::ParseError>)
    requires
        elf_parse_ok(data@),
    ensures
        match r {
            Ok(Some(s)) => elf_symbol_string(data@, offset) == Some(Some(s.spec_bytes())),
            Ok(None) => elf_symbol_string(data@, offset) == Some(None::<Seq<u8>>),
            Err(_) => elf_symbol_string(data@, offset) is None,
        },
{
    let file = elf::ElfBytes::<elf::endian::LittleEndian>::minimal_parse(data)?;
    let Some((_, strtab)) = file.symbol_table()? else { return Ok(None) };
    Ok(Some(strtab.get(offset)?))
}

/// `elf::ElfBytes::section_data_as_relas` for the section `s` of the parsed `data`: its
/// relocations, converted field by field.
#[verifier::external_body]
fn elf_section_relas(data: &[u8], s: &Section) -> (r: Result<Vec<ElfRela>, elf::ParseError>)
    requires
        elf_parse_ok(data@),
    ensures
        match r {
            Ok(v) => elf_relas(data@, *s) == Some(v@),
            Err(_) => elf_relas(data@, *s) is None,
        },
{
    let file = elf::ElfBytes::<elf::endian::LittleEndian>::minimal_parse(data)?;
    let shdr = elf::section::SectionHeader { sh_name: s.sh_name, sh_type: s.sh_type, sh_flags: s.sh_flags,
        sh_addr: s.sh_addr, sh_offset: s.sh_offset, sh_size: s.sh_size, sh_link: s.sh_link,
        sh_info: s.sh_info, sh_addralign: s.sh_addralign, sh_entsize: s.sh_entsize };
    let mut v = Vec::new();
    for r in file.section_data_as_relas(&shdr)? {
        v.push(ElfRela { r_offset: r.r_offset, r_sym: r.r_sym, r_type: r.r_type, r_addend: r.r_addend });
    }
    Ok(v)
}

/// The section is loaded in memory (`SHF_ALLOC`).
pub const SHF_ALLOC: u64 = 2;

/// The section holds relocations with addends.
pub const SHT_RELA: u32 = 4;

/// The symbol is not defined in the file.
pub const SHN_UNDEF: u16 = 0;

/// Section indices from here on are reserved.
pub const SHN_LORESERVE: u16 = 0xFF00;

/// AArch64 relocation types.
pub const R_AARCH64_ABS64: u32 = 257;
pub const R_AARCH64_MOVW_UABS_G0_NC: u32 = 264;
pub const R_AARCH64_MOVW_UABS_G1_NC: u32 = 266;
pub const R_AARCH64_MOVW_UABS_G2_NC: u32 = 268;
pub const R_AARCH64_MOVW_UABS_G3: u32 = 269;
pub const R_AARCH64_LD_PREL_LO19: u32 = 273;
pub const R_AARCH64_JUMP26: u32 = 282;
pub const R_AARCH64_CALL26: u32 = 283;
pub const R_AARCH64_GLOB_DAT: u32 = 1025;

/// The largest memory a module can take, in bytes: the modules space in whole pages. No larger
/// module can be allocated there.
pub const MAX_MODULE_SIZE: u64 = 0xFFFF_F000;

pub const SIZE_128M: i64 = 0x800_0000;
pub const SIZE_1M: i64 = 0x10_0000;

/// The mask of an immediate of `size` bits shifted left by `shl`.
pub open spec fn imm_mask(size: u32, shl: u32) -> u32 {
    (((1u32 << size) - 1) as u32) << shl
}

/// Encode an immediate of `size` bits into `instruction`, at bit `shl`.
/// Return `Err(())` if `imm_value` doesn't fit in the immediate and `check_overflow` is set;
/// the instruction is then left as it is.
pub fn encode_immediate(instruction: &mut u32, size: u32, shl: u32, imm_value: u32, check_overflow: bool) -> (r:
    Result<(), ()>)
    requires
        0 < size < 32,
        shl < 32,
    ensures
        ((imm_value << shl) & !imm_mask(size, shl) != 0 && check_overflow) ==> r is Err && *final(instruction)
            == *old(instruction),
        !((imm_value << shl) & !imm_mask(size, shl) != 0 && check_overflow) ==> r is Ok && *final(instruction)
            == (*old(instruction) & !imm_mask(size, shl)) | ((imm_value << shl) & imm_mask(size, shl)),
{
    assert(1u32 << size >= 1) by (bit_vector)
        requires
            size < 32,
    ;
    let mask = ((1u32 << size) - 1) << shl;
    if (imm_value << shl) & !mask != 0 && check_overflow {
        return Err(());
    }
    *instruction = *instruction & !mask;
    *instruction = *instruction | ((imm_value << shl) & mask);
    Ok(())
}

/// `x` rounded up to a multiple of `a`.
pub open spec fn next_multiple_of(x: int, a: int) -> int {
    if x % a == 0 {
        x
    } else {
        x + (a - x % a)
    }
}

/// Where the first `n` sections are placed in the module memory: the size so far, and the
/// offset of each loaded section. `None` if a loaded section has no alignment or the size
/// overflows.
pub open spec fn layout_spec(secs: Seq<Section>, n: int) -> Option<(int, Seq<Option<u64>>)>
    decreases n,
{
    if n <= 0 {
        Some((0, Seq::empty()))
    } else {
        match layout_spec(secs, n - 1) {
            None => None,
            Some((cur, offs)) => {
                let s = secs[n - 1];
                if s.sh_flags & SHF_ALLOC != 0 {
                    if s.sh_addralign == 0 {
                        None
                    } else {
                        let off = next_multiple_of(cur, s.sh_addralign as int);
                        if off + s.sh_size > MAX_MODULE_SIZE {
                            None
                        } else {
                            Some((off + s.sh_size, offs.push(Some(off as u64))))
                        }
                    }
                } else {
                    Some((cur, offs.push(None)))
                }
            },
        }
    }
}

/// Some loaded section has no alignment.
pub open spec fn zero_alignment(secs: Seq<Section>) -> bool {
    exists|i: int| 0 <= i < secs.len() && #[trigger] secs[i].sh_flags & SHF_ALLOC != 0 && secs[i].sh_addralign == 0
}

/// Why the sections have no layout: a loaded section without alignment, else a module too
/// large for the modules space.
pub open spec fn layout_error(secs: Seq<Section>) -> ModuleLoadError {
    if zero_alignment(secs) {
        ModuleLoadError::LoadingError("Invalid section layout")
    } else {
        ModuleLoadError::OutOfMemory
    }
}

/// Whether some loaded section has no alignment.
pub fn has_zero_alignment(secs: &Vec<Section>) -> (r: bool)
    ensures
        r == zero_alignment(secs@),
{
    let mut i: usize = 0;
    while i < secs.len()
        invariant
            i <= secs@.len(),
            forall|k: int| 0 <= k < i ==> !(#[trigger] secs@[k].sh_flags & SHF_ALLOC != 0 && secs@[k].sh_addralign == 0),
        decreases secs@.len() - i,
    {
        if secs[i].sh_flags & SHF_ALLOC != 0 && secs[i].sh_addralign == 0 {
            return true;
        }
        i += 1;
    }
    false
}

/// Where the sections are placed in the module memory (see `layout_spec`).
pub fn layout(secs: &Vec<Section>) -> (r: Option<(u64, Vec<Option<u64>>)>)
    ensures
        match layout_spec(secs@, secs@.len() as int) {
            None => r is None,
            Some((size, offs)) => r matches Some((s, o)) && s == size && o@ == offs,
        },
{
    let mut cur: u64 = 0;
    let mut offs: Vec<Option<u64>> = Vec::new();
    let mut i: usize = 0;
    while i < secs.len()
        invariant
            i <= secs@.len(),
            cur <= MAX_MODULE_SIZE,
            layout_spec(secs@, i as int) == Some((cur as int, offs@)),
        decreases secs@.len() - i,
    {
        let s = secs[i];
        if s.sh_flags & SHF_ALLOC != 0 {
            if s.sh_addralign == 0 {
                proof {
                    lemma_layout_none_stays(secs@, i + 1, secs@.len() as int);
                }
                return None;
            }
            let rem = cur % s.sh_addralign;
            let pad = if rem == 0 {
                0
            } else {
                s.sh_addralign - rem
            };
            if pad > MAX_MODULE_SIZE {
                proof {
                    assert(layout_spec(secs@, i + 1) is None);
                    lemma_layout_none_stays(secs@, i + 1, secs@.len() as int);
                }
                return None;
            }
            let off = cur + pad;
            if s.sh_size > MAX_MODULE_SIZE || off > MAX_MODULE_SIZE - s.sh_size {
                proof {
                    assert(layout_spec(secs@, i + 1) is None);
                    lemma_layout_none_stays(secs@, i + 1, secs@.len() as int);
                }
                return None;
            }
            offs.push(Some(off));
            cur = off + s.sh_size;
        } else {
            offs.push(None);
        }
        i += 1;
    }
    Some((cur, offs))
}

proof fn lemma_layout_bounds(secs: Seq<Section>, n: int)
    requires
        0 <= n,
        layout_spec(secs, n) is Some,
    ensures
        ({
            let (size, offs) = layout_spec(secs, n).unwrap();
            &&& 0 <= size <= MAX_MODULE_SIZE
            &&& offs.len() == n
            &&& forall|i: int| 0 <= i < n ==> (#[trigger] offs[i] matches Some(o) ==> o <= size)
        }),
    decreases n,
{
    if n > 0 {
        lemma_layout_bounds(secs, n - 1);
        let (size, offs) = layout_spec(secs, n).unwrap();
        let (size0, offs0) = layout_spec(secs, n - 1).unwrap();
        assert forall|i: int| 0 <= i < n implies (#[trigger] offs[i] matches Some(o) ==> o <= size) by {
            if i < n - 1 {
                assert(offs[i] == offs0[i]);
            }
        }
    }
}

proof fn lemma_layout_none_stays(secs: Seq<Section>, i: int, n: int)
    requires
        0 <= i <= n,
        layout_spec(secs, i) is None,
    ensures
        layout_spec(secs, n) is None,
    decreases n - i,
{
    if i < n {
        lemma_layout_none_stays(secs, i, n - 1);
    }
}

/// The sections once the loaded ones are given their address in the module memory at `base`.
pub open spec fn placed_spec(secs: Seq<Section>, offs: Seq<Option<u64>>, base: u64) -> Seq<Section> {
    Seq::new(
        secs.len(),
        |i: int|
            match offs[i] {
                Some(off) => Section { sh_addr: (base + off) as u64, ..secs[i] },
                None => secs[i],
            },
    )
}

/// Give each loaded section its address in the module memory at `base`.
pub fn place_sections(secs: &mut Vec<Section>, offs: &Vec<Option<u64>>, base: u64)
    requires
        offs@.len() == old(secs)@.len(),
        forall|i: int| 0 <= i < offs@.len() ==> (#[trigger] offs@[i] matches Some(o) ==> base + o <= u64::MAX),
    ensures
        final(secs)@ == placed_spec(old(secs)@, offs@, base),
{
    let mut i: usize = 0;
    while i < secs.len()
        invariant
            i <= secs@.len() == offs@.len() == old(secs)@.len(),
            forall|k: int| 0 <= k < offs@.len() ==> (#[trigger] offs@[k] matches Some(o) ==> base + o <= u64::MAX),
            forall|k: int| 0 <= k < i ==> #[trigger] secs@[k] == placed_spec(old(secs)@, offs@, base)[k],
            forall|k: int| i <= k < secs@.len() ==> #[trigger] secs@[k] == old(secs)@[k],
        decreases secs@.len() - i,
    {
        if let Some(off) = offs[i] {
            let mut s = secs[i];
            s.sh_addr = base + off;
            secs.set(i, s);
        }
        i += 1;
    }
    proof {
        assert(secs@ =~= placed_spec(old(secs)@, offs@, base));
    }
}

/// The module memory, `total` bytes, once the first `n` loaded sections are copied in from the
/// file `data`; `None` if the bytes of one lie outside the file or its place outside the memory.
pub open spec fn image_spec(data: Seq<u8>, secs: Seq<Section>, offs: Seq<Option<u64>>, total: int, n: int) -> Option<
    Seq<u8>,
>
    decreases n,
{
    if n <= 0 {
        Some(Seq::new(total as nat, |j: int| 0u8))
    } else {
        match image_spec(data, secs, offs, total, n - 1) {
            None => None,
            Some(prev) => match offs[n - 1] {
                None => Some(prev),
                Some(off) => {
                    let s = secs[n - 1];
                    if s.sh_offset + s.sh_size > data.len() || off + s.sh_size > total {
                        None
                    } else {
                        Some(
                            Seq::new(
                                total as nat,
                                |j: int|
                                    if off <= j < off + s.sh_size {
                                        data[s.sh_offset + j - off]
                                    } else {
                                        prev[j]
                                    },
                            ),
                        )
                    }
                },
            },
        }
    }
}

proof fn lemma_image_none_stays(data: Seq<u8>, secs: Seq<Section>, offs: Seq<Option<u64>>, total: int, i: int, n: int)
    requires
        0 <= i <= n,
        image_spec(data, secs, offs, total, i) is None,
    ensures
        image_spec(data, secs, offs, total, n) is None,
    decreases n - i,
{
    if i < n {
        lemma_image_none_stays(data, secs, offs, total, i, n - 1);
    }
}

/// The module memory, `total` bytes, with the loaded sections copied in from the file `data`
/// (see `image_spec`).
pub fn build_image(data: &[u8], secs: &Vec<Section>, offs: &Vec<Option<u64>>, total: usize) -> (r: Option<Vec<u8>>)
    requires
        offs@.len() == secs@.len(),
    ensures
        match image_spec(data@, secs@, offs@, total as int, secs@.len() as int) {
            None => r is None,
            Some(img) => r matches Some(v) && v@ == img,
        },
{
    let mut image: Vec<u8> = vec![0u8; total];
    proof {
        assert(image@ =~= Seq::new(total as nat, |j: int| 0u8));
    }
    let mut i: usize = 0;
    while i < secs.len()
        invariant
            i <= secs@.len() == offs@.len(),
            image@.len() == total,
            image_spec(data@, secs@, offs@, total as int, i as int) == Some(image@),
        decreases secs@.len() - i,
    {
        if let Some(off) = offs[i] {
            let s = secs[i];
            if s.sh_offset > data.len() as u64 || s.sh_size > data.len() as u64 - s.sh_offset || off > total as u64
                || s.sh_size > total as u64 - off {
                proof {
                    lemma_image_none_stays(data@, secs@, offs@, total as int, i + 1, secs@.len() as int);
                }
                return None;
            }
            let ghost prev = image@;
            proof {
                assert(data@.len() == data.len());
            }
            let src = s.sh_offset as usize;
            let dst = off as usize;
            let len = s.sh_size as usize;
            let mut k: usize = 0;
            while k < len
                invariant
                    k <= len,
                    data@.len() == data.len(),
                    src + len <= data@.len(),
                    dst + len <= total,
                    image@.len() == total,
                    forall|j: int|
                        0 <= j < total ==> #[trigger] image@[j] == if dst <= j < dst + k {
                            data@[src + j - dst]
                        } else {
                            prev[j]
                        },
                decreases len - k,
            {
                image.set(dst + k, data[src + k]);
                k += 1;
            }
            proof {
                assert(image@ =~= image_spec(data@, secs@, offs@, total as int, i + 1).unwrap());
            }
        }
        i += 1;
    }
    Some(image)
}

/// "init", the symbol a module is started at.
pub open spec fn init_name() -> Seq<u8> {
    seq![0x69u8, 0x6E, 0x69, 0x74]
}

/// The symbols `syms` once the first `n` are resolved, with the address of `init` if it is
/// among them: an undefined named symbol takes the address of the kernel symbol of its name, a
/// symbol of a section is moved by the address of its section.
pub open spec fn resolve_spec(
    data: Seq<u8>,
    secs: Seq<Section>,
    syms: Seq<ElfSymbol>,
    kernel: Map<Seq<u8>, u64>,
    n: int,
) -> Result<(Seq<ElfSymbol>, Option<u64>), ModuleLoadError>
    decreases n,
{
    if n <= 0 {
        Ok((syms, None))
    } else {
        match resolve_spec(data, secs, syms, kernel, n - 1) {
            Err(e) => Err(e),
            Ok((cur, init)) => {
                let sym = syms[n - 1];
                if sym.st_shndx == SHN_UNDEF {
                    if sym.st_name == 0 {
                        Ok((cur, init))
                    } else {
                        match elf_symbol_string(data, sym.st_name as usize) {
                            None => Err(ModuleLoadError::ElfParsingError),
                            Some(None) => Err(ModuleLoadError::LoadingError("No symtab")),
                            Some(Some(name)) => if kernel.contains_key(name) {
                                Ok((cur.update(n - 1, ElfSymbol { st_value: kernel[name], ..sym }), init))
                            } else {
                                Err(ModuleLoadError::KernelSymbolNotFound)
                            },
                        }
                    }
                } else if sym.st_shndx < SHN_LORESERVE {
                    if sym.st_shndx >= secs.len() {
                        Err(ModuleLoadError::LoadingError("Invalid section index"))
                    } else if sym.st_value + secs[sym.st_shndx as int].sh_addr > u64::MAX {
                        Err(ModuleLoadError::LoadingError("Symbol address overflow"))
                    } else {
                        let value = (sym.st_value + secs[sym.st_shndx as int].sh_addr) as u64;
                        match elf_symbol_string(data, sym.st_name as usize) {
                            None => Err(ModuleLoadError::ElfParsingError),
                            Some(None) => Err(ModuleLoadError::LoadingError("No symtab")),
                            Some(Some(name)) => Ok(
                                (
                                    cur.update(n - 1, ElfSymbol { st_value: value, ..sym }),
                                    if name == init_name() {
                                        Some(value)
                                    } else {
                                        init
                                    },
                                ),
                            ),
                        }
                    }
                } else {
                    match elf_symbol_string(data, sym.st_name as usize) {
                        None => Err(ModuleLoadError::ElfParsingError),
                        Some(None) => Err(ModuleLoadError::LoadingError("No symtab")),
                        Some(Some(_)) => Ok((cur, init)),
                    }
                }
            },
        }
    }
}

proof fn lemma_resolve_err_stays(
    data: Seq<u8>,
    secs: Seq<Section>,
    syms: Seq<ElfSymbol>,
    kernel: Map<Seq<u8>, u64>,
    i: int,
    n: int,
)
    requires
        0 <= i <= n,
        resolve_spec(data, secs, syms, kernel, i) is Err,
    ensures
        resolve_spec(data, secs, syms, kernel, n) == resolve_spec(data, secs, syms, kernel, i),
    decreases n - i,
{
    if i < n {
        lemma_resolve_err_stays(data, secs, syms, kernel, i, n - 1);
    }
}

/// The string at `offset` in the symbol string table of `data`, mapped to the error of a load.
fn symbol_name<'a>(data: &'a [u8], offset: u32) -> (r: Result<&'a str, ModuleLoadError>)
    requires
        elf_parse_ok(data@),
    ensures
        match elf_symbol_string(data@, offset as usize) {
            None => r == Err::<&str, ModuleLoadError>(ModuleLoadError::ElfParsingError),
            Some(None) => r == Err::<&str, ModuleLoadError>(ModuleLoadError::LoadingError("No symtab")),
            Some(Some(name)) => r matches Ok(s) && s.spec_bytes() == name,
        },
{
    match elf_string(data, offset as usize) {
        Err(_) => Err(ModuleLoadError::ElfParsingError),
        Ok(None) => Err(ModuleLoadError::LoadingError("No symtab")),
        Ok(Some(s)) => Ok(s),
    }
}

/// Resolve the symbols `syms` of the module `data` whose sections are `secs` (see
/// `resolve_spec`); returns the address of `init` if it is defined.
pub fn resolve_symbols(data: &[u8], secs: &Vec<Section>, syms: &mut Vec<ElfSymbol>, kernel: &SymbolTable) -> (r:
    Result<Option<u64>, ModuleLoadError>)
    requires
        elf_parse_ok(data@),
        kernel.wf(),
    ensures
        match resolve_spec(data@, secs@, old(syms)@, kernel@, old(syms)@.len() as int) {
            Err(e) => r == Err::<Option<u64>, ModuleLoadError>(e),
            Ok((s, init)) => r == Ok::<Option<u64>, ModuleLoadError>(init) && final(syms)@ == s,
        },
{
    let ghost orig = syms@;
    let mut init: Option<u64> = None;
    let mut i: usize = 0;
    let init_bytes: [u8; 4] = [0x69, 0x6E, 0x69, 0x74];
    proof {
        assert(init_bytes@ =~= init_name());
    }
    while i < syms.len()
        invariant
            elf_parse_ok(data@),
            kernel.wf(),
            init_bytes@ == init_name(),
            orig == old(syms)@,
            i <= syms@.len() == orig.len(),
            resolve_spec(data@, secs@, orig, kernel@, i as int) == Ok::<(Seq<ElfSymbol>, Option<u64>), ModuleLoadError>((syms@, init)),
            forall|k: int| i <= k < orig.len() ==> #[trigger] syms@[k] == orig[k],
        decreases syms@.len() - i,
    {
        let sym = syms[i];
        if sym.st_shndx == SHN_UNDEF {
            if sym.st_name != 0 {
                let name = match symbol_name(data, sym.st_name) {
                    Ok(n) => n,
                    Err(e) => {
                        proof {
                            assert(orig[i as int] == sym);
                            assert(resolve_spec(data@, secs@, orig, kernel@, i + 1) == Err::<(Seq<ElfSymbol>, Option<u64>), ModuleLoadError>(e));
                            lemma_resolve_err_stays(data@, secs@, orig, kernel@, i + 1, orig.len() as int);
                        }
                        return Err(e);
                    },
                };
                proof {
                    assert(orig[i as int] == sym);
                }
                match kernel.get(name.as_bytes()) {
                    Some(addr) => {
                        syms.set(i, ElfSymbol { st_value: addr, ..sym });
                    },
                    None => {
                        proof {
                            lemma_resolve_err_stays(data@, secs@, orig, kernel@, i + 1, orig.len() as int);
                        }
                        return Err(ModuleLoadError::KernelSymbolNotFound);
                    },
                }
            }
        } else if sym.st_shndx < SHN_LORESERVE {
            if sym.st_shndx as usize >= secs.len() {
                proof {
                    lemma_resolve_err_stays(data@, secs@, orig, kernel@, i + 1, orig.len() as int);
                }
                return Err(ModuleLoadError::LoadingError("Invalid section index"));
            }
            let addr = secs[sym.st_shndx as usize].sh_addr;
            if sym.st_value > u64::MAX - addr {
                proof {
                    lemma_resolve_err_stays(data@, secs@, orig, kernel@, i + 1, orig.len() as int);
                }
                return Err(ModuleLoadError::LoadingError("Symbol address overflow"));
            }
            let value = sym.st_value + addr;
            syms.set(i, ElfSymbol { st_value: value, ..sym });
            let name = match symbol_name(data, sym.st_name) {
                Ok(n) => n,
                Err(e) => {
                    proof {
                        lemma_resolve_err_stays(data@, secs@, orig, kernel@, i + 1, orig.len() as int);
                    }
                    return Err(e);
                },
            };
            if bytes_eq(name.as_bytes(), init_bytes.as_slice()) {
                init = Some(value);
            }
        } else {
            match symbol_name(data, sym.st_name) {
                Ok(_) => {},
                Err(e) => {
                    proof {
                        lemma_resolve_err_stays(data@, secs@, orig, kernel@, i + 1, orig.len() as int);
                    }
                    return Err(e);
                },
            }
        }
        i += 1;
    }
    Ok(init)
}

/// `s` with the 32 bits value `v` written little endian at `p`.
pub open spec fn put_le_u32(s: Seq<u8>, p: int, v: u32) -> Seq<u8> {
    s.update(p, (v & 0xFF) as u8).update(p + 1, ((v >> 8u32) & 0xFF) as u8).update(
        p + 2,
        ((v >> 16u32) & 0xFF) as u8,
    ).update(p + 3, ((v >> 24u32) & 0xFF) as u8)
}

/// `s` with the 64 bits value `v` written little endian at `p`.
pub open spec fn put_le_u64(s: Seq<u8>, p: int, v: u64) -> Seq<u8> {
    put_le_u32(put_le_u32(s, p, v as u32), p + 4, (v >> 32u64) as u32)
}

fn write_le_u32(s: &mut Vec<u8>, p: usize, v: u32)
    requires
        p + 4 <= old(s)@.len(),
    ensures
        final(s)@ == put_le_u32(old(s)@, p as int, v),
{
    assert(s@.len() == s.len());
    s.set(p, (v & 0xFF) as u8);
    s.set(p + 1, ((v >> 8u32) & 0xFF) as u8);
    s.set(p + 2, ((v >> 16u32) & 0xFF) as u8);
    s.set(p + 3, ((v >> 24u32) & 0xFF) as u8);
}

/// `a + b`, kept between 0 and `u64::MAX`.
pub open spec fn saturating_add_signed_spec(a: u64, b: i64) -> u64 {
    if a + b > u64::MAX {
        u64::MAX
    } else if a + b < 0 {
        0
    } else {
        (a + b) as u64
    }
}

fn saturating_add_signed(a: u64, b: i64) -> (r: u64)
    ensures
        r == saturating_add_signed_spec(a, b),
{
    if b >= 0 {
        let c = b as u64;
        if a > u64::MAX - c {
            u64::MAX
        } else {
            a + c
        }
    } else {
        let c = if b == i64::MIN {
            0x8000_0000_0000_0000u64
        } else {
            (-b) as u64
        };
        if a < c {
            0
        } else {
            a - c
        }
    }
}

/// `a - b`, wrapping around.
pub open spec fn wrap_sub(a: u64, b: u64) -> u64 {
    if a >= b {
        (a - b) as u64
    } else {
        (a - b + 0x1_0000_0000_0000_0000) as u64
    }
}

/// The instruction `instr` with the immediate `imm` of `size` bits encoded at bit `shl`.
pub open spec fn encode_spec(instr: u32, size: u32, shl: u32, imm: u32) -> u32 {
    (instr & !imm_mask(size, shl)) | ((imm << shl) & imm_mask(size, shl))
}

/// The module memory `image`, loaded at `base`, once the relocation of type `r_type` is applied
/// at `place` with the value `val` (the symbol plus the addend).
pub open spec fn apply_spec(image: Seq<u8>, base: u64, place: u64, r_type: u32, val: u64) -> Result<
    Seq<u8>,
    ModuleLoadError,
> {
    let p = place - base;
    let fits4 = base <= place && p + 4 <= image.len();
    let fits8 = base <= place && p + 8 <= image.len();
    let diff = wrap_sub(val, place);
    if r_type == R_AARCH64_CALL26 || r_type == R_AARCH64_JUMP26 || r_type == R_AARCH64_LD_PREL_LO19 {
        let range = if r_type == R_AARCH64_LD_PREL_LO19 {
            SIZE_1M
        } else {
            SIZE_128M
        };
        if (diff as i64) < -range || (diff as i64) >= range {
            Err(ModuleLoadError::LoadingError("Symbol too far"))
        } else if diff % 4 != 0 {
            Err(ModuleLoadError::LoadingError("Misaligned relocation"))
        } else if !fits4 {
            Err(ModuleLoadError::LoadingError("Relocation outside the module"))
        } else if r_type == R_AARCH64_LD_PREL_LO19 {
            Ok(put_le_u32(image, p, encode_spec(le_u32(image, p), 19, 5, (diff as u32) >> 2u32)))
        } else {
            Ok(put_le_u32(image, p, encode_spec(le_u32(image, p), 26, 0, (diff as u32) >> 2u32)))
        }
    } else if r_type == R_AARCH64_MOVW_UABS_G0_NC || r_type == R_AARCH64_MOVW_UABS_G1_NC || r_type
        == R_AARCH64_MOVW_UABS_G2_NC || r_type == R_AARCH64_MOVW_UABS_G3 {
        let shift: u64 = if r_type == R_AARCH64_MOVW_UABS_G0_NC {
            0
        } else if r_type == R_AARCH64_MOVW_UABS_G1_NC {
            16
        } else if r_type == R_AARCH64_MOVW_UABS_G2_NC {
            32
        } else {
            48
        };
        if !fits4 {
            Err(ModuleLoadError::LoadingError("Relocation outside the module"))
        } else {
            Ok(put_le_u32(image, p, encode_spec(le_u32(image, p), 16, 5, ((val >> shift) as u16) as u32)))
        }
    } else if r_type == R_AARCH64_ABS64 || r_type == R_AARCH64_GLOB_DAT {
        if !fits8 {
            Err(ModuleLoadError::LoadingError("Relocation outside the module"))
        } else {
            Ok(put_le_u64(image, p, val))
        }
    } else {
        Err(ModuleLoadError::LoadingError("Unknown relocation type"))
    }
}

/// Where the branch instruction `instr` (B or BL) at `place` jumps to: its 26 bits immediate,
/// sign extended, counts instructions of 4 bytes from `place`, around the 64 bits space.
pub open spec fn branch_dest(instr: u32, place: u64) -> u64 {
    let imm = instr & 0x3FF_FFFF;
    let off: int = if imm >= 0x200_0000 {
        imm - 0x400_0000
    } else {
        imm as int
    };
    let t = place + 4 * off;
    if t < 0 {
        (t + 0x1_0000_0000_0000_0000) as u64
    } else if t > u64::MAX {
        (t - 0x1_0000_0000_0000_0000) as u64
    } else {
        t as u64
    }
}

/// Writing a 32 bits value little endian and reading it back gives the value; the other bytes
/// stay.
pub proof fn lemma_put_le_u32(s: Seq<u8>, p: int, v: u32)
    requires
        0 <= p,
        p + 4 <= s.len(),
    ensures
        put_le_u32(s, p, v).len() == s.len(),
        le_u32(put_le_u32(s, p, v), p) == v,
        forall|j: int| 0 <= j < s.len() && !(p <= j < p + 4) ==> #[trigger] put_le_u32(s, p, v)[j] == s[j],
{
    let t = put_le_u32(s, p, v);
    let b0 = (v & 0xFF) as u8;
    let b1 = ((v >> 8u32) & 0xFF) as u8;
    let b2 = ((v >> 16u32) & 0xFF) as u8;
    let b3 = ((v >> 24u32) & 0xFF) as u8;
    assert(t[p] == b0 && t[p + 1] == b1 && t[p + 2] == b2 && t[p + 3] == b3);
    assert((b0 as u32) | ((b1 as u32) << 8u32) | ((b2 as u32) << 16u32) | ((b3 as u32) << 24u32) == v)
        by (bit_vector)
        requires
            b0 == (v & 0xFF) as u8,
            b1 == ((v >> 8u32) & 0xFF) as u8,
            b2 == ((v >> 16u32) & 0xFF) as u8,
            b3 == ((v >> 24u32) & 0xFF) as u8,
    ;
}

/// The bits of a branch instruction whose immediate is set from the offset `d`, a multiple of 4
/// within 128 MB either way: the opcode bits stay, and the immediate times 4 is `d`, counted
/// down from 2^64 for a negative one.
proof fn lemma_branch_bits(instr: u32, d: u64, w: u32)
    by (bit_vector)
    requires
        d % 4 == 0,
        (d as i64) >= -0x800_0000i64,
        (d as i64) < 0x800_0000i64,
        w == encode_spec(instr, 26, 0, (d as u32) >> 2u32),
    ensures
        w & 0xFC00_0000 == instr & 0xFC00_0000,
        (w & 0x3FF_FFFF < 0x200_0000 && d < 0x800_0000 && 4 * (w & 0x3FF_FFFF) == d) || (w & 0x3FF_FFFF
            >= 0x200_0000 && d >= 0xFFFF_FFFF_F800_0000 && 4 * (w & 0x3FF_FFFF) + 0xFFFF_FFFF_F000_0000 == d),
{
}

/// A B or BL relocation that succeeds makes the instruction at `place` jump to `val` (the
/// symbol plus the addend), keeps its opcode, and changes no other byte of the module memory.
pub proof fn lemma_branch_relocation(image: Seq<u8>, base: u64, place: u64, r_type: u32, val: u64)
    requires
        r_type == R_AARCH64_CALL26 || r_type == R_AARCH64_JUMP26,
        apply_spec(image, base, place, r_type, val) is Ok,
    ensures
        ({
            let img = apply_spec(image, base, place, r_type, val)->Ok_0;
            let p = place - base;
            &&& base <= place && p + 4 <= image.len()
            &&& img.len() == image.len()
            &&& branch_dest(le_u32(img, p), place) == val
            &&& le_u32(img, p) & 0xFC00_0000 == le_u32(image, p) & 0xFC00_0000
            &&& forall|j: int| 0 <= j < image.len() && !(p <= j < p + 4) ==> #[trigger] img[j] == image[j]
        }),
{
    let p = place - base;
    let d = wrap_sub(val, place);
    let instr = le_u32(image, p);
    let w = encode_spec(instr, 26, 0, (d as u32) >> 2u32);
    lemma_put_le_u32(image, p, w);
    lemma_branch_bits(instr, d, w);
}

/// The offset from `place` to `val` read as a signed 64 bits number: what added to `place`
/// around the 64 bits space gives `val`.
pub open spec fn pc_offset(place: u64, val: u64) -> int {
    let d = val - place;
    if d >= 0x8000_0000_0000_0000 {
        d - 0x1_0000_0000_0000_0000
    } else if d < -0x8000_0000_0000_0000 {
        d + 0x1_0000_0000_0000_0000
    } else {
        d
    }
}

/// A 64 bits value read as a signed one.
proof fn lemma_as_i64(d: u64)
    by (bit_vector)
    ensures
        d < 0x8000_0000_0000_0000 ==> d as i64 == d,
        d >= 0x8000_0000_0000_0000 ==> d as i64 == d - 0x1_0000_0000_0000_0000,
{
}

/// Where the load instruction `instr` (LDR literal) at `place` reads: its 19 bits immediate at
/// bit 5, sign extended, counts words of 4 bytes from `place`, around the 64 bits space.
pub open spec fn literal_dest(instr: u32, place: u64) -> u64 {
    let imm = (instr >> 5u32) & 0x7_FFFF;
    let off: int = if imm >= 0x4_0000 {
        imm - 0x8_0000
    } else {
        imm as int
    };
    let t = place + 4 * off;
    if t < 0 {
        (t + 0x1_0000_0000_0000_0000) as u64
    } else if t > u64::MAX {
        (t - 0x1_0000_0000_0000_0000) as u64
    } else {
        t as u64
    }
}

/// The bits of a load literal instruction whose immediate is set from the offset `d`, a
/// multiple of 4 within 1 MB either way: the other bits stay, and the immediate times 4 is `d`,
/// counted down from 2^64 for a negative one.
proof fn lemma_literal_bits(instr: u32, d: u64, w: u32)
    by (bit_vector)
    requires
        d % 4 == 0,
        d < 0x10_0000 || d >= 0xFFFF_FFFF_FFF0_0000,
        w == encode_spec(instr, 19, 5, (d as u32) >> 2u32),
    ensures
        w & !0xFF_FFE0u32 == instr & !0xFF_FFE0u32,
        ((w >> 5u32) & 0x7_FFFF < 0x4_0000 && d < 0x10_0000 && 4 * ((w >> 5u32) & 0x7_FFFF) == d) || ((w >> 5u32)
            & 0x7_FFFF >= 0x4_0000 && d >= 0xFFFF_FFFF_FFF0_0000 && 4 * ((w >> 5u32) & 0x7_FFFF)
            + 0xFFFF_FFFF_FFE0_0000 == d),
{
}

/// The bits of a MOVZ/MOVK instruction whose 16 bits immediate at bit 5 is set to `imm`: the
/// other bits stay.
proof fn lemma_movw_bits(instr: u32, v: u64, shift: u64, w: u32)
    by (bit_vector)
    requires
        shift < 64,
        w == encode_spec(instr, 16, 5, ((v >> shift) as u16) as u32),
    ensures
        (w >> 5u32) & 0xFFFF == ((v >> shift) & 0xFFFF) as u32,
        shift == 0 ==> (v >> shift) & 0xFFFF == v & 0xFFFF,
        w & !0x1F_FFE0u32 == instr & !0x1F_FFE0u32,
{
}

/// Writing a 64 bits value little endian and reading it back gives the value; the other bytes
/// stay.
pub proof fn lemma_put_le_u64(s: Seq<u8>, p: int, v: u64)
    requires
        0 <= p,
        p + 8 <= s.len(),
    ensures
        put_le_u64(s, p, v).len() == s.len(),
        le_u64(put_le_u64(s, p, v), p) == v,
        forall|j: int| 0 <= j < s.len() && !(p <= j < p + 8) ==> #[trigger] put_le_u64(s, p, v)[j] == s[j],
{
    let lo = v as u32;
    let hi = (v >> 32u64) as u32;
    let s1 = put_le_u32(s, p, lo);
    lemma_put_le_u32(s, p, lo);
    lemma_put_le_u32(s1, p + 4, hi);
    let s2 = put_le_u32(s1, p + 4, hi);
    assert(s2.subrange(p, p + 4) =~= s1.subrange(p, p + 4));
    assert(le_u32(s2, p) == le_u32(s1, p)) by {
        assert(s2[p] == s1[p] && s2[p + 1] == s1[p + 1] && s2[p + 2] == s1[p + 2] && s2[p + 3] == s1[p + 3]);
    }
    assert((lo as u64) | ((hi as u64) << 32u64) == v) by (bit_vector)
        requires
            lo == v as u32,
            hi == (v >> 32u64) as u32,
    ;
}

/// What a relocation that succeeds writes, whatever its type: a B or BL jumps to `val` (see
/// `lemma_branch_relocation`), a load literal reads at `val`, a MOVZ/MOVK takes the 16 bits of
/// `val` its type names (bits 0, 16, 32 or 48 up), an absolute one holds `val`; no other bit
/// of the instruction and no other byte of the module memory changes.
pub proof fn lemma_relocation_effect(image: Seq<u8>, base: u64, place: u64, r_type: u32, val: u64)
    requires
        apply_spec(image, base, place, r_type, val) is Ok,
    ensures
        ({
            let img = apply_spec(image, base, place, r_type, val)->Ok_0;
            let p = place - base;
            let n: int = if r_type == R_AARCH64_ABS64 || r_type == R_AARCH64_GLOB_DAT {
                8
            } else {
                4
            };
            &&& base <= place && p + n <= image.len()
            &&& img.len() == image.len()
            &&& forall|j: int| 0 <= j < image.len() && !(p <= j < p + n) ==> #[trigger] img[j] == image[j]
            &&& (r_type == R_AARCH64_CALL26 || r_type == R_AARCH64_JUMP26) ==> branch_dest(le_u32(img, p), place)
                == val && le_u32(img, p) & 0xFC00_0000 == le_u32(image, p) & 0xFC00_0000
            &&& r_type == R_AARCH64_LD_PREL_LO19 ==> literal_dest(le_u32(img, p), place) == val && le_u32(img, p)
                & !0xFF_FFE0u32 == le_u32(image, p) & !0xFF_FFE0u32
            &&& r_type == R_AARCH64_MOVW_UABS_G0_NC ==> (le_u32(img, p) >> 5u32) & 0xFFFF == (val & 0xFFFF) as u32
            &&& r_type == R_AARCH64_MOVW_UABS_G1_NC ==> (le_u32(img, p) >> 5u32) & 0xFFFF == ((val >> 16u64)
                & 0xFFFF) as u32
            &&& r_type == R_AARCH64_MOVW_UABS_G2_NC ==> (le_u32(img, p) >> 5u32) & 0xFFFF == ((val >> 32u64)
                & 0xFFFF) as u32
            &&& r_type == R_AARCH64_MOVW_UABS_G3 ==> (le_u32(img, p) >> 5u32) & 0xFFFF == ((val >> 48u64) & 0xFFFF)
                as u32
            &&& (r_type == R_AARCH64_MOVW_UABS_G0_NC || r_type == R_AARCH64_MOVW_UABS_G1_NC || r_type
                == R_AARCH64_MOVW_UABS_G2_NC || r_type == R_AARCH64_MOVW_UABS_G3) ==> le_u32(img, p)
                & !0x1F_FFE0u32 == le_u32(image, p) & !0x1F_FFE0u32
            &&& (r_type == R_AARCH64_ABS64 || r_type == R_AARCH64_GLOB_DAT) ==> le_u64(img, p) == val
        }),
{
    let p = place - base;
    let d = wrap_sub(val, place);
    let instr = le_u32(image, p);
    if r_type == R_AARCH64_CALL26 || r_type == R_AARCH64_JUMP26 {
        lemma_branch_relocation(image, base, place, r_type, val);
    } else if r_type == R_AARCH64_LD_PREL_LO19 {
        lemma_as_i64(d);
        let w = encode_spec(instr, 19, 5, (d as u32) >> 2u32);
        lemma_put_le_u32(image, p, w);
        lemma_literal_bits(instr, d, w);
    } else if r_type == R_AARCH64_ABS64 || r_type == R_AARCH64_GLOB_DAT {
        lemma_put_le_u64(image, p, val);
    } else {
        let shift: u64 = if r_type == R_AARCH64_MOVW_UABS_G0_NC {
            0
        } else if r_type == R_AARCH64_MOVW_UABS_G1_NC {
            16
        } else if r_type == R_AARCH64_MOVW_UABS_G2_NC {
            32
        } else {
            48
        };
        let imm = ((val >> shift) as u16) as u32;
        let w = encode_spec(instr, 16, 5, imm);
        lemma_put_le_u32(image, p, w);
        lemma_movw_bits(instr, val, shift, w);
    }
}

/// When a PC-relative relocation succeeds: exactly when `val` lies within 128 MB (a B or BL)
/// or 1 MB (a load literal) of `place`, at a multiple of 4 bytes from it, and the instruction
/// lies in the module memory.
pub proof fn lemma_pc_relative_ok(image: Seq<u8>, base: u64, place: u64, r_type: u32, val: u64)
    requires
        r_type == R_AARCH64_CALL26 || r_type == R_AARCH64_JUMP26 || r_type == R_AARCH64_LD_PREL_LO19,
    ensures
        ({
            let range: int = if r_type == R_AARCH64_LD_PREL_LO19 {
                0x10_0000
            } else {
                0x800_0000
            };
            apply_spec(image, base, place, r_type, val) is Ok <==> -range <= pc_offset(place, val) < range
                && pc_offset(place, val) % 4 == 0 && base <= place && place - base + 4 <= image.len()
        }),
{
    let d = wrap_sub(val, place);
    lemma_as_i64(d);
}

/// Apply the relocation of type `r_type` at `place` with the value `val` to the module memory
/// `image` loaded at `base` (see `apply_spec`); on an error the memory is left as it is.
pub fn apply_relocation(image: &mut Vec<u8>, base: u64, place: u64, r_type: u32, val: u64) -> (r: Result<
    (),
    ModuleLoadError,
>)
    ensures
        match apply_spec(old(image)@, base, place, r_type, val) {
            Ok(img) => r is Ok && final(image)@ == img,
            Err(e) => r == Err::<(), ModuleLoadError>(e) && final(image)@ == old(image)@,
        },
        (r_type == R_AARCH64_CALL26 || r_type == R_AARCH64_JUMP26) && r is Ok ==> branch_dest(
            le_u32(final(image)@, place - base),
            place,
        ) == val,
{
    proof {
        if (r_type == R_AARCH64_CALL26 || r_type == R_AARCH64_JUMP26) && apply_spec(
            image@,
            base,
            place,
            r_type,
            val,
        ) is Ok {
            lemma_branch_relocation(image@, base, place, r_type, val);
        }
    }
    let fits4 = base <= place && place - base <= image.len() as u64 && image.len() as u64 - (place - base) >= 4;
    let fits8 = base <= place && place - base <= image.len() as u64 && image.len() as u64 - (place - base) >= 8;
    let diff = val.wrapping_sub(place);
    proof {
        assert(diff == wrap_sub(val, place));
    }
    if r_type == R_AARCH64_CALL26 || r_type == R_AARCH64_JUMP26 || r_type == R_AARCH64_LD_PREL_LO19 {
        let range = if r_type == R_AARCH64_LD_PREL_LO19 {
            SIZE_1M
        } else {
            SIZE_128M
        };
        if (diff as i64) < -range || (diff as i64) >= range {
            return Err(ModuleLoadError::LoadingError("Symbol too far"));
        }
        if diff % 4 != 0 {
            return Err(ModuleLoadError::LoadingError("Misaligned relocation"));
        }
        if !fits4 {
            return Err(ModuleLoadError::LoadingError("Relocation outside the module"));
        }
        let p = (place - base) as usize;
        let mut instruction = read_le_u32(image.as_slice(), p);
        if r_type == R_AARCH64_LD_PREL_LO19 {
            let _ = encode_immediate(&mut instruction, 19, 5, (diff as u32) >> 2u32, false);
        } else {
            let _ = encode_immediate(&mut instruction, 26, 0, (diff as u32) >> 2u32, false);
        }
        write_le_u32(image, p, instruction);
        Ok(())
    } else if r_type == R_AARCH64_MOVW_UABS_G0_NC || r_type == R_AARCH64_MOVW_UABS_G1_NC || r_type
        == R_AARCH64_MOVW_UABS_G2_NC || r_type == R_AARCH64_MOVW_UABS_G3 {
        let shift: u64 = if r_type == R_AARCH64_MOVW_UABS_G0_NC {
            0
        } else if r_type == R_AARCH64_MOVW_UABS_G1_NC {
            16
        } else if r_type == R_AARCH64_MOVW_UABS_G2_NC {
            32
        } else {
            48
        };
        if !fits4 {
            return Err(ModuleLoadError::LoadingError("Relocation outside the module"));
        }
        let p = (place - base) as usize;
        let mut instruction = read_le_u32(image.as_slice(), p);
        let imm = ((val >> shift) as u16) as u32;
        proof {
            assert((imm << 5u32) & !imm_mask(16, 5) == 0) by (bit_vector)
                requires
                    imm < 0x10000,
            ;
        }
        let _ = encode_immediate(&mut instruction, 16, 5, imm, true);
        write_le_u32(image, p, instruction);
        Ok(())
    } else if r_type == R_AARCH64_ABS64 || r_type == R_AARCH64_GLOB_DAT {
        if !fits8 {
            return Err(ModuleLoadError::LoadingError("Relocation outside the module"));
        }
        let p = (place - base) as usize;
        write_le_u32(image, p, val as u32);
        write_le_u32(image, p + 4, (val >> 32u64) as u32);
        Ok(())
    } else {
        Err(ModuleLoadError::LoadingError("Unknown relocation type"))
    }
}

/// The module memory `img` once the first `m` relocations `relas` of the relocation section
/// `s` are applied (see `apply_spec`).
pub open spec fn relas_spec(
    secs: Seq<Section>,
    syms: Seq<ElfSymbol>,
    base: u64,
    img: Seq<u8>,
    s: Section,
    relas: Seq<ElfRela>,
    m: int,
) -> Result<Seq<u8>, ModuleLoadError>
    decreases m,
{
    if m <= 0 {
        Ok(img)
    } else {
        match relas_spec(secs, syms, base, img, s, relas, m - 1) {
            Err(e) => Err(e),
            Ok(cur) => {
                let r = relas[m - 1];
                if r.r_sym >= syms.len() {
                    Err(ModuleLoadError::LoadingError("Invalid symbol index"))
                } else if s.sh_info >= secs.len() {
                    Err(ModuleLoadError::LoadingError("Invalid section index"))
                } else if secs[s.sh_info as int].sh_addr + r.r_offset > u64::MAX {
                    Err(ModuleLoadError::LoadingError("Relocation address overflow"))
                } else {
                    apply_spec(
                        cur,
                        base,
                        (secs[s.sh_info as int].sh_addr + r.r_offset) as u64,
                        r.r_type,
                        saturating_add_signed_spec(syms[r.r_sym as int].st_value, r.r_addend),
                    )
                }
            },
        }
    }
}

/// The module memory `img` once the relocations of the first `n` sections are applied, in
/// order.
pub open spec fn relocate_spec(
    data: Seq<u8>,
    secs: Seq<Section>,
    syms: Seq<ElfSymbol>,
    base: u64,
    img: Seq<u8>,
    n: int,
) -> Result<Seq<u8>, ModuleLoadError>
    decreases n,
{
    if n <= 0 {
        Ok(img)
    } else {
        match relocate_spec(data, secs, syms, base, img, n - 1) {
            Err(e) => Err(e),
            Ok(cur) => {
                let s = secs[n - 1];
                if s.sh_type != SHT_RELA {
                    Ok(cur)
                } else {
                    match elf_relas(data, s) {
                        None => Err(ModuleLoadError::ElfParsingError),
                        Some(relas) => relas_spec(secs, syms, base, cur, s, relas, relas.len() as int),
                    }
                }
            },
        }
    }
}

proof fn lemma_relas_err_stays(
    secs: Seq<Section>,
    syms: Seq<ElfSymbol>,
    base: u64,
    img: Seq<u8>,
    s: Section,
    relas: Seq<ElfRela>,
    i: int,
    n: int,
)
    requires
        0 <= i <= n,
        relas_spec(secs, syms, base, img, s, relas, i) is Err,
    ensures
        relas_spec(secs, syms, base, img, s, relas, n) == relas_spec(secs, syms, base, img, s, relas, i),
    decreases n - i,
{
    if i < n {
        lemma_relas_err_stays(secs, syms, base, img, s, relas, i, n - 1);
    }
}

proof fn lemma_relocate_err_stays(
    data: Seq<u8>,
    secs: Seq<Section>,
    syms: Seq<ElfSymbol>,
    base: u64,
    img: Seq<u8>,
    i: int,
    n: int,
)
    requires
        0 <= i <= n,
        relocate_spec(data, secs, syms, base, img, i) is Err,
    ensures
        relocate_spec(data, secs, syms, base, img, n) == relocate_spec(data, secs, syms, base, img, i),
    decreases n - i,
{
    if i < n {
        lemma_relocate_err_stays(data, secs, syms, base, img, i, n - 1);
    }
}

/// Apply the relocations `relas` of the relocation section `s` to the module memory `image`
/// loaded at `base`, in order (see `relas_spec`).
fn apply_relas(
    image: &mut Vec<u8>,
    base: u64,
    secs: &Vec<Section>,
    syms: &Vec<ElfSymbol>,
    s: &Section,
    relas: &Vec<ElfRela>,
) -> (r: Result<(), ModuleLoadError>)
    ensures
        match relas_spec(secs@, syms@, base, old(image)@, *s, relas@, relas@.len() as int) {
            Ok(img) => r is Ok && final(image)@ == img,
            Err(e) => r == Err::<(), ModuleLoadError>(e),
        },
{
    let ghost img0 = image@;
    let mut i: usize = 0;
    while i < relas.len()
        invariant
            img0 == old(image)@,
            i <= relas@.len(),
            relas_spec(secs@, syms@, base, img0, *s, relas@, i as int) == Ok::<Seq<u8>, ModuleLoadError>(image@),
        decreases relas@.len() - i,
    {
        let r = relas[i];
        if r.r_sym as usize >= syms.len() {
            proof {
                lemma_relas_err_stays(secs@, syms@, base, img0, *s, relas@, i + 1, relas@.len() as int);
            }
            return Err(ModuleLoadError::LoadingError("Invalid symbol index"));
        }
        if s.sh_info as usize >= secs.len() {
            proof {
                lemma_relas_err_stays(secs@, syms@, base, img0, *s, relas@, i + 1, relas@.len() as int);
            }
            return Err(ModuleLoadError::LoadingError("Invalid section index"));
        }
        let addr = secs[s.sh_info as usize].sh_addr;
        if r.r_offset > u64::MAX - addr {
            proof {
                lemma_relas_err_stays(secs@, syms@, base, img0, *s, relas@, i + 1, relas@.len() as int);
            }
            return Err(ModuleLoadError::LoadingError("Relocation address overflow"));
        }
        let place = addr + r.r_offset;
        let val = saturating_add_signed(syms[r.r_sym as usize].st_value, r.r_addend);
        match apply_relocation(image, base, place, r.r_type, val) {
            Ok(()) => {},
            Err(e) => {
                proof {
                    lemma_relas_err_stays(secs@, syms@, base, img0, *s, relas@, i + 1, relas@.len() as int);
                }
                return Err(e);
            },
        }
        i += 1;
    }
    Ok(())
}

/// Apply the relocations of every relocation section of the module `data`, in order (see
/// `relocate_spec`).
fn relocate(data: &[u8], image: &mut Vec<u8>, base: u64, secs: &Vec<Section>, syms: &Vec<ElfSymbol>) -> (r: Result<
    (),
    ModuleLoadError,
>)
    requires
        elf_parse_ok(data@),
    ensures
        match relocate_spec(data@, secs@, syms@, base, old(image)@, secs@.len() as int) {
            Ok(img) => r is Ok && final(image)@ == img,
            Err(e) => r == Err::<(), ModuleLoadError>(e),
        },
{
    let ghost img0 = image@;
    let mut i: usize = 0;
    while i < secs.len()
        invariant
            img0 == old(image)@,
            elf_parse_ok(data@),
            i <= secs@.len(),
            relocate_spec(data@, secs@, syms@, base, img0, i as int) == Ok::<Seq<u8>, ModuleLoadError>(image@),
        decreases secs@.len() - i,
    {
        let s = secs[i];
        if s.sh_type == SHT_RELA {
            let relas = match elf_section_relas(data, &s) {
                Ok(v) => v,
                Err(_) => {
                    proof {
                        lemma_relocate_err_stays(data@, secs@, syms@, base, img0, i + 1, secs@.len() as int);
                    }
                    return Err(ModuleLoadError::ElfParsingError);
                },
            };
            match apply_relas(image, base, secs, syms, &s, &relas) {
                Ok(()) => {},
                Err(e) => {
                    proof {
                        lemma_relocate_err_stays(data@, secs@, syms@, base, img0, i + 1, secs@.len() as int);
                    }
                    return Err(e);
                },
            }
        }
        i += 1;
    }
    Ok(())
}

/// The bytes of module memory for `size` bytes of sections: whole pages.
pub open spec fn module_bytes(size: int) -> int {
    next_multiple_of(size, PAGE_SIZE as int)
}

/// What loading the module `data` at `base` gives, with the kernel symbols `kernel`: its memory
/// and the address of its `init`, or the error that stops it. A module whose memory would not
/// end below the top of the address space is out of memory.
pub open spec fn load_spec(data: Seq<u8>, base: u64, kernel: Map<Seq<u8>, u64>) -> Result<(Seq<u8>, u64), ModuleLoadError> {
    if !elf_parse_ok(data) {
        Err(ModuleLoadError::ElfParsingError)
    } else {
        match elf_sections(data) {
            None => Err(ModuleLoadError::LoadingError("No sections")),
            Some(secs) => match layout_spec(secs, secs.len() as int) {
                None => Err(layout_error(secs)),
                Some((size, offs)) => if base + module_bytes(size) > u64::MAX {
                    Err(ModuleLoadError::OutOfMemory)
                } else {
                    let placed = placed_spec(secs, offs, base);
                    match image_spec(data, secs, offs, module_bytes(size), secs.len() as int) {
                        None => Err(ModuleLoadError::LoadingError("Section outside the file")),
                        Some(img) => match elf_symbols(data) {
                            None => Err(ModuleLoadError::ElfParsingError),
                            Some(None) => Err(ModuleLoadError::LoadingError("No symtab")),
                            Some(Some(syms)) => match resolve_spec(data, placed, syms, kernel, syms.len() as int) {
                                Err(e) => Err(e),
                                Ok((syms2, init)) => match relocate_spec(
                                    data,
                                    placed,
                                    syms2,
                                    base,
                                    img,
                                    placed.len() as int,
                                ) {
                                    Err(e) => Err(e),
                                    Ok(img2) => match init {
                                        None => Err(ModuleLoadError::MissingModuleSymbol("init")),
                                        Some(a) => Ok((img2, a)),
                                    },
                                },
                            },
                        },
                    }
                },
            },
        }
    }
}

/// A loaded module: its memory, to copy at the address it was loaded for, and the address of
/// its `init`.
pub struct LoadedModule {
    pub image: Vec<u8>,
    pub init: u64,
}

/// An ELF module being loaded.
pub struct Loader<'a> {
    data: &'a [u8],
}

impl<'a> Loader<'a> {
    pub closed spec fn data(&self) -> Seq<u8> {
        self.data@
    }

    /// A loader only exists for data that parses as an ELF file.
    #[verifier::type_invariant]
    spec fn parsed(self) -> bool {
        elf_parse_ok(self.data@)
    }

    /// A loader for the module `data`, if it parses as an ELF file.
    pub fn new(data: &'a [u8]) -> (r: Result<Self, ModuleLoadError>)
        ensures
            r is Ok <==> elf_parse_ok(data@),
            r matches Ok(l) ==> l.data() == data@,
            r is Err ==> r == Err::<Self, ModuleLoadError>(ModuleLoadError::ElfParsingError),
    {
        match elf_parse(data) {
            Ok(()) => Ok(Loader { data }),
            Err(_) => Err(ModuleLoadError::ElfParsingError),
        }
    }

    /// The sections and their layout.
    fn sections(&self) -> (r: Result<(Vec<Section>, u64, Vec<Option<u64>>), ModuleLoadError>)
        requires
            elf_parse_ok(self.data()),
        ensures
            match elf_sections(self.data()) {
                None => r == Err::<(Vec<Section>, u64, Vec<Option<u64>>), ModuleLoadError>(
                    ModuleLoadError::LoadingError("No sections"),
                ),
                Some(secs) => match layout_spec(secs, secs.len() as int) {
                    None => r == Err::<(Vec<Section>, u64, Vec<Option<u64>>), ModuleLoadError>(
                        layout_error(secs),
                    ),
                    Some((size, offs)) => r matches Ok((v, s, o)) && v@ == secs && s == size && o@ == offs,
                },
            },
    {
        let secs = match elf_section_headers(self.data) {
            Some(v) => v,
            None => return Err(ModuleLoadError::LoadingError("No sections")),
        };
        match layout(&secs) {
            Some((size, offs)) => Ok((secs, size, offs)),
            None => {
                if has_zero_alignment(&secs) {
                    Err(ModuleLoadError::LoadingError("Invalid section layout"))
                } else {
                    Err(ModuleLoadError::OutOfMemory)
                }
            },
        }
    }

    /// The number of pages of memory the module takes once loaded.
    pub fn page_count(&self) -> (r: Result<usize, ModuleLoadError>)
        ensures
            match elf_sections(self.data()) {
                None => r == Err::<usize, ModuleLoadError>(ModuleLoadError::LoadingError("No sections")),
                Some(secs) => match layout_spec(secs, secs.len() as int) {
                    None => r == Err::<usize, ModuleLoadError>(layout_error(secs)),
                    Some((size, _)) => r matches Ok(n) && n * PAGE_SIZE == module_bytes(size),
                },
            },
    {
        proof {
            use_type_invariant(self);
        }
        let (secs, size, _) = self.sections()?;
        proof {
            lemma_layout_bounds(secs@, secs@.len() as int);
        }
        let rem = size % PAGE_SIZE as u64;
        let bytes = if rem == 0 {
            size
        } else {
            size + (PAGE_SIZE as u64 - rem)
        };
        proof {
            let q = size as int / 4096;
            vstd::arithmetic::div_mod::lemma_fundamental_div_mod(size as int, 4096);
            if rem == 0 {
                vstd::arithmetic::div_mod::lemma_fundamental_div_mod_converse(bytes as int, 4096, q, 0);
            } else {
                vstd::arithmetic::div_mod::lemma_fundamental_div_mod_converse(bytes as int, 4096, q + 1, 0);
            }
            assert(bytes % 4096 == 0);
            vstd::arithmetic::div_mod::lemma_fundamental_div_mod(bytes as int, 4096);
            assert(bytes as int == module_bytes(size as int));
        }
        Ok((bytes / PAGE_SIZE as u64) as usize)
    }

    /// Load the module for the memory at `base`, with the kernel symbols `kernel` (see
    /// `load_spec`): the loaded sections are copied into the module memory, the symbols are
    /// resolved, the relocations applied, and `init` found.
    pub fn load(&self, base: u64, kernel: &SymbolTable) -> (r: Result<LoadedModule, ModuleLoadError>)
        requires
            kernel.wf(),
        ensures
            match load_spec(self.data(), base, kernel@) {
                Ok((img, init)) => r matches Ok(m) && m.image@ == img && m.init == init,
                Err(e) => r matches Err(x) && x == e,
            },
    {
        proof {
            use_type_invariant(self);
        }
        let (mut secs, size, offs) = self.sections()?;
        proof {
            lemma_layout_bounds(secs@, secs@.len() as int);
        }
        let rem = size % PAGE_SIZE as u64;
        let total = if rem == 0 {
            size
        } else {
            size + (PAGE_SIZE as u64 - rem)
        } as usize;
        if total as u64 > u64::MAX - base {
            return Err(ModuleLoadError::OutOfMemory);
        }
        let mut image = match build_image(self.data, &secs, &offs, total) {
            Some(img) => img,
            None => return Err(ModuleLoadError::LoadingError("Section outside the file")),
        };
        let ghost orig_secs = secs@;
        place_sections(&mut secs, &offs, base);
        let mut syms = match elf_symbol_table(self.data) {
            Ok(Some(v)) => v,
            Ok(None) => return Err(ModuleLoadError::LoadingError("No symtab")),
            Err(_) => return Err(ModuleLoadError::ElfParsingError),
        };
        let init = resolve_symbols(self.data, &secs, &mut syms, kernel)?;
        relocate(self.data, &mut image, base, &secs, &syms)?;
        match init {
            Some(a) => Ok(LoadedModule { image, init: a }),
            None => Err(ModuleLoadError::MissingModuleSymbol("init")),
        }
    }
}

/// Load the module `data` for the memory at `base` with the kernel symbols `kernel` (see
/// `load_spec`). The caller copies the module memory to `base` (which has room for
/// `Loader::page_count` pages) and calls its `init`.
pub fn load(data: &[u8], base: u64, kernel: &SymbolTable) -> (r: Result<LoadedModule, ModuleLoadError>)
    requires
        kernel.wf(),
    ensures
        match load_spec(data@, base, kernel@) {
            Ok((img, init)) => r matches Ok(m) && m.image@ == img && m.init == init,
            Err(e) => r matches Err(x) && x == e,
        },
{
    let loader = Loader::new(data)?;
    loader.load(base, kernel)
}

/// Load the module in the file at `path` of the mount points `table` (see `load`): `NotFound`
/// when nothing is at `path`, `IoError` when it is a directory or its read fails; else what
/// loading its content gives.
pub fn load_file<D: DirNode + Copy>(
    table: &MountTable<FileOrDir<D::File, D>>,
    path: &str,
    base: u64,
    kernel: &SymbolTable,
) -> (r: Result<LoadedModule, ModuleLoadError>)
    where
        D::File: FileNode + Copy,
    requires
        can_open(table@, path.spec_bytes()),
        kernel.wf(),
    ensures
        match open_spec(table@, path.spec_bytes()) {
            None => r matches Err(e) && e == ModuleLoadError::NotFound,
            Some(FileOrDir::Dir(_)) => r matches Err(e) && e == ModuleLoadError::IoError,
            Some(FileOrDir::File(f)) => (r matches Err(e) && e == ModuleLoadError::IoError) || match load_spec(
                f.content(),
                base,
                kernel@,
            ) {
                Ok((img, init)) => r matches Ok(m) && m.image@ == img && m.init == init,
                Err(e) => r matches Err(x) && x == e,
            },
        },
{
    let file = match get_node(table, path) {
        Err(_) => return Err(ModuleLoadError::NotFound),
        Ok(FileOrDir::Dir(_)) => return Err(ModuleLoadError::IoError),
        Ok(FileOrDir::File(f)) => f,
    };
    let buff = match file.read_to_end_vec(0) {
        Ok(b) => b,
        Err(_) => return Err(ModuleLoadError::IoError),
    };
    proof {
        assert(buff@ =~= file.content());
    }
    load(buff.as_slice(), base, kernel)
}

} // verus!
