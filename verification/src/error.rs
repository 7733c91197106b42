use vstd::prelude::*;

verus! {

/// Errors of the kernel library.
pub enum Error {
    Custom(String),
    CustomStr(&'static str),
    Fs(FsError),
    ModuleLoad(ModuleLoadError),
    Memory(MemoryError),
    IoError,
}

/// File system errors.
pub enum FsError {
    Custom(String),
    CustomStr(&'static str),
    NotFound,
    NotImplemented(&'static str),
    InvalidFS,
    EndOfFile,
    ReadOnly,
}

/// Errors that happen while loading a kernel module.
pub enum ModuleLoadError {
    NotFound,
    InvalidFileType,
    /// The ELF parser refused the file; which of its errors it was is not kept.
    ElfParsingError,
    LoadingError(&'static str),
    IoError,
    OutOfMemory,
    KernelSymbolNotFound,
    MissingModuleSymbol(&'static str),
    /// The module's `init` reported a failure. Loading does not run `init`: the code that
    /// copies the module into place and calls it returns this.
    ModuleInitFailed,
}

/// Memory management errors.
#[derive(PartialEq, Eq, Structural, Clone, Copy, Debug)]
pub enum MemoryError {
    OutOfPhysicalMemory,
    OutOfVirtualSpace,
    InvalidAddrSpace,
    AlreadyMapped,
    NotMapped,
}

} // verus!
