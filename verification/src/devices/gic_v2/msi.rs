use vstd::prelude::*;

use crate::interrupts::{MsiChip, MsiVector};

verus! {

/// The MSI extension of the GICv2 (GICv2m): it hands out its shared interrupts one by one.
pub struct MsiExtension {
    base_spi: u32,
    spis_count: u32,
    next_free_spi: u32,
    setspi_addr: u64,
}

impl MsiExtension {
    #[verifier::type_invariant]
    spec fn inv(self) -> bool {
        self.base_spi <= 0x3FF && self.spis_count <= 0x3FF
    }

    pub closed spec fn next_free(&self) -> u32 {
        self.next_free_spi
    }

    pub closed spec fn limit(&self) -> int {
        self.base_spi + self.spis_count
    }

    pub closed spec fn setspi_addr(&self) -> u64 {
        self.setspi_addr
    }

    /// The extension described by its MSI_TYPER register value `typer` (BASE_SPI in bits 25:16,
    /// SPI_COUNT in bits 9:0), whose MSI_SETSPI register is at the physical address
    /// `setspi_addr`.
    pub fn new(typer: u32, setspi_addr: u64) -> (r: Self)
        ensures
            r.next_free() == (typer >> 16u32) & 0x3FF,
            r.limit() == ((typer >> 16u32) & 0x3FF) + (typer & 0x3FF),
            r.setspi_addr() == setspi_addr,
    {
        let base_spi = (typer >> 16u32) & 0x3FF;
        let spis_count = typer & 0x3FF;
        assert(base_spi <= 0x3FF && spis_count <= 0x3FF) by (bit_vector)
            requires
                base_spi == (typer >> 16u32) & 0x3FF,
                spis_count == typer & 0x3FF,
        ;
        Self { base_spi, spis_count, next_free_spi: base_spi, setspi_addr }
    }

    /// Hand out the next free vector; `None` once the counter went past the last one.
    pub fn get_free_vector(&mut self) -> (r: Option<MsiVector>)
        ensures
            final(self).next_free() == old(self).next_free().wrapping_add(1),
            final(self).limit() == old(self).limit(),
            final(self).setspi_addr() == old(self).setspi_addr(),
            match r {
                Some(v) => old(self).next_free() <= old(self).limit() && v.interrupt == old(
                    self,
                ).next_free() && v.data == old(self).next_free() && v.addr == old(
                    self,
                ).setspi_addr(),
                None => old(self).next_free() > old(self).limit(),
            },
    {
        proof {
            use_type_invariant(&*self);
        }
        let vector = self.next_free_spi;
        self.next_free_spi = vector.wrapping_add(1);
        if vector > self.base_spi + self.spis_count {
            return None;
        }
        Some(MsiVector { interrupt: vector, addr: self.setspi_addr, data: vector })
    }
}

impl MsiChip for MsiExtension {
    fn get_free_vector(&mut self) -> (r: Option<MsiVector>)
        ensures
            final(self).next_free() == old(self).next_free().wrapping_add(1),
            final(self).limit() == old(self).limit(),
            final(self).setspi_addr() == old(self).setspi_addr(),
            match r {
                Some(v) => old(self).next_free() <= old(self).limit() && v.interrupt == old(
                    self,
                ).next_free() && v.data == old(self).next_free() && v.addr == old(
                    self,
                ).setspi_addr(),
                None => old(self).next_free() > old(self).limit(),
            },
    {
        MsiExtension::get_free_vector(self)
    }
}

} // verus!
