//! TLB flush obligation tokens. Every mapping mutation returns a
//! `PageFlush` that must be consumed exactly once: either by `flush`,
//! which invalidates the one stale translation, or by an explicit
//! `ignore`, whose precondition is that no translation for the address
//! can have been cached yet (legal while building an address space that
//! is not yet active). `PageFlushAll` batches per-address obligations and
//! discharges them with one global invalidation, which is cheaper than
//! many targeted ones when dozens of entries change at once.

use vstd::prelude::*;

use crate::VirtualAddress;
use crate::arch::Arch;
use crate::arch::PAGE_ADDRESS_MASK;
use crate::arch::cache_is_walk;

verus! {

/// A single outstanding invalidation obligation for one virtual address.
#[must_use]
pub struct PageFlush {
    virt: VirtualAddress,
}

impl PageFlush {
    /// The virtual address whose translation is owed an invalidation.
    pub closed spec fn spec_virt(&self) -> u64 {
        self.virt.spec_data()
    }

    pub fn new(virt: VirtualAddress) -> (r: Self)
        ensures
            r.spec_virt() == virt.spec_data(),
    {
        PageFlush { virt }
    }

    /// The address this token covers.
    pub fn virt(&self) -> (r: VirtualAddress)
        ensures
            r.spec_data() == self.spec_virt(),
    {
        self.virt
    }

    /// Discharges the obligation by dropping the one cached translation
    /// for this token's page. The token is consumed.
    pub fn flush<A: Arch>(self, arch: &mut A)
        ensures
            final(arch).mem() == old(arch).mem(),
            final(arch).table_root() == old(arch).table_root(),
            final(arch).cache() == old(arch).cache().remove(self.spec_virt() & PAGE_ADDRESS_MASK),
    {
        arch.invalid_data(self.virt);
    }

    /// Waives the obligation without invalidating anything. Only legal
    /// when no translation for this address can have been cached yet,
    /// for example while the mutated table is not yet active.
    pub fn ignore(self) {
    }
}

/// An accumulator for many per-address obligations, discharged by one
/// global invalidation.
#[must_use]
pub struct PageFlushAll {
}

impl PageFlushAll {
    pub fn new() -> (r: Self) {
        PageFlushAll {}
    }

    /// Absorbs one per-address obligation, deferring the actual hardware
    /// invalidation to this accumulator's own `flush`.
    pub fn consume(&self, flush: PageFlush) {
        flush.ignore();
    }

    /// Discharges every absorbed obligation at once by rebuilding the
    /// whole translation cache from the active table.
    pub fn flush<A: Arch>(self, arch: &mut A)
        ensures
            final(arch).mem() == old(arch).mem(),
            final(arch).table_root() == old(arch).table_root(),
            cache_is_walk(final(arch).cache(), final(arch).mem(), final(arch).table_root() as int),
    {
        arch.invalid_data_all();
    }

    /// Waives every absorbed obligation without invalidating; the same
    /// caution applies as for `PageFlush::ignore`.
    pub fn ignore(self) {
    }
}

} // verus!
