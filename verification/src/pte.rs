//! Page table entry encoding: a hardware-defined 64-bit word holding a flags
//! byte in bits 0..8 and a 44-bit physical page number in bits 10..54.

use vstd::prelude::*;

verus! {

pub const PTE_VALID: u8 = 0x01;
pub const PTE_READ: u8 = 0x02;
pub const PTE_WRITE: u8 = 0x04;
pub const PTE_EXECUTE: u8 = 0x08;
pub const PTE_USER: u8 = 0x10;
pub const PTE_GLOBAL: u8 = 0x20;
pub const PTE_ACCESSED: u8 = 0x40;
pub const PTE_DIRTY: u8 = 0x80;

/// The access-permission bits: at least one makes an entry a leaf.
pub const PTE_RWX: u8 = 0x0e;

/// The bits a caller may pass to a mapping request.
pub const PTE_RWXUG: u8 = 0x3e;

/// The 44-bit page-number field, bits 10..54 of an entry.
pub const PPN_MASK: u64 = 0x003F_FFFF_FFFF_FC00;

/// The 44-bit page-number value mask.
pub const PPN_VALUE_MASK: u64 = 0x0000_0FFF_FFFF_FFFF;

/// The flags byte of an entry.
pub open spec fn pte_flags(e: u64) -> u8 {
    (e & 0xff) as u8
}

/// Whether the entry is valid (in use at all).
pub open spec fn pte_valid(e: u64) -> bool {
    e & 0x01 == 0x01
}

/// Whether the entry is a leaf: some access permission bit is set.
pub open spec fn pte_leaf(e: u64) -> bool {
    e & 0x0e != 0
}

/// Whether the entry is a branch: valid but without access permissions,
/// so it points at a child table.
pub open spec fn pte_branch(e: u64) -> bool {
    pte_valid(e) && !pte_leaf(e)
}

/// The 44-bit physical page number stored in the entry.
pub open spec fn pte_ppn(e: u64) -> u64 {
    (e >> 10) & PPN_VALUE_MASK
}

/// Read the flags byte.
pub fn pte_flags_of(e: u64) -> (r: u8)
    ensures
        r == pte_flags(e),
{
    (e & 0xff) as u8
}

/// Is the entry valid?
pub fn pte_is_valid(e: u64) -> (r: bool)
    ensures
        r == pte_valid(e),
{
    e & 0x01 == 0x01
}

/// Is the entry a leaf?
pub fn pte_is_leaf(e: u64) -> (r: bool)
    ensures
        r == pte_leaf(e),
{
    e & 0x0e != 0
}

/// An invalid, all-clear entry.
pub fn pte_clear() -> (r: u64)
    ensures
        r == 0,
        !pte_valid(r),
{
    proof {
        assert(0u64 & 0x01 != 0x01) by (bit_vector);
    }
    0
}

/// The physical address the entry's page number refers to.
pub fn pte_ptr(e: u64) -> (r: u64)
    ensures
        r == pte_ppn(e) << 12,
        r & 0xfff == 0,
    {
    let ppn = (e >> 10) & PPN_VALUE_MASK;
    proof {
        assert((((e >> 10) & 0xFFF_FFFF_FFFFu64) << 12) & 0xfff == 0) by (bit_vector);
    }
    ppn << 12
}

/// The 44-bit physical page number stored in the entry.
pub fn pte_ppn_of(e: u64) -> (r: u64)
    ensures
        r == pte_ppn(e),
{
    (e >> 10) & PPN_VALUE_MASK
}

/// Replace the flags byte, keeping all other bits.
pub fn pte_with_flags(e: u64, f: u8) -> (r: u64)
    ensures
        r == (e & !0xffu64) | f as u64,
        pte_flags(r) == f,
        pte_ppn(r) == pte_ppn(e),
        pte_valid(r) == (f & 0x01 == 0x01),
        pte_leaf(r) == (f & 0x0e != 0),
{
    proof {
        let r = (e & !0xffu64) | f as u64;
        assert(r & 0xff == f as u64 && (r >> 10) & 0xFFF_FFFF_FFFFu64 == (e >> 10) & 0xFFF_FFFF_FFFFu64
            && (r & 0x01 == 0x01) == (f & 0x01 == 0x01) && (r & 0x0e != 0) == (f & 0x0e != 0)) by (bit_vector)
            requires r == (e & !0xffu64) | f as u64 && f as u64 <= 0xff;
    }
    (e & !0xffu64) | (f as u64)
}

/// Point the entry's page-number field at a page-aligned physical address,
/// keeping the flags byte. The address must fit the 44-bit field.
pub fn pte_set_ptr(e: u64, ptr: u64) -> (r: u64)
    requires
        ptr & 0xfff == 0,
        ptr < 0x0100_0000_0000_0000u64,
    ensures
        r == (e & !PPN_MASK) | (ptr >> 2),
        pte_ppn(r) << 12 == ptr,
        pte_flags(r) == pte_flags(e),
        pte_valid(r) == pte_valid(e),
        pte_leaf(r) == pte_leaf(e),
{
    proof {
        let r = (e & !0x003F_FFFF_FFFF_FC00u64) | (ptr >> 2);
        assert((((r >> 10) & 0xFFF_FFFF_FFFFu64) << 12) == ptr && r & 0xff == e & 0xff
            && (r & 0x01 == 0x01) == (e & 0x01 == 0x01) && (r & 0x0e != 0) == (e & 0x0e != 0)) by (bit_vector)
            requires
                r == (e & !0x003F_FFFF_FFFF_FC00u64) | (ptr >> 2),
                ptr & 0xfff == 0,
                ptr < 0x0100_0000_0000_0000u64;
    }
    (e & !PPN_MASK) | (ptr >> 2)
}

/// Point the entry's page-number field at a page-aligned physical address.
/// A non-page-aligned address is rejected.
pub fn pte_with_ptr(e: u64, ptr: u64) -> (r: Result<u64, crate::err::MemError>)
    requires
        ptr < 0x0100_0000_0000_0000u64,
    ensures
        r is Ok <==> ptr & 0xfff == 0,
        r is Ok ==> r->Ok_0 == (e & !PPN_MASK) | (ptr >> 2) && pte_ppn(r->Ok_0) << 12 == ptr
            && pte_flags(r->Ok_0) == pte_flags(e),
        r is Err ==> r->Err_0 == crate::err::MemError::UnalignedPointer,
{
    if ptr & 0xfff != 0 {
        return Err(crate::err::MemError::UnalignedPointer);
    }
    Ok(pte_set_ptr(e, ptr))
}

/// Store a page number in the entry's page-number field, keeping the flags
/// byte. A number wider than 44 bits is truncated to the field.
pub fn pte_with_ppn(e: u64, ppn: u64) -> (r: u64)
    ensures
        r == (e & !PPN_MASK) | ((ppn & PPN_VALUE_MASK) << 10),
        pte_ppn(r) == ppn & PPN_VALUE_MASK,
        pte_flags(r) == pte_flags(e),
        pte_valid(r) == pte_valid(e),
        pte_leaf(r) == pte_leaf(e),
{
    proof {
        let r = (e & !0x003F_FFFF_FFFF_FC00u64) | ((ppn & 0xFFF_FFFF_FFFFu64) << 10);
        assert((r >> 10) & 0xFFF_FFFF_FFFFu64 == ppn & 0xFFF_FFFF_FFFFu64 && r & 0xff == e & 0xff
            && (r & 0x01 == 0x01) == (e & 0x01 == 0x01) && (r & 0x0e != 0) == (e & 0x0e != 0)) by (bit_vector)
            requires r == (e & !0x003F_FFFF_FFFF_FC00u64) | ((ppn & 0xFFF_FFFF_FFFFu64) << 10);
    }
    (e & !PPN_MASK) | ((ppn & PPN_VALUE_MASK) << 10)
}

} // verus!
