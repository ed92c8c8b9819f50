use kmem::err::MemError;
use kmem::mem::{lookup, unmap, PhysicalAddress, Table, VirtualAddress};
use kmem::page::PageAllocator;
use kmem::pte::{
    pte_flags_of, pte_ppn_of, pte_with_flags, pte_with_ppn, pte_with_ptr, PTE_EXECUTE,
    PTE_GLOBAL, PTE_READ, PTE_USER, PTE_VALID, PTE_WRITE,
};

const HEAP_START: usize = 0x8000_0000;
const HEAP_SIZE: usize = 0x10_0000;

fn fresh() -> PageAllocator {
    PageAllocator::init(HEAP_START, HEAP_SIZE)
}

fn taken_count(pa: &PageAllocator) -> usize {
    let mut n = 0;
    for p in 0..pa.page_count() {
        if pa.page_taken(p) {
            n += 1;
        }
    }
    n
}

#[test]
fn vpn_decomposition() {
    let va = VirtualAddress::new(0x1000);
    assert_eq!(va.vpn(), [1, 0, 0, 0]);
    let va = VirtualAddress::new((3 << 39) | (7 << 30) | (511 << 21) | (42 << 12) | 0xabc);
    assert_eq!(va.vpn(), [42, 511, 7, 3]);
}

#[test]
fn ppn_decomposition() {
    let pa = PhysicalAddress::new(0x8000_1000);
    assert_eq!(pa.ppn(), 0x8000_1);
    let pa = PhysicalAddress::new(0xdead_beef);
    assert_eq!(pa.ppn(), 0xdead_b);
}

#[test]
fn pte_encoding_round_trip() {
    let e = pte_with_ppn(0, 0xdead_b);
    assert_eq!(pte_ppn_of(e), 0xdead_b);
    assert_eq!(pte_flags_of(e), 0);
    let e = pte_with_ptr(e, 0x8000_1000).unwrap();
    assert_eq!(pte_ppn_of(e), 0x8000_1);
}

#[test]
fn unaligned_pointer_rejected() {
    assert_eq!(pte_with_ptr(0, 0x8000_1001), Err(MemError::UnalignedPointer));
    assert_eq!(pte_with_ptr(0, 0x8000_1800), Err(MemError::UnalignedPointer));
}

#[test]
fn map_without_permission_rejected() {
    let mut root = Table::new();
    let mut pa = fresh();
    let va = VirtualAddress::new(0x1000);
    let phys = PhysicalAddress::new(0x8000_1000);
    // USER alone carries no access permission
    let r = kmem::mem::map(&mut root, &mut pa, va, phys, PTE_USER);
    assert_eq!(r, Err(MemError::InvalidFlags));
    // a bit outside read/write/execute/user/global is rejected too
    let r = kmem::mem::map(&mut root, &mut pa, va, phys, PTE_READ | PTE_VALID);
    assert_eq!(r, Err(MemError::InvalidFlags));
    // nothing was allocated and nothing was written
    assert_eq!(taken_count(&pa), 0);
    assert_eq!(lookup(&root, &pa, va), None);
}

#[test]
fn map_then_lookup() {
    let mut root = Table::new();
    let mut pa = fresh();
    let va = VirtualAddress::new(0x1000);
    let phys = PhysicalAddress::new(0xdead_b000);
    assert_eq!(kmem::mem::map(&mut root, &mut pa, va, phys, PTE_READ | PTE_WRITE), Ok(()));
    let got = lookup(&root, &pa, va);
    assert_eq!(got, Some((0xdead_b, PTE_READ | PTE_WRITE | PTE_VALID)));
    // a fresh root needs one table page per intermediate level
    assert_eq!(taken_count(&pa), 3);
}

#[test]
fn unmapped_address_lookup_none() {
    let mut root = Table::new();
    let mut pa = fresh();
    let va = VirtualAddress::new(0x1000);
    assert_eq!(lookup(&root, &pa, va), None);
    let phys = PhysicalAddress::new(0x8000_5000);
    kmem::mem::map(&mut root, &mut pa, va, phys, PTE_READ).unwrap();
    assert_eq!(lookup(&root, &pa, VirtualAddress::new(0x2000)), None);
    assert_eq!(lookup(&root, &pa, VirtualAddress::new(0x40_0000)), None);
}

#[test]
fn shared_path_not_reallocated() {
    let mut root = Table::new();
    let mut pa = fresh();
    let phys = PhysicalAddress::new(0x8000_5000);
    kmem::mem::map(&mut root, &mut pa, VirtualAddress::new(0x1000), phys, PTE_READ).unwrap();
    let after_first = taken_count(&pa);
    assert_eq!(after_first, 3);
    // same path at every level but the last: no new table pages
    kmem::mem::map(&mut root, &mut pa, VirtualAddress::new(0x2000), phys, PTE_READ).unwrap();
    assert_eq!(taken_count(&pa), after_first);
    // a path that diverges one level up allocates exactly one new table
    kmem::mem::map(&mut root, &mut pa, VirtualAddress::new(0x20_0000), phys, PTE_READ).unwrap();
    assert_eq!(taken_count(&pa), after_first + 1);
    // all three mappings still resolve
    assert!(lookup(&root, &pa, VirtualAddress::new(0x1000)).is_some());
    assert!(lookup(&root, &pa, VirtualAddress::new(0x2000)).is_some());
    assert!(lookup(&root, &pa, VirtualAddress::new(0x20_0000)).is_some());
}

#[test]
fn map_through_leaf_conflicts() {
    let mut root = Table::new();
    let mut pa = fresh();
    // plant a superpage-style leaf directly in the root slot that virtual
    // address 0 walks through: mapping must refuse to descend through it
    let leaf = pte_with_flags(0, PTE_READ | PTE_VALID);
    root.set(0, leaf);
    let phys = PhysicalAddress::new(0x8000_5000);
    let r = kmem::mem::map(&mut root, &mut pa, VirtualAddress::new(0x1000), phys, PTE_READ);
    assert_eq!(r, Err(MemError::MappingConflict));
    // nothing was allocated and the planted entry is untouched
    assert_eq!(taken_count(&pa), 0);
    assert_eq!(root.get(0), leaf);
}

#[test]
fn remap_replaces_leaf() {
    let mut root = Table::new();
    let mut pa = fresh();
    let va = VirtualAddress::new(0x1000);
    let phys = PhysicalAddress::new(0x8000_5000);
    kmem::mem::map(&mut root, &mut pa, va, phys, PTE_READ).unwrap();
    let count = taken_count(&pa);
    // remapping the same page replaces the final-level leaf in place
    kmem::mem::map(&mut root, &mut pa, va, phys, PTE_READ | PTE_GLOBAL).unwrap();
    assert_eq!(
        lookup(&root, &pa, va),
        Some((0x8000_5, PTE_READ | PTE_GLOBAL | PTE_VALID))
    );
    assert_eq!(taken_count(&pa), count);
}

#[test]
fn unmap_frees_intermediate_tables_only() {
    let mut root = Table::new();
    let mut pa = fresh();
    // the mapped frame itself comes from the allocator and must survive unmap
    let frame = pa.zalloc(1).unwrap();
    let baseline = taken_count(&pa);
    assert_eq!(baseline, 1);
    let va = VirtualAddress::new(0x1000);
    let phys = PhysicalAddress::new(frame as u64);
    kmem::mem::map(&mut root, &mut pa, va, phys, PTE_READ | PTE_WRITE | PTE_EXECUTE).unwrap();
    kmem::mem::map(&mut root, &mut pa, VirtualAddress::new(0x20_0000), phys, PTE_READ).unwrap();
    assert_eq!(taken_count(&pa), baseline + 4);
    assert_eq!(unmap(&mut root, &mut pa), Ok(()));
    // exactly the intermediate tables were freed; the leaf frame is untouched
    assert_eq!(taken_count(&pa), baseline);
    assert!(pa.page_taken((frame - pa.start_address()) / 4096));
    // the root is still usable afterwards
    assert_eq!(lookup(&root, &pa, va), None);
    kmem::mem::map(&mut root, &mut pa, va, phys, PTE_READ).unwrap();
    assert_eq!(lookup(&root, &pa, va), Some((phys.ppn(), PTE_READ | PTE_VALID)));
}

#[test]
fn unmap_empty_root_is_noop() {
    let mut root = Table::new();
    let mut pa = fresh();
    assert_eq!(unmap(&mut root, &mut pa), Ok(()));
    assert_eq!(taken_count(&pa), 0);
}

#[test]
fn unmap_is_idempotent() {
    let mut root = Table::new();
    let mut pa = fresh();
    let phys = PhysicalAddress::new(0x8000_5000);
    kmem::mem::map(&mut root, &mut pa, VirtualAddress::new(0x1000), phys, PTE_READ).unwrap();
    assert_eq!(unmap(&mut root, &mut pa), Ok(()));
    let count = taken_count(&pa);
    // a second teardown finds no branches: it frees nothing and changes nothing
    assert_eq!(unmap(&mut root, &mut pa), Ok(()));
    assert_eq!(taken_count(&pa), count);
    for i in 0..512 {
        assert_eq!(root.get(i), 0);
    }
}
