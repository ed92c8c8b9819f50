use kmem::err::MemError;
use kmem::page::PageAllocator;

const HEAP_START: usize = 0x8000_0000;
const HEAP_SIZE: usize = 0x10_0000; // 1 MiB -> 256 pages
const PAGE: usize = 4096;

fn fresh() -> PageAllocator {
    PageAllocator::init(HEAP_START, HEAP_SIZE)
}

#[test]
fn descriptor_marks() {
    let mut p = kmem::page::Page { taken: false, last: false };
    assert!(!p.is_taken() && !p.is_last());
    p.reset(true, false);
    assert!(p.is_taken() && !p.is_last());
    p.reset(true, true);
    assert!(p.is_taken() && p.is_last());
    p.clear();
    assert!(!p.is_taken() && !p.is_last());
}

#[test]
fn init_layout() {
    let pa = fresh();
    // 256 one-byte descriptors at the start of the window, so the allocatable
    // area begins at the next page boundary.
    assert_eq!(pa.page_count(), 256);
    assert_eq!(pa.start_address(), 0x8000_1000);
    for p in 0..256 {
        assert!(!pa.page_taken(p));
    }
}

#[test]
fn first_fit_example() {
    let mut pa = fresh();
    assert_eq!(pa.allocate(2), Ok(0x8000_1000));
    assert_eq!(pa.allocate(1), Ok(0x8000_3000));
    assert!(pa.page_taken(0) && pa.page_taken(1) && pa.page_taken(2));
    assert!(!pa.page_taken(3));
}

#[test]
fn zero_page_request_rejected() {
    let mut pa = fresh();
    assert_eq!(pa.allocate(0), Err(MemError::InvalidRequest));
    assert_eq!(pa.zalloc(0), Err(MemError::InvalidRequest));
}

#[test]
fn successive_allocations_disjoint() {
    let mut pa = fresh();
    let a = pa.allocate(3).unwrap();
    let b = pa.allocate(5).unwrap();
    assert_eq!(a % PAGE, 0);
    assert_eq!(b % PAGE, 0);
    assert!(a + 3 * PAGE <= b || b + 5 * PAGE <= a);
}

#[test]
fn exhaustion_reports_out_of_memory() {
    let mut pa = fresh();
    let mut successes = 0usize;
    loop {
        match pa.allocate(1) {
            Ok(_) => successes += 1,
            Err(e) => {
                assert_eq!(e, MemError::OutOfMemory);
                break;
            }
        }
        assert!(successes <= 256);
    }
    // the scan window stops one page short of the end, so the final
    // descriptor can never start a run
    assert_eq!(successes, 255);
}

#[test]
fn oversize_request_fails_immediately() {
    let mut pa = fresh();
    assert_eq!(pa.allocate(257), Err(MemError::OutOfMemory));
    assert_eq!(pa.allocate(10_000), Err(MemError::OutOfMemory));
    // nothing was marked
    for p in 0..256 {
        assert!(!pa.page_taken(p));
    }
}

#[test]
fn zalloc_range_reads_zero() {
    let mut pa = fresh();
    // dirty a word first through an ordinary allocation cycle
    let a = pa.zalloc(2).unwrap();
    let start = pa.start_address();
    let first_page = (a - start) / PAGE;
    for p in first_page..first_page + 2 {
        for off in 0..PAGE {
            assert_eq!(pa.read_page_byte(p, off), 0);
        }
    }
}

#[test]
fn free_null_rejected() {
    let mut pa = fresh();
    pa.allocate(1).unwrap();
    assert_eq!(pa.free(0), Err(MemError::InvalidFree));
}

#[test]
fn free_out_of_range_rejected() {
    let mut pa = fresh();
    pa.allocate(1).unwrap();
    // below the allocatable area
    assert_eq!(pa.free(HEAP_START), Err(MemError::InvalidFree));
    // beyond the final page
    assert_eq!(pa.free(0x8000_1000 + 256 * PAGE), Err(MemError::InvalidFree));
}

#[test]
fn free_untaken_page_rejected() {
    let mut pa = fresh();
    pa.allocate(1).unwrap();
    // page 5 was never handed out
    assert_eq!(pa.free(0x8000_1000 + 5 * PAGE), Err(MemError::InvalidFree));
}

#[test]
fn double_free_rejected() {
    let mut pa = fresh();
    let a = pa.allocate(2).unwrap();
    assert_eq!(pa.free(a), Ok(()));
    assert_eq!(pa.free(a), Err(MemError::InvalidFree));
}

#[test]
fn freed_range_is_reused() {
    let mut pa = fresh();
    let a = pa.allocate(2).unwrap();
    assert_eq!(pa.allocate(1), Ok(0x8000_3000));
    assert_eq!(pa.free(a), Ok(()));
    // first-fit hands the same two pages out again
    assert_eq!(pa.allocate(2), Ok(a));
    assert_eq!(a, 0x8000_1000);
}

#[test]
fn free_clears_whole_run() {
    let mut pa = fresh();
    let a = pa.allocate(4).unwrap();
    assert!(pa.page_taken(0) && pa.page_taken(3));
    assert_eq!(pa.free(a), Ok(()));
    for p in 0..4 {
        assert!(!pa.page_taken(p));
    }
}
