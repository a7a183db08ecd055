//! Space of a file.

use rust_hdf5::io::allocator::FileAllocator;

#[test]
fn basic_allocation() {
    let mut alloc = FileAllocator::new(48);
    let a = alloc.allocate(100);
    assert_eq!(a, 48);
    assert_eq!(alloc.eof(), 148);
}

#[test]
fn alignment() {
    let mut alloc = FileAllocator::new(50); // not 8-aligned
    let a = alloc.allocate(10);
    assert_eq!(a, 56); // aligned to 8
    assert_eq!(alloc.eof(), 66);
}

#[test]
fn zero_size_allocation() {
    let mut alloc = FileAllocator::new(48);
    let a = alloc.allocate(0);
    assert_eq!(a, 48);
    assert_eq!(alloc.eof(), 48);
}

#[test]
fn successive_allocations() {
    let mut alloc = FileAllocator::new(0);
    let a1 = alloc.allocate(10);
    let a2 = alloc.allocate(20);
    let a3 = alloc.allocate(5);
    assert_eq!(a1, 0);
    assert_eq!(a2, 16); // 10 -> aligned to 16
    assert_eq!(a3, 40); // 36 -> aligned to 40
}
