use allocators::AllocationError;
use allocators::AllocatorInternal;
use allocators::LinearAllocator;
use std::mem::{align_of, size_of};

fn words_to_bytes(words: &[u32]) -> Vec<u8> {
    let mut bytes: Vec<u8> = vec![];
    for word in words {
        bytes.extend_from_slice(&word.to_le_bytes());
    }
    bytes
}

fn word_at(alloc: &LinearAllocator, at: usize) -> u32 {
    let bytes = alloc.read(at, size_of::<u32>()).unwrap();
    u32::from_le_bytes([bytes[0], bytes[1], bytes[2], bytes[3]])
}

#[test]
fn allocator_alloc_u8() {
    let mut alloc = LinearAllocator::new(1024).unwrap();

    let a = alloc.alloc_internal(&[0xABu8], align_of::<u8>()).unwrap();
    assert_eq!(alloc.read(a, 1).unwrap(), &[0xABu8]);
    assert_eq!(a, 0);
    assert_eq!(alloc.peek(), size_of::<u8>());
}

#[test]
fn allocator_alloc_pod() {
    let mut alloc = LinearAllocator::new(1024).unwrap();

    #[allow(dead_code)]
    struct A {
        data: u32,
    }

    let obj = A { data: 0xDEADC0DE };
    let a = alloc
        .alloc_internal(&obj.data.to_le_bytes(), align_of::<A>())
        .unwrap();
    assert_eq!(word_at(&alloc, a), 0xDEADC0DE);
    assert_eq!(a, 0);
    assert_eq!(alloc.peek(), size_of::<A>());
}

#[test]
fn allocator_alloc_drop() {
    let mut alloc = LinearAllocator::new(1024).unwrap();

    struct A {
        data: Vec<u32>,
    }

    let obj = A {
        data: vec![0xC0FFEEEE],
    };
    let bytes = words_to_bytes(&obj.data);
    let a = alloc.alloc_internal(&bytes, align_of::<u32>()).unwrap();
    let stored = alloc.read(a, bytes.len()).unwrap();
    assert_eq!(stored.len() / size_of::<u32>(), 1);
    assert_eq!(word_at(&alloc, a), 0xC0FFEEEE);
    assert_eq!(a, 0);
    assert_eq!(alloc.peek(), bytes.len());
}

#[test]
fn allocator_two_allocs() {
    let mut alloc = LinearAllocator::new(1024).unwrap();

    let a = alloc
        .alloc_internal(&0xCAFEBABEu32.to_le_bytes(), align_of::<u32>())
        .unwrap();
    let b = alloc
        .alloc_internal(&0xDEADCAFEu32.to_le_bytes(), align_of::<u32>())
        .unwrap();
    assert_eq!(word_at(&alloc, a), 0xCAFEBABEu32);
    assert_eq!(word_at(&alloc, b), 0xDEADCAFEu32);
    assert_eq!((b - a) / size_of::<u32>(), 1);
    assert_eq!(alloc.peek(), size_of::<u32>() * 2);
}

#[test]
fn allocator_overflow_first() {
    let mut alloc = LinearAllocator::new(1024).unwrap();
    let result = alloc.alloc_internal(&[0u8; 1025], align_of::<u8>());
    assert_eq!(
        result,
        Err(AllocationError::OutOfMemory {
            size_bytes: 1025,
            alignment: 1,
            remaining_bytes: 1024
        })
    );
    assert_eq!(alloc.peek(), 0);
}

#[test]
fn allocator_overflow_second() {
    let mut alloc = LinearAllocator::new(1024).unwrap();
    let _ = alloc.alloc_internal(&[0u8; 256], align_of::<u8>()).unwrap();
    let result = alloc.alloc_internal(&words_to_bytes(&[0u32; 250]), align_of::<u32>());
    assert_eq!(
        result,
        Err(AllocationError::OutOfMemory {
            size_bytes: 1000,
            alignment: 4,
            remaining_bytes: 768
        })
    );
    assert_eq!(alloc.peek(), 256);
}

#[test]
fn allocator_different_alignment() {
    let mut alloc = LinearAllocator::new(1024).unwrap();

    #[allow(dead_code)]
    struct A {
        data: u8,
    }
    #[allow(dead_code)]
    struct B {
        data: u64,
    }
    assert_ne!(size_of::<A>() % align_of::<B>(), 0);

    let _ = alloc.alloc_internal(&[0u8], align_of::<A>()).unwrap();
    let b = alloc
        .alloc_internal(&0u64.to_le_bytes(), align_of::<B>())
        .unwrap();
    assert_eq!(b % align_of::<B>(), 0);
}

#[test]
fn allocator_rewind() {
    let mut alloc = LinearAllocator::new(1024).unwrap();

    let _ = alloc.alloc_internal(&[0u8], align_of::<u8>()).unwrap();
    let target = alloc.peek();
    let _ = alloc
        .alloc_internal(&0u64.to_le_bytes(), align_of::<u64>())
        .unwrap();
    assert_ne!(alloc.peek(), target);
    alloc.rewind(target);
    assert_eq!(alloc.peek(), target);
}

#[test]
fn allocator_new_rejects_zero_capacity() {
    assert_eq!(
        LinearAllocator::new(0).err(),
        Some(AllocationError::InvalidConfiguration)
    );
}

#[test]
fn allocator_new_rejects_unrepresentable_capacity() {
    let limit = isize::MAX as usize - 63;
    assert!(LinearAllocator::check_block_size(limit));
    assert!(!LinearAllocator::check_block_size(limit + 1));
    assert!(!LinearAllocator::check_block_size(0));
    assert!(LinearAllocator::check_block_size(1));
    assert_eq!(
        LinearAllocator::new(limit + 1).err(),
        Some(AllocationError::InvalidConfiguration)
    );
    assert_eq!(
        LinearAllocator::new(usize::MAX).err(),
        Some(AllocationError::InvalidConfiguration)
    );
}

#[test]
fn allocator_from_reservation_reports_each_outcome() {
    assert_eq!(
        LinearAllocator::from_reservation(1024, Vec::new(), false).err(),
        Some(AllocationError::BackingAllocationFailed)
    );
    assert_eq!(
        LinearAllocator::from_reservation(0, Vec::new(), true).err(),
        Some(AllocationError::InvalidConfiguration)
    );
    assert_eq!(
        LinearAllocator::from_reservation(0, Vec::new(), false).err(),
        Some(AllocationError::InvalidConfiguration)
    );
    let alloc = LinearAllocator::from_reservation(16, vec![7u8; 3], true).unwrap();
    assert_eq!(alloc.capacity(), 16);
    assert_eq!(alloc.peek(), 0);
}

#[test]
fn allocator_new_block_is_zeroed_and_free() {
    let mut alloc = LinearAllocator::new(64).unwrap();
    assert_eq!(alloc.capacity(), 64);
    assert_eq!(alloc.peek(), 0);
    let a = alloc.alloc_internal(&[], 64).unwrap();
    assert_eq!(a, 0);
    // skipping to an aligned position leaves the bytes in between as they were
    let _ = alloc.alloc_internal(&[1u8], 1).unwrap();
    let b = alloc.alloc_internal(&[2u8], 32).unwrap();
    assert_eq!(b, 32);
    let all = alloc.read(0, 33).unwrap();
    assert_eq!(all[0], 1);
    assert!(all[1..32].iter().all(|byte| *byte == 0));
    assert_eq!(all[32], 2);
}

#[test]
fn allocator_fills_to_the_last_byte() {
    let mut alloc = LinearAllocator::new(16).unwrap();
    assert!(alloc.fits(16, 1));
    assert!(!alloc.fits(17, 1));
    assert_eq!(alloc.alloc_internal(&[9u8; 16], 1), Ok(0));
    assert_eq!(alloc.peek(), 16);
    assert!(alloc.fits(0, 1));
    assert!(!alloc.fits(1, 1));
    assert_eq!(alloc.alloc_internal(&[], 1), Ok(16));
    assert_eq!(
        alloc.alloc_internal(&[1u8], 1),
        Err(AllocationError::OutOfMemory {
            size_bytes: 1,
            alignment: 1,
            remaining_bytes: 0
        })
    );
    alloc.rewind(16);
    assert_eq!(alloc.peek(), 16);
}

#[test]
fn allocator_padding_counts_against_the_room() {
    let mut alloc = LinearAllocator::new(16).unwrap();
    let _ = alloc.alloc_internal(&[0u8; 9], 1).unwrap();
    // 7 bytes are free, but the next position aligned to 8 is the end
    assert!(alloc.fits(7, 1));
    assert!(!alloc.fits(1, 8));
    assert_eq!(
        alloc.alloc_internal(&[1u8], 8),
        Err(AllocationError::OutOfMemory {
            size_bytes: 1,
            alignment: 8,
            remaining_bytes: 7
        })
    );
    assert_eq!(alloc.peek(), 9);
    assert_eq!(alloc.alloc_internal(&[], 8), Ok(16));
}

#[test]
fn allocator_read_and_write_stop_at_the_cursor() {
    let mut alloc = LinearAllocator::new(32).unwrap();
    let a = alloc.alloc_internal(&[1u8, 2, 3, 4], 4).unwrap();
    assert_eq!(alloc.read(a, 4).unwrap(), &[1u8, 2, 3, 4]);
    assert_eq!(alloc.read(a + 1, 2).unwrap(), &[2u8, 3]);
    assert_eq!(alloc.read(4, 0).unwrap(), &[] as &[u8]);
    assert!(alloc.read(a, 5).is_none());
    assert!(alloc.read(5, 0).is_none());
    assert!(alloc.read(usize::MAX, 2).is_none());

    assert!(alloc.write(a + 2, &[9u8, 8]));
    assert_eq!(alloc.read(a, 4).unwrap(), &[1u8, 2, 9, 8]);
    assert!(!alloc.write(a + 3, &[7u8, 7]));
    assert!(!alloc.write(usize::MAX, &[7u8, 7]));
    assert_eq!(alloc.read(a, 4).unwrap(), &[1u8, 2, 9, 8]);
    assert_eq!(alloc.peek(), 4);

    // what was rewound over is out of reach, and comes back as it was left
    alloc.rewind(2);
    assert!(alloc.read(a, 4).is_none());
    assert_eq!(alloc.alloc_internal(&[5u8], 1), Ok(2));
    assert_eq!(alloc.alloc_internal(&[], 4), Ok(4));
    assert_eq!(alloc.read(a, 4).unwrap(), &[1u8, 2, 5, 8]);
}

#[test]
fn allocator_example_pad_and_rewind() {
    let mut alloc = LinearAllocator::new(1024).unwrap();
    assert_eq!(alloc.alloc_internal(&[1u8], 1), Ok(0));
    assert_eq!(alloc.peek(), 1);
    let token = alloc.peek();
    assert_eq!(alloc.alloc_internal(&[2u8; 8], 8), Ok(8));
    assert_eq!(alloc.peek(), 16);
    alloc.rewind(token);
    assert_eq!(alloc.peek(), 1);
}

#[test]
fn allocator_example_too_large() {
    let mut alloc = LinearAllocator::new(1024).unwrap();
    assert_eq!(
        alloc.alloc_internal(&[0u8; 1025], 1),
        Err(AllocationError::OutOfMemory {
            size_bytes: 1025,
            alignment: 1,
            remaining_bytes: 1024
        })
    );
    assert_eq!(alloc.peek(), 0);
}

#[test]
fn allocator_new_reports_a_failed_reservation() {
    if usize::BITS == 64 {
        // a block of the largest valid size is more than any machine can give
        let limit = isize::MAX as usize - 63;
        assert_eq!(
            LinearAllocator::new(limit).err(),
            Some(AllocationError::BackingAllocationFailed)
        );
    }
}

#[test]
fn allocator_any_alignment_but_zero_is_served() {
    let mut alloc = LinearAllocator::new(64).unwrap();
    assert_eq!(alloc.alloc_internal(&[1u8], 3), Ok(0));
    assert_eq!(alloc.alloc_internal(&[2u8], 3), Ok(3));
    assert_eq!(alloc.alloc_internal(&[3u8, 4u8], 5), Ok(5));
    assert_eq!(alloc.alloc_internal(&[5u8], 12), Ok(12));
    assert_eq!(alloc.peek(), 13);
    assert!(alloc.fits(4, 60));
    assert!(!alloc.fits(5, 60));
    assert_eq!(
        alloc.alloc_internal(&[0u8; 5], 60),
        Err(AllocationError::OutOfMemory {
            size_bytes: 5,
            alignment: 60,
            remaining_bytes: 51
        })
    );
    assert_eq!(alloc.read(0, 13).unwrap(), &[1u8, 0, 0, 2, 0, 3, 4, 0, 0, 0, 0, 0, 5]);
}
