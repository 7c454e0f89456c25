use allocators::AllocationError;
use allocators::AllocatorInternal;
use allocators::LinearAllocator;
use allocators::ScopeData;
use allocators::ScopeScratch;

const PUSH_DATA: usize = 1;

fn pod_u32(scratch: &mut ScopeScratch, alloc: &mut LinearAllocator, value: u32) -> usize {
    scratch
        .new_pod(alloc, &value.to_le_bytes(), std::mem::align_of::<u32>())
        .unwrap()
}

fn obj_u32(scratch: &mut ScopeScratch, alloc: &mut LinearAllocator, value: u32) -> usize {
    scratch
        .new_obj(alloc, &value.to_le_bytes(), std::mem::align_of::<u32>(), PUSH_DATA)
        .unwrap()
}

fn get_u32(alloc: &LinearAllocator, at: usize) -> u32 {
    let bytes = alloc.read(at, std::mem::size_of::<u32>()).unwrap();
    u32::from_le_bytes([bytes[0], bytes[1], bytes[2], bytes[3]])
}

#[test]
fn scope_scratch_alloc_primitive() {
    let mut alloc = LinearAllocator::new(1024).unwrap();
    let mut scratch = ScopeScratch::new(&alloc);

    let a = scratch.new_pod(&mut alloc, &[0xABu8], 1).unwrap();
    assert_eq!(alloc.read(a, 1).unwrap(), &[0xABu8]);
}

#[test]
fn scope_scratch_alloc_pod() {
    let mut alloc = LinearAllocator::new(1024).unwrap();
    let mut scratch = ScopeScratch::new(&alloc);

    let a = pod_u32(&mut scratch, &mut alloc, 0xDEADC0DEu32);
    assert_eq!(get_u32(&alloc, a), 0xDEADC0DEu32);
}

#[test]
fn scope_scratch_alloc_obj() {
    let mut alloc = LinearAllocator::new(1024).unwrap();
    let mut scratch = ScopeScratch::new(&alloc);

    let data: Vec<u32> = vec![0xC0FFEEEEu32];
    let mut bytes: Vec<u8> = vec![];
    for word in &data {
        bytes.extend_from_slice(&word.to_le_bytes());
    }
    let a = scratch
        .new_obj(&mut alloc, &bytes, std::mem::align_of::<u32>(), PUSH_DATA)
        .unwrap();
    let stored = alloc.read(a, bytes.len()).unwrap();
    assert_eq!(stored.len() / std::mem::size_of::<u32>(), 1);
    assert_eq!(get_u32(&alloc, a), 0xC0FFEEEEu32);
}

#[test]
fn scope_scratch_scope_rewind() {
    let mut alloc = LinearAllocator::new(1024).unwrap();
    let start_ptr = alloc.peek();
    {
        let mut scratch = ScopeScratch::new(&alloc);
        let _ = pod_u32(&mut scratch, &mut alloc, 0u32);
        assert_ne!(start_ptr, alloc.peek());
        scratch.drop_scope(&mut alloc, None);
    }
    assert_eq!(start_ptr, alloc.peek());
}

#[test]
fn scope_scratch_new_scope() {
    let mut alloc = LinearAllocator::new(1024).unwrap();
    {
        let mut scratch = ScopeScratch::new(&alloc);
        let a = pod_u32(&mut scratch, &mut alloc, 0xCAFEBABEu32);
        assert_eq!(get_u32(&alloc, a), 0xCAFEBABEu32);
        {
            let mut scratch2 = scratch.new_scope(&alloc);
            let b = pod_u32(&mut scratch2, &mut alloc, 0xDEADCAFEu32);
            assert_eq!(get_u32(&alloc, b), 0xDEADCAFEu32);
            scratch2.drop_scope(&mut alloc, Some(&mut scratch));
        }
        assert_eq!(get_u32(&alloc, a), 0xCAFEBABEu32);
        let b = pod_u32(&mut scratch, &mut alloc, 0xC0FFEEEEu32);
        assert_eq!(get_u32(&alloc, b), 0xC0FFEEEEu32);
        scratch.drop_scope(&mut alloc, None);
    }
}

#[test]
fn dtor_order() {
    let mut dtor_data: Vec<u32> = vec![];

    let mut alloc = LinearAllocator::new(1024).unwrap();
    {
        let mut scratch = ScopeScratch::new(&alloc);

        let _ = obj_u32(&mut scratch, &mut alloc, 0xCAFEBABEu32);
        let _ = obj_u32(&mut scratch, &mut alloc, 0xDEADCAFEu32);

        // The destructor of an object reads the object, so it runs on what is
        // due while the scope still stands.
        let due: Vec<ScopeData> = scratch.scope().iter_chain(&alloc);
        for call in &due {
            assert_eq!(call.dtor, PUSH_DATA);
            dtor_data.push(get_u32(&alloc, call.mem));
        }
        let calls = scratch.drop_scope(&mut alloc, None);
        assert_eq!(calls, due);
    }
    assert_eq!(dtor_data.len(), 2);
    assert_eq!(dtor_data[0], 0xDEADCAFEu32);
    assert_eq!(dtor_data[1], 0xCAFEBABEu32);
}

#[test]
fn scope_scratch_locked_parent_refuses() {
    let mut alloc = LinearAllocator::new(1024).unwrap();
    let mut scratch = ScopeScratch::new(&alloc);
    let scratch2 = scratch.new_scope(&alloc);
    assert_eq!(
        scratch.new_pod(&mut alloc, &[1u8], 1),
        Err(AllocationError::ScopeLocked)
    );
    assert_eq!(
        scratch.new_obj(&mut alloc, &[1u8], 1, PUSH_DATA),
        Err(AllocationError::ScopeLocked)
    );
    assert_eq!(alloc.peek(), 0);
    scratch2.drop_scope(&mut alloc, Some(&mut scratch));
    assert_eq!(scratch.new_pod(&mut alloc, &[1u8], 1), Ok(0));
}
