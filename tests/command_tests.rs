use megabuffer::command::{
    CleanupStep, CommandEncoder, CommandEncoderAllocator, CommandError, QueueFamily, QUEUE_COMPUTE, QUEUE_GRAPHICS, QUEUE_TRANSFER,
};

#[test]
fn pool_cleanup_across_two_families() {
    let mut alloc = CommandEncoderAllocator::new();
    assert_eq!(alloc.pool_for(0), None);
    assert_eq!(alloc.add_pool(0, 100), Ok(()));
    assert_eq!(alloc.add_pool(2, 200), Ok(()));
    assert_eq!(alloc.add_pool(0, 101), Err(CommandError::PoolExists));
    assert_eq!(alloc.add_pool(5, 100), Err(CommandError::DuplicatePool));
    assert_eq!(alloc.pool_for(2), Some(200));

    let mut encoders: Vec<CommandEncoder> = Vec::new();
    for n in 0..6u64 {
        let family = if n % 2 == 0 { 0 } else { 2 };
        encoders.push(alloc.allocate(family, 1000 + n).unwrap());
    }
    // Destroy some of them, from both families.
    for e in encoders.drain(0..3) {
        let pool = alloc.free(&e).unwrap();
        assert_eq!(pool, if e.family() == 0 { 100 } else { 200 });
    }
    let steps = alloc.shutdown();
    assert_eq!(steps.len(), 4);
    assert!(matches!(&steps[0], CleanupStep::FreeBuffers { pool: 100, buffers } if *buffers == vec![1004]));
    assert!(matches!(&steps[1], CleanupStep::DestroyPool { pool: 100 }));
    assert!(matches!(&steps[2], CleanupStep::FreeBuffers { pool: 200, buffers } if *buffers == vec![1003, 1005]));
    assert!(matches!(&steps[3], CleanupStep::DestroyPool { pool: 200 }));
    assert_eq!(alloc.pool_for(0), None);
    assert_eq!(alloc.pool_for(2), None);
}

#[test]
fn pool_cleanup_after_everything_freed() {
    let mut alloc = CommandEncoderAllocator::new();
    alloc.add_pool(1, 10).unwrap();
    alloc.add_pool(3, 30).unwrap();
    let a = alloc.allocate(1, 7).unwrap();
    let b = alloc.allocate(3, 8).unwrap();
    alloc.free(&a).unwrap();
    alloc.free(&b).unwrap();
    let steps = alloc.shutdown();
    assert_eq!(steps.len(), 4);
    assert!(steps.iter().all(|s| match s {
        CleanupStep::FreeBuffers { buffers, .. } => buffers.is_empty(),
        CleanupStep::DestroyPool { .. } => true,
    }));
}

#[test]
fn allocate_needs_pool_and_fresh_buffer() {
    let mut alloc = CommandEncoderAllocator::new();
    assert!(matches!(alloc.allocate(0, 1), Err(CommandError::NoPool)));
    alloc.add_pool(0, 5).unwrap();
    let e = alloc.allocate(0, 1).unwrap();
    assert_eq!((e.command_buffer(), e.family(), e.is_recording()), (1, 0, false));
    assert!(matches!(alloc.allocate(0, 1), Err(CommandError::BufferOutstanding)));
    alloc.add_pool(4, 6).unwrap();
    assert!(matches!(alloc.allocate(4, 1), Err(CommandError::BufferOutstanding)));
}

#[test]
fn free_rejects_unknown_buffers() {
    let mut alloc = CommandEncoderAllocator::new();
    let stray = CommandEncoder::new(9, 0);
    assert_eq!(alloc.free(&stray), Err(CommandError::NoPool));
    alloc.add_pool(0, 5).unwrap();
    assert_eq!(alloc.free(&stray), Err(CommandError::UnknownBuffer));
    let e = alloc.allocate(0, 9).unwrap();
    assert_eq!(alloc.free(&e), Ok(5));
    assert_eq!(alloc.free(&e), Err(CommandError::UnknownBuffer));
}

#[test]
fn encoder_recording_state_machine() {
    let mut e = CommandEncoder::new(3, 1);
    assert_eq!(e.end_recording(), Err(CommandError::NotRecording));
    assert_eq!(e.begin_recording(), Ok(()));
    assert!(e.is_recording());
    assert_eq!(e.begin_recording(), Err(CommandError::AlreadyRecording));
    assert_eq!(e.end_recording(), Ok(()));
    assert!(!e.is_recording());
}

#[test]
fn queue_family_capabilities() {
    let q = QueueFamily::new(2, QUEUE_GRAPHICS | QUEUE_TRANSFER, true);
    assert!(q.supports_graphics());
    assert!(q.supports_transfer());
    assert!(!q.supports_compute());
    assert!(!q.supports_sparse_binding());
    assert!(q.supports_present());
    let c = QueueFamily::new(1, QUEUE_COMPUTE | 8, false);
    assert!(c.supports_compute() && c.supports_sparse_binding() && !c.supports_present());
}
