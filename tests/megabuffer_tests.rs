use megabuffer::megabuffer::{
    AllocatedMegabufferRegion, BufferCopy, FreeMegabufferRegion, Megabuffer, MegabufferError, MegabufferRegistry,
};

fn region(offset: u64, size: u64) -> FreeMegabufferRegion {
    FreeMegabufferRegion { offset, size }
}

fn free_total(m: &Megabuffer) -> u64 {
    m.free_regions().iter().map(|r| r.size).sum()
}

#[test]
fn fragmentation_boundary() {
    let mut m = MegabufferRegistry::new().create(100, 1).unwrap();
    let mut a = m.allocate_region(40).unwrap();
    let b = m.allocate_region(40).unwrap();
    let mut c = m.allocate_region(20).unwrap();
    assert!(m.free_regions().is_empty());
    m.deallocate_region(&mut a).unwrap();
    m.deallocate_region(&mut c).unwrap();
    assert_eq!(free_total(&m), 60);
    assert_eq!(m.free_regions(), vec![region(0, 40), region(80, 20)]);
    assert!(matches!(m.allocate_region(50), Err(MegabufferError::OutOfSpace)));
    assert_eq!(m.free_regions(), vec![region(0, 40), region(80, 20)]);
    assert_eq!(b.offset(), 40);
}

#[test]
fn coalescing_three_adjacent_regions() {
    let mut m = MegabufferRegistry::new().create(300, 4).unwrap();
    let mut a = m.allocate_region(100).unwrap();
    let mut b = m.allocate_region(100).unwrap();
    let mut c = m.allocate_region(100).unwrap();
    assert_eq!((a.offset(), b.offset(), c.offset()), (0, 100, 200));
    m.deallocate_region(&mut b).unwrap();
    assert_eq!(m.free_regions(), vec![region(100, 100)]);
    m.deallocate_region(&mut a).unwrap();
    assert_eq!(m.free_regions(), vec![region(0, 200)]);
    m.deallocate_region(&mut c).unwrap();
    assert_eq!(m.free_regions(), vec![region(0, 300)]);
}

#[test]
fn coalescing_with_remaining_free_space() {
    let mut m = MegabufferRegistry::new().create(1000, 16).unwrap();
    let mut a = m.allocate_region(64).unwrap();
    let mut b = m.allocate_region(64).unwrap();
    let mut c = m.allocate_region(64).unwrap();
    m.deallocate_region(&mut b).unwrap();
    assert_eq!(m.free_regions(), vec![region(64, 64), region(192, 808)]);
    m.deallocate_region(&mut a).unwrap();
    assert_eq!(m.free_regions(), vec![region(0, 128), region(192, 808)]);
    m.deallocate_region(&mut c).unwrap();
    assert_eq!(m.free_regions(), vec![region(0, 1000)]);
}

#[test]
fn double_free_rejected() {
    let mut m = MegabufferRegistry::new().create(64, 8).unwrap();
    let mut a = m.allocate_region(8).unwrap();
    m.deallocate_region(&mut a).unwrap();
    assert_eq!(a.size(), 0);
    assert_eq!(m.deallocate_region(&mut a), Err(MegabufferError::DoubleFree));
    assert_eq!(m.free_regions(), vec![region(0, 64)]);
}

#[test]
fn foreign_region_rejected() {
    let mut registry = MegabufferRegistry::new();
    let mut m1 = registry.create(64, 8).unwrap();
    let mut m2 = registry.create(64, 8).unwrap();
    assert_ne!(m1.id(), m2.id());
    let mut a = m1.allocate_region(8).unwrap();
    assert_eq!(m2.deallocate_region(&mut a), Err(MegabufferError::ForeignRegion));
    assert_eq!(a.size(), 8);
    assert_eq!(m2.write(&[1, 2], &a), Err(MegabufferError::ForeignRegion));
    assert!(m1.deallocate_region(&mut a).is_ok());
}

#[test]
fn registry_hands_out_sequential_ids() {
    let mut registry = MegabufferRegistry::new();
    let a = registry.create(16, 4).unwrap();
    assert!(matches!(registry.create(16, 0), Err(MegabufferError::InvalidAlignment)));
    let b = registry.create(16, 4).unwrap();
    assert_eq!((a.id(), b.id()), (0, 1));
    assert_eq!((b.capacity(), b.alignment()), (16, 4));
}

#[test]
fn zero_alignment_rejected() {
    assert!(matches!(MegabufferRegistry::new().create(16, 0), Err(MegabufferError::InvalidAlignment)));
}

#[test]
fn offsets_are_aligned() {
    let mut m = MegabufferRegistry::new().create(256, 16).unwrap();
    let a = m.allocate_region(3).unwrap();
    let b = m.allocate_region(17).unwrap();
    let c = m.allocate_region(16).unwrap();
    assert_eq!((a.offset(), a.size()), (0, 16));
    assert_eq!((b.offset(), b.size()), (16, 32));
    assert_eq!((c.offset(), c.size()), (48, 16));
    for r in [&a, &b, &c] {
        assert_eq!(r.offset() % 16, 0);
    }
}

#[test]
fn aligned_size_rounds_up() {
    let m = MegabufferRegistry::new().create(256, 16).unwrap();
    assert_eq!(m.aligned_size(0), Some(0));
    assert_eq!(m.aligned_size(1), Some(16));
    assert_eq!(m.aligned_size(16), Some(16));
    assert_eq!(m.aligned_size(33), Some(48));
    assert_eq!(m.aligned_size(u64::MAX), None);
    let odd = MegabufferRegistry::new().create(256, 3).unwrap();
    assert_eq!(odd.aligned_size(7), Some(9));
}

#[test]
fn first_fit_takes_lowest_fitting_region() {
    let mut m = MegabufferRegistry::new().create(100, 1).unwrap();
    let mut a = m.allocate_region(10).unwrap();
    let _b = m.allocate_region(10).unwrap();
    let mut c = m.allocate_region(30).unwrap();
    let _d = m.allocate_region(10).unwrap();
    m.deallocate_region(&mut a).unwrap();
    m.deallocate_region(&mut c).unwrap();
    assert_eq!(m.free_regions(), vec![region(0, 10), region(20, 30), region(60, 40)]);
    let e = m.allocate_region(20).unwrap();
    assert_eq!(e.offset(), 20);
    assert_eq!(m.free_regions(), vec![region(0, 10), region(40, 10), region(60, 40)]);
    let f = m.allocate_region(10).unwrap();
    assert_eq!(f.offset(), 0);
    assert_eq!(m.free_regions(), vec![region(40, 10), region(60, 40)]);
}

#[test]
fn out_of_space_when_full() {
    let mut m = MegabufferRegistry::new().create(32, 8).unwrap();
    let _a = m.allocate_region(32).unwrap();
    assert!(m.free_regions().is_empty());
    assert!(matches!(m.allocate_region(1), Err(MegabufferError::OutOfSpace)));
    assert!(matches!(m.allocate_region(u64::MAX), Err(MegabufferError::OutOfSpace)));
}

#[test]
fn free_and_live_ranges_partition_the_buffer() {
    let mut m = MegabufferRegistry::new().create(1024, 8).unwrap();
    let mut live: Vec<AllocatedMegabufferRegion> = Vec::new();
    let sizes = [24u64, 8, 100, 64, 1, 200, 16, 40];
    for (step, size) in sizes.iter().enumerate() {
        live.push(m.allocate_region(*size).unwrap());
        if step % 3 == 2 {
            let mut r = live.remove(step % live.len());
            m.deallocate_region(&mut r).unwrap();
        }
        let mut ranges: Vec<(u64, u64)> = live.iter().map(|r| (r.offset(), r.size())).collect();
        ranges.extend(m.free_regions().iter().map(|r| (r.offset, r.size)));
        ranges.sort();
        let mut next = 0;
        for (offset, size) in ranges {
            assert_eq!(offset, next);
            next = offset + size;
        }
        assert_eq!(next, 1024);
    }
}

#[test]
fn write_checks_region_size_and_records_range() {
    let mut m = MegabufferRegistry::new().create(64, 8).unwrap();
    let _a = m.allocate_region(8).unwrap();
    let b = m.allocate_region(16).unwrap();
    assert_eq!(m.write(&[0u8; 17], &b), Err(MegabufferError::RegionTooSmall));
    assert!(m.upload().is_empty());
    assert_eq!(m.write(&[7u8; 12], &b), Ok(8));
    assert_eq!(m.write(&[], &b), Ok(8));
    assert_eq!(m.upload(), vec![BufferCopy { src_offset: 8, dst_offset: 8, size: 12 }]);
    m.finish_upload();
    assert!(m.upload().is_empty());
}

#[test]
fn upload_round_trip() {
    let mut m = MegabufferRegistry::new().create(64, 4).unwrap();
    let _a = m.allocate_region(10).unwrap();
    let b = m.allocate_region(6).unwrap();
    let pattern = [9u8, 8, 7, 6, 5];
    let mut staging = vec![0u8; 64];
    let mut device = vec![0xAAu8; 64];
    let at = m.write(&pattern, &b).unwrap() as usize;
    staging[at..at + pattern.len()].copy_from_slice(&pattern);
    for c in m.upload() {
        let (src, dst, n) = (c.src_offset as usize, c.dst_offset as usize, c.size as usize);
        device[dst..dst + n].copy_from_slice(&staging[src..src + n]);
    }
    assert_eq!(at, 12);
    assert_eq!(&device[12..17], &pattern);
    assert_eq!(device[11], 0xAA);
    assert_eq!(device[17], 0xAA);
}

#[test]
fn suballocate_and_merge_back() {
    let mut m = MegabufferRegistry::new().create(256, 16).unwrap();
    let mut parent = m.allocate_region(64).unwrap();
    assert!(matches!(parent.suballocate_region(65), Err(MegabufferError::SubregionTooLarge)));
    assert!(matches!(parent.suballocate_region(0), Err(MegabufferError::ZeroSizedSubregion)));
    assert!(matches!(parent.suballocate_region(64), Err(MegabufferError::WholeRegion)));
    let mut sub = parent.suballocate_region(10).unwrap();
    assert_eq!((sub.offset(), sub.size()), (48, 16));
    assert_eq!((parent.offset(), parent.size()), (0, 48));
    assert!(parent.belongs_to_same_megabuffer(&sub));
    assert!(parent.is_adjacent_to(&sub));
    assert!(sub.is_adjacent_to(&parent));
    let sub2 = sub.suballocate_region(1);
    assert!(matches!(sub2, Err(MegabufferError::WholeRegion)));
    parent.merge_adjacent_region(sub).unwrap();
    assert_eq!((parent.offset(), parent.size()), (0, 64));
    m.deallocate_region(&mut parent).unwrap();
    assert_eq!(m.free_regions(), vec![region(0, 256)]);
}

#[test]
fn merge_rejects_distant_or_foreign_regions() {
    let mut registry = MegabufferRegistry::new();
    let mut m1 = registry.create(256, 16).unwrap();
    let mut m2 = registry.create(256, 16).unwrap();
    let mut a = m1.allocate_region(16).unwrap();
    let _gap = m1.allocate_region(16).unwrap();
    let c = m1.allocate_region(16).unwrap();
    let other = m2.allocate_region(16).unwrap();
    assert!(!a.is_adjacent_to(&c));
    assert!(!a.belongs_to_same_megabuffer(&other));
    assert!(!a.is_adjacent_to(&other));
    assert_eq!(a.merge_adjacent_region(c), Err(MegabufferError::NotAdjacent));
    assert_eq!(a.merge_adjacent_region(other), Err(MegabufferError::ForeignRegion));
    assert_eq!((a.offset(), a.size()), (0, 16));
}

#[test]
fn released_pieces_coalesce_in_any_order() {
    let mut m = MegabufferRegistry::new().create(128, 16).unwrap();
    let mut parent = m.allocate_region(64).unwrap();
    let mut tail = parent.suballocate_region(16).unwrap();
    let mut mid = parent.suballocate_region(16).unwrap();
    m.deallocate_region(&mut mid).unwrap();
    assert_eq!(m.free_regions(), vec![region(32, 16), region(64, 64)]);
    m.deallocate_region(&mut tail).unwrap();
    assert_eq!(m.free_regions(), vec![region(32, 96)]);
    m.deallocate_region(&mut parent).unwrap();
    m.defragment();
    assert_eq!(m.free_regions(), vec![region(0, 128)]);
}

#[test]
fn defragment_keeps_free_bytes() {
    let mut m = MegabufferRegistry::new().create(100, 1).unwrap();
    let mut a = m.allocate_region(10).unwrap();
    let _b = m.allocate_region(10).unwrap();
    let mut c = m.allocate_region(10).unwrap();
    m.deallocate_region(&mut a).unwrap();
    m.deallocate_region(&mut c).unwrap();
    let before = m.free_regions();
    m.defragment();
    assert_eq!(m.free_regions(), before);
    assert_eq!(before, vec![region(0, 10), region(20, 80)]);
}

#[test]
fn zero_capacity_buffer_has_no_space() {
    let mut m = MegabufferRegistry::new().create(0, 4).unwrap();
    assert!(m.free_regions().is_empty());
    assert!(matches!(m.allocate_region(0), Err(MegabufferError::OutOfSpace)));
}

#[test]
fn merging_adjacent_leases_succeeds() {
    let mut m = MegabufferRegistry::new().create(128, 8).unwrap();
    let a = m.allocate_region(16).unwrap();
    let mut b = m.allocate_region(24).unwrap();
    let c = m.allocate_region(8).unwrap();
    assert_eq!(b.merge_adjacent_region(a), Ok(()));
    assert_eq!((b.offset(), b.size()), (0, 40));
    assert_eq!(b.merge_adjacent_region(c), Ok(()));
    assert_eq!((b.offset(), b.size()), (0, 48));
    m.deallocate_region(&mut b).unwrap();
    assert_eq!(m.free_regions(), vec![region(0, 128)]);
}

#[test]
fn oversized_write_fails_before_ownership_check() {
    let mut registry = MegabufferRegistry::new();
    let mut m1 = registry.create(64, 8).unwrap();
    let mut m2 = registry.create(64, 8).unwrap();
    let a = m1.allocate_region(8).unwrap();
    assert_eq!(m2.write(&[0u8; 9], &a), Err(MegabufferError::RegionTooSmall));
    assert_eq!(m2.write(&[0u8; 8], &a), Err(MegabufferError::ForeignRegion));
    assert_eq!(m1.write(&[0u8; 9], &a), Err(MegabufferError::RegionTooSmall));
    assert!(m1.upload().is_empty());
}

#[test]
fn subbuffer_owns_the_leased_range() {
    let mut registry = MegabufferRegistry::new();
    let mut parent = registry.create(256, 16).unwrap();
    let _first = parent.allocate_region(16).unwrap();
    let (mut child, mut lease) = parent.allocate_subbuffer(&mut registry, 40).unwrap();
    assert_eq!((lease.offset(), lease.size(), lease.owner()), (16, 48, parent.id()));
    assert_eq!(child.id(), 1);
    assert_eq!((child.capacity(), child.alignment()), (256, 16));
    assert_eq!(child.free_regions(), vec![region(16, 48)]);
    assert_eq!(parent.free_regions(), vec![region(64, 192)]);
    let inner = child.allocate_region(20).unwrap();
    assert_eq!((inner.offset(), inner.size()), (16, 32));
    assert!(matches!(child.allocate_region(32), Err(MegabufferError::OutOfSpace)));
    assert!(matches!(parent.allocate_subbuffer(&mut registry, 1000), Err(MegabufferError::OutOfSpace)));
    assert_eq!(registry.create(8, 8).unwrap().id(), 2);
    parent.deallocate_region(&mut lease).unwrap();
    assert_eq!(parent.free_regions(), vec![region(16, 240)]);
}
