use megabuffer::bindless::{
    bindless_table_layouts, LayoutBinding,
    BindingFlags, BindlessError, BindlessTableType, DescriptorKind, DescriptorPoolSize, DescriptorSetLayoutBuilder,
    PushConstantSlots, RenderResourceAllocator, RenderResourceHandle, RenderResourceType,
};
use megabuffer::shader_data::{PerDrawData, PerMaterialData};

#[test]
fn live_handles_of_a_kind_are_unique() {
    let mut a = RenderResourceAllocator::new();
    let mut held: Vec<RenderResourceHandle> = Vec::new();
    for step in 0..40u32 {
        let ty = if step % 3 == 0 { RenderResourceType::Sampler } else { RenderResourceType::SampledImage };
        if let Ok(h) = a.allocate(ty) {
            held.push(h);
        }
        if step % 4 == 3 {
            let h = held.remove((step as usize) % held.len());
            a.recycle(h).unwrap();
        }
        for i in 0..held.len() {
            for j in i + 1..held.len() {
                assert!(held[i].ty != held[j].ty || held[i].index != held[j].index);
            }
        }
    }
}

#[test]
fn recycled_slots_are_reused() {
    let mut a = RenderResourceAllocator::new();
    let h0 = a.allocate(RenderResourceType::Sampler).unwrap();
    let h1 = a.allocate(RenderResourceType::Sampler).unwrap();
    assert_eq!((h0.index, h1.index), (0, 1));
    assert_eq!(a.recycle(h0), Ok(()));
    assert_eq!(a.recycle(h0), Err(BindlessError::NotLive));
    let h2 = a.allocate(RenderResourceType::Sampler).unwrap();
    assert_eq!(h2, RenderResourceHandle { index: 0, ty: RenderResourceType::Sampler });
    let h3 = a.allocate(RenderResourceType::Sampler).unwrap();
    assert_eq!(h3.index, 2);
}

#[test]
fn kinds_have_separate_tables() {
    let mut a = RenderResourceAllocator::new();
    let u = a.allocate(RenderResourceType::UniformBuffer).unwrap();
    let s = a.allocate(RenderResourceType::StorageBuffer).unwrap();
    assert_eq!((u.index, s.index), (0, 0));
    assert_eq!(a.allocate(RenderResourceType::UniformBuffer), Err(BindlessError::TableFull));
    let foreign = RenderResourceHandle { index: 0, ty: RenderResourceType::StorageImage };
    assert_eq!(a.recycle(foreign), Err(BindlessError::NotLive));
    a.recycle(u).unwrap();
    assert_eq!(a.allocate(RenderResourceType::UniformBuffer).unwrap().index, 0);
}

#[test]
fn sampler_table_fills_at_capacity() {
    let mut a = RenderResourceAllocator::new();
    for i in 0..16u32 {
        assert_eq!(a.allocate(RenderResourceType::Sampler).unwrap().index, i);
    }
    assert_eq!(a.allocate(RenderResourceType::Sampler), Err(BindlessError::TableFull));
    let h = RenderResourceHandle { index: 16, ty: RenderResourceType::Sampler };
    assert_eq!(a.recycle(h), Err(BindlessError::NotLive));
}

#[test]
fn resource_type_tables() {
    assert_eq!(RenderResourceType::UniformBuffer.descriptor_count(), 1);
    assert_eq!(RenderResourceType::StorageBuffer.descriptor_count(), 1);
    assert_eq!(RenderResourceType::StorageImage.descriptor_count(), 1);
    assert_eq!(RenderResourceType::Sampler.descriptor_count(), 16);
    assert_eq!(RenderResourceType::SampledImage.descriptor_count(), 1024);
    assert_eq!(RenderResourceType::Sampler.descriptor_pool_count(), 16);
    assert_eq!(RenderResourceType::SampledImage.descriptor_pool_count(), 16);
    assert_eq!(RenderResourceType::SampledImage.descriptor_type(), DescriptorKind::SampledImage);
    assert_eq!(RenderResourceType::StorageBuffer.descriptor_type(), DescriptorKind::StorageBuffer);
    let plain = BindingFlags { partially_bound: true, update_after_bind: true, variable_descriptor_count: false };
    assert_eq!(RenderResourceType::Sampler.descriptor_binding_flags(), plain);
    assert!(RenderResourceType::SampledImage.descriptor_binding_flags().variable_descriptor_count);
}

#[test]
fn bindless_table_pool_sizes() {
    assert_eq!(BindlessTableType::Tlas.descriptor_count(), 1000);
    assert_eq!(BindlessTableType::Tlas.descriptor_type(), DescriptorKind::AccelerationStructure);
    let sizes = BindlessTableType::descriptor_pool_sizes(3);
    assert_eq!(
        sizes,
        vec![
            DescriptorPoolSize { ty: DescriptorKind::StorageBuffer, descriptor_count: 1000 },
            DescriptorPoolSize { ty: DescriptorKind::SampledImage, descriptor_count: 1003 },
            DescriptorPoolSize { ty: DescriptorKind::StorageImage, descriptor_count: 1000 },
            DescriptorPoolSize { ty: DescriptorKind::AccelerationStructure, descriptor_count: 1000 },
        ]
    );
}

#[test]
fn bindless_layout_bindings() {
    let layout = DescriptorSetLayoutBuilder::bindless();
    let b = layout.bindings();
    assert_eq!(b.len(), 5);
    let kinds: Vec<DescriptorKind> = b.iter().map(|x| x.ty).collect();
    assert_eq!(
        kinds,
        vec![
            DescriptorKind::UniformBuffer,
            DescriptorKind::StorageBuffer,
            DescriptorKind::StorageBuffer,
            DescriptorKind::Sampler,
            DescriptorKind::SampledImage,
        ]
    );
    assert_eq!(b[4].count, 1024);
    assert!(b[4].flags.variable_descriptor_count);
    assert!(!b[0].flags.variable_descriptor_count);
    assert!(b.iter().enumerate().all(|(i, x)| x.binding == i as u32 && x.flags.partially_bound));
}

#[test]
fn push_constant_block() {
    assert_eq!(PushConstantSlots::push_constant_size(), 12);
    let d = PerDrawData { object_index: 0x04030201, material_index: 7, vertex_offset: 0x100 };
    assert_eq!(d.to_bytes(), vec![1, 2, 3, 4, 7, 0, 0, 0, 0, 1, 0, 0]);
    let m = PerMaterialData::default();
    assert_eq!((m.texture_index, m.sampler_index), (0, 0));
}

#[test]
fn per_table_layouts() {
    let layouts = bindless_table_layouts(2);
    assert_eq!(layouts.len(), 4);
    let table_flags = BindingFlags { partially_bound: true, update_after_bind: true, variable_descriptor_count: true };
    let no_flags = BindingFlags { partially_bound: false, update_after_bind: false, variable_descriptor_count: false };
    assert_eq!(
        layouts[0],
        vec![LayoutBinding { binding: 0, ty: DescriptorKind::StorageBuffer, count: 1000, flags: table_flags }]
    );
    assert_eq!(
        layouts[1],
        vec![
            LayoutBinding { binding: 2, ty: DescriptorKind::SampledImage, count: 1000, flags: table_flags },
            LayoutBinding { binding: 0, ty: DescriptorKind::Sampler, count: 2, flags: no_flags },
        ]
    );
    assert_eq!(layouts[2][0].ty, DescriptorKind::StorageImage);
    assert_eq!(layouts[3][0].ty, DescriptorKind::AccelerationStructure);
    assert_eq!(layouts[3].len(), 1);
}

#[test]
fn bindless_layout_counts() {
    let layout = DescriptorSetLayoutBuilder::bindless();
    let counts: Vec<u32> = layout.bindings().iter().map(|b| b.count).collect();
    assert_eq!(counts, vec![1, 1, 1, 16, 1024]);
}
