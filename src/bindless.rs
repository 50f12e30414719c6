//! Bindless resource tables: the kinds of resources, the descriptor layout
//! policy of each, and the allocation and recycling of table slots.
//!
//! A resource is referenced from shaders by the index of its slot in the
//! table of its kind. [`RenderResourceAllocator`] hands out slot indices,
//! takes released ones back for reuse, and never lets two live handles of
//! one kind share an index.

use vstd::prelude::*;

verus! {

/// Slots in the sampler table.
pub const MAX_SAMPLERS: u32 = 16;

/// Slots in the sampled-image (texture) table.
pub const MAX_SAMPLED_IMAGES: u32 = 1024;

/// Descriptors of each kind that one descriptor pool is sized for.
pub const DESCRIPTOR_POOL_COUNT: u32 = 16;

/// Slots in each table of the per-table bindless layout.
pub const BINDLESS_TABLE_SIZE: u32 = 1000;

/// The descriptor types that the bindless layouts use.
#[derive(Clone, Copy, Debug, PartialEq, Eq, Structural)]
pub enum DescriptorKind {
    UniformBuffer,
    StorageBuffer,
    StorageImage,
    Sampler,
    SampledImage,
    AccelerationStructure,
}

/// Binding flags of one descriptor-set layout binding.
#[derive(Clone, Copy, Debug, PartialEq, Eq, Structural)]
pub struct BindingFlags {
    /// Slots need not all hold a descriptor.
    pub partially_bound: bool,
    /// Slots may be written while the set is bound.
    pub update_after_bind: bool,
    /// The binding's size is chosen when the set is allocated.
    pub variable_descriptor_count: bool,
}

/// The kinds of resource that the bindless layout indexes.
#[derive(Clone, Copy, Debug, PartialEq, Eq, Structural)]
pub enum RenderResourceType {
    UniformBuffer,
    StorageBuffer,
    StorageImage,
    Sampler,
    SampledImage,
}

impl RenderResourceType {
    pub open spec fn spec_descriptor_type(self) -> DescriptorKind {
        match self {
            RenderResourceType::UniformBuffer => DescriptorKind::UniformBuffer,
            RenderResourceType::StorageBuffer => DescriptorKind::StorageBuffer,
            RenderResourceType::StorageImage => DescriptorKind::StorageImage,
            RenderResourceType::Sampler => DescriptorKind::Sampler,
            RenderResourceType::SampledImage => DescriptorKind::SampledImage,
        }
    }

    /// Slots in the table of this kind.
    pub open spec fn spec_descriptor_count(self) -> u32 {
        match self {
            RenderResourceType::UniformBuffer => 1,
            RenderResourceType::StorageBuffer => 1,
            RenderResourceType::StorageImage => 1,
            RenderResourceType::Sampler => MAX_SAMPLERS,
            RenderResourceType::SampledImage => MAX_SAMPLED_IMAGES,
        }
    }

    pub fn descriptor_type(&self) -> (r: DescriptorKind)
        ensures
            r == self.spec_descriptor_type(),
    {
        match self {
            RenderResourceType::UniformBuffer => DescriptorKind::UniformBuffer,
            RenderResourceType::StorageBuffer => DescriptorKind::StorageBuffer,
            RenderResourceType::StorageImage => DescriptorKind::StorageImage,
            RenderResourceType::Sampler => DescriptorKind::Sampler,
            RenderResourceType::SampledImage => DescriptorKind::SampledImage,
        }
    }

    pub fn descriptor_count(&self) -> (r: u32)
        ensures
            r == self.spec_descriptor_count(),
    {
        match self {
            RenderResourceType::UniformBuffer => 1,
            RenderResourceType::StorageBuffer => 1,
            RenderResourceType::StorageImage => 1,
            RenderResourceType::Sampler => MAX_SAMPLERS,
            RenderResourceType::SampledImage => MAX_SAMPLED_IMAGES,
        }
    }

    /// Every binding is partially bound and updatable after bind; only the
    /// sampled-image binding has a variable descriptor count.
    pub fn descriptor_binding_flags(&self) -> (r: BindingFlags)
        ensures
            r.partially_bound,
            r.update_after_bind,
            r.variable_descriptor_count == (*self == RenderResourceType::SampledImage),
    {
        BindingFlags {
            partially_bound: true,
            update_after_bind: true,
            variable_descriptor_count: match self {
                RenderResourceType::SampledImage => true,
                _ => false,
            },
        }
    }

    pub fn descriptor_pool_count(&self) -> (r: u32)
        ensures
            r == DESCRIPTOR_POOL_COUNT,
    {
        DESCRIPTOR_POOL_COUNT
    }
}

/// The tables of the per-table bindless layout, one descriptor set each.
#[derive(Clone, Copy, Debug, PartialEq, Eq, Structural)]
pub enum BindlessTableType {
    Buffer,
    Texture,
    RwTexture,
    /// Top-level acceleration structures.
    Tlas,
}

impl BindlessTableType {
    pub open spec fn spec_descriptor_type(self) -> DescriptorKind {
        match self {
            BindlessTableType::Buffer => DescriptorKind::StorageBuffer,
            BindlessTableType::Texture => DescriptorKind::SampledImage,
            BindlessTableType::RwTexture => DescriptorKind::StorageImage,
            BindlessTableType::Tlas => DescriptorKind::AccelerationStructure,
        }
    }

    pub fn descriptor_type(&self) -> (r: DescriptorKind)
        ensures
            r == self.spec_descriptor_type(),
    {
        match self {
            BindlessTableType::Buffer => DescriptorKind::StorageBuffer,
            BindlessTableType::Texture => DescriptorKind::SampledImage,
            BindlessTableType::RwTexture => DescriptorKind::StorageImage,
            BindlessTableType::Tlas => DescriptorKind::AccelerationStructure,
        }
    }

    pub fn descriptor_count(&self) -> (r: u32)
        ensures
            r == BINDLESS_TABLE_SIZE,
    {
        BINDLESS_TABLE_SIZE
    }

    /// The pool sizes for one set of every table: each table's descriptors
    /// under its type, in table order, the texture type also counting the
    /// immutable samplers that share its set.
    pub fn descriptor_pool_sizes(immutable_sampler_count: u32) -> (r: Vec<DescriptorPoolSize>)
        requires
            immutable_sampler_count <= u32::MAX - BINDLESS_TABLE_SIZE,
        ensures
            r@ == seq![
                DescriptorPoolSize { ty: DescriptorKind::StorageBuffer, descriptor_count: BINDLESS_TABLE_SIZE },
                DescriptorPoolSize {
                    ty: DescriptorKind::SampledImage,
                    descriptor_count: (BINDLESS_TABLE_SIZE + immutable_sampler_count) as u32,
                },
                DescriptorPoolSize { ty: DescriptorKind::StorageImage, descriptor_count: BINDLESS_TABLE_SIZE },
                DescriptorPoolSize { ty: DescriptorKind::AccelerationStructure, descriptor_count: BINDLESS_TABLE_SIZE },
            ],
    {
        let tables = [
            BindlessTableType::Buffer,
            BindlessTableType::Texture,
            BindlessTableType::RwTexture,
            BindlessTableType::Tlas,
        ];
        let mut sizes: Vec<DescriptorPoolSize> = Vec::new();
        let mut i: usize = 0;
        while i < 4
            invariant
                i <= 4,
                tables@ == seq![
                    BindlessTableType::Buffer,
                    BindlessTableType::Texture,
                    BindlessTableType::RwTexture,
                    BindlessTableType::Tlas,
                ],
                immutable_sampler_count <= u32::MAX - BINDLESS_TABLE_SIZE,
                sizes@.len() == i,
                forall|k: int|
                    0 <= k < i ==> #[trigger] sizes@[k] == (DescriptorPoolSize {
                        ty: tables@[k].spec_descriptor_type(),
                        descriptor_count: if tables@[k] == BindlessTableType::Texture {
                            (BINDLESS_TABLE_SIZE + immutable_sampler_count) as u32
                        } else {
                            BINDLESS_TABLE_SIZE
                        },
                    }),
            decreases 4 - i,
        {
            let table = tables[i];
            let mut count = table.descriptor_count();
            if table == BindlessTableType::Texture {
                count = count + immutable_sampler_count;
            }
            sizes.push(DescriptorPoolSize { ty: table.descriptor_type(), descriptor_count: count });
            i = i + 1;
        }
        assert(sizes@ =~= seq![
            DescriptorPoolSize { ty: DescriptorKind::StorageBuffer, descriptor_count: BINDLESS_TABLE_SIZE },
            DescriptorPoolSize {
                ty: DescriptorKind::SampledImage,
                descriptor_count: (BINDLESS_TABLE_SIZE + immutable_sampler_count) as u32,
            },
            DescriptorPoolSize { ty: DescriptorKind::StorageImage, descriptor_count: BINDLESS_TABLE_SIZE },
            DescriptorPoolSize { ty: DescriptorKind::AccelerationStructure, descriptor_count: BINDLESS_TABLE_SIZE },
        ]);
        sizes
    }
}

/// Flags of every table binding of the per-table layout.
pub open spec fn table_binding_flags() -> BindingFlags {
    BindingFlags { partially_bound: true, update_after_bind: true, variable_descriptor_count: true }
}

/// The bindings of the set layout of `table`: the table's own binding, of
/// `BINDLESS_TABLE_SIZE` slots; in the texture set it comes after the
/// `immutable_sampler_count` immutable samplers, which take binding 0.
pub open spec fn table_layout(table: BindlessTableType, immutable_sampler_count: u32) -> Seq<LayoutBinding> {
    let own = LayoutBinding {
        binding: if table == BindlessTableType::Texture { immutable_sampler_count } else { 0 },
        ty: table.spec_descriptor_type(),
        count: BINDLESS_TABLE_SIZE,
        flags: table_binding_flags(),
    };
    if table == BindlessTableType::Texture {
        seq![
            own,
            LayoutBinding {
                binding: 0,
                ty: DescriptorKind::Sampler,
                count: immutable_sampler_count,
                flags: BindingFlags { partially_bound: false, update_after_bind: false, variable_descriptor_count: false },
            },
        ]
    } else {
        seq![own]
    }
}

impl BindlessTableType {
    /// The bindings of this table's set layout.
    pub fn layout_bindings(&self, immutable_sampler_count: u32) -> (r: Vec<LayoutBinding>)
        ensures
            r@ == table_layout(*self, immutable_sampler_count),
    {
        let is_texture = *self == BindlessTableType::Texture;
        let flags = BindingFlags { partially_bound: true, update_after_bind: true, variable_descriptor_count: true };
        let mut builder = DescriptorSetLayoutBuilder::new().add_binding(
            if is_texture { immutable_sampler_count } else { 0 },
            self.descriptor_type(),
            self.descriptor_count(),
            flags,
        );
        if is_texture {
            let none = BindingFlags { partially_bound: false, update_after_bind: false, variable_descriptor_count: false };
            builder = builder.add_binding(0, DescriptorKind::Sampler, immutable_sampler_count, none);
        }
        let r = builder.into_bindings();
        assert(r@ =~= table_layout(*self, immutable_sampler_count));
        r
    }
}

/// The set layouts of the per-table bindless scheme, one per table in the
/// order Buffer, Texture, RwTexture, Tlas.
pub fn bindless_table_layouts(immutable_sampler_count: u32) -> (r: Vec<Vec<LayoutBinding>>)
    ensures
        r@.len() == 4,
        r@[0]@ == table_layout(BindlessTableType::Buffer, immutable_sampler_count),
        r@[1]@ == table_layout(BindlessTableType::Texture, immutable_sampler_count),
        r@[2]@ == table_layout(BindlessTableType::RwTexture, immutable_sampler_count),
        r@[3]@ == table_layout(BindlessTableType::Tlas, immutable_sampler_count),
{
    let mut r: Vec<Vec<LayoutBinding>> = Vec::new();
    r.push(BindlessTableType::Buffer.layout_bindings(immutable_sampler_count));
    r.push(BindlessTableType::Texture.layout_bindings(immutable_sampler_count));
    r.push(BindlessTableType::RwTexture.layout_bindings(immutable_sampler_count));
    r.push(BindlessTableType::Tlas.layout_bindings(immutable_sampler_count));
    r
}

/// How many descriptors of one type a descriptor pool must hold.
#[derive(Clone, Copy, Debug, PartialEq, Eq, Structural)]
pub struct DescriptorPoolSize {
    pub ty: DescriptorKind,
    pub descriptor_count: u32,
}

/// The 32-bit fields of the per-draw push-constant block, in order.
#[derive(Clone, Copy, Debug, PartialEq, Eq, Structural)]
pub enum PushConstantSlots {
    ObjectIndex,
    MaterialIndex,
    VertexOffset,
}

impl PushConstantSlots {
    /// Size in bytes of the whole block: one 32-bit field per slot.
    pub fn push_constant_size() -> (r: u32)
        ensures
            r == 12,
    {
        let slots: u32 = 3;
        slots * 4
    }
}

/// One binding of a descriptor-set layout, visible to every shader stage.
#[derive(Clone, Copy, Debug, PartialEq, Eq, Structural)]
pub struct LayoutBinding {
    pub binding: u32,
    pub ty: DescriptorKind,
    pub count: u32,
    pub flags: BindingFlags,
}

/// Collects the bindings of a descriptor-set layout.
pub struct DescriptorSetLayoutBuilder {
    bindings: Vec<LayoutBinding>,
}

impl DescriptorSetLayoutBuilder {
    pub closed spec fn spec_bindings(&self) -> Seq<LayoutBinding> {
        self.bindings@
    }

    pub fn new() -> (r: DescriptorSetLayoutBuilder)
        ensures
            r.spec_bindings() == Seq::<LayoutBinding>::empty(),
    {
        DescriptorSetLayoutBuilder { bindings: Vec::new() }
    }

    pub fn add_binding(self, binding: u32, ty: DescriptorKind, count: u32, flags: BindingFlags) -> (r:
        DescriptorSetLayoutBuilder)
        ensures
            r.spec_bindings() == self.spec_bindings().push(LayoutBinding { binding, ty, count, flags }),
    {
        let mut bindings = self.bindings;
        bindings.push(LayoutBinding { binding, ty, count, flags });
        DescriptorSetLayoutBuilder { bindings }
    }

    /// Adds a binding with the type, slot count and flags of `resource`.
    pub fn add_binding_for_resource_type(self, binding: u32, resource: RenderResourceType) -> (r:
        DescriptorSetLayoutBuilder)
        ensures
            r.spec_bindings() == self.spec_bindings().push(
                LayoutBinding {
                    binding,
                    ty: resource.spec_descriptor_type(),
                    count: resource.spec_descriptor_count(),
                    flags: BindingFlags {
                        partially_bound: true,
                        update_after_bind: true,
                        variable_descriptor_count: resource == RenderResourceType::SampledImage,
                    },
                },
            ),
    {
        let ty = resource.descriptor_type();
        let count = resource.descriptor_count();
        let flags = resource.descriptor_binding_flags();
        self.add_binding(binding, ty, count, flags)
    }

    /// The bindings, in the order they were added.
    pub fn bindings(&self) -> (r: &Vec<LayoutBinding>)
        ensures
            r@ == self.spec_bindings(),
    {
        &self.bindings
    }

    /// The bindings, in the order they were added.
    pub fn into_bindings(self) -> (r: Vec<LayoutBinding>)
        ensures
            r@ == self.spec_bindings(),
    {
        self.bindings
    }

    /// The shared bindless layout: per-frame uniforms, per-material and
    /// per-object storage, samplers and sampled images, at bindings 0 to 4.
    pub fn bindless() -> (r: DescriptorSetLayoutBuilder)
        ensures
            r.spec_bindings().len() == 5,
            r.spec_bindings()[0].binding == 0 && r.spec_bindings()[0].ty == DescriptorKind::UniformBuffer
                && r.spec_bindings()[0].count == 1,
            r.spec_bindings()[1].binding == 1 && r.spec_bindings()[1].ty == DescriptorKind::StorageBuffer
                && r.spec_bindings()[1].count == 1,
            r.spec_bindings()[2].binding == 2 && r.spec_bindings()[2].ty == DescriptorKind::StorageBuffer
                && r.spec_bindings()[2].count == 1,
            r.spec_bindings()[3].binding == 3 && r.spec_bindings()[3].ty == DescriptorKind::Sampler
                && r.spec_bindings()[3].count == MAX_SAMPLERS,
            r.spec_bindings()[4].binding == 4 && r.spec_bindings()[4].ty == DescriptorKind::SampledImage
                && r.spec_bindings()[4].count == MAX_SAMPLED_IMAGES,
            forall|i: int|
                0 <= i < 5 ==> (#[trigger] r.spec_bindings()[i]).flags.partially_bound
                    && r.spec_bindings()[i].flags.update_after_bind
                    && r.spec_bindings()[i].flags.variable_descriptor_count == (i == 4),
    {
        DescriptorSetLayoutBuilder::new()
            .add_binding_for_resource_type(0, RenderResourceType::UniformBuffer)
            .add_binding_for_resource_type(1, RenderResourceType::StorageBuffer)
            .add_binding_for_resource_type(2, RenderResourceType::StorageBuffer)
            .add_binding_for_resource_type(3, RenderResourceType::Sampler)
            .add_binding_for_resource_type(4, RenderResourceType::SampledImage)
    }
}

/// A slot of a bindless table: its kind and its index in the table.
#[derive(Clone, Copy, Debug, PartialEq, Eq, Structural)]
pub struct RenderResourceHandle {
    pub index: u32,
    pub ty: RenderResourceType,
}

#[derive(Clone, Copy, Debug, PartialEq, Eq, Structural)]
pub enum BindlessError {
    /// Every slot of the table is live.
    TableFull,
    /// The handle is not a live slot of its table.
    NotLive,
}

/// The slots of one table: those below `next` that are not waiting in
/// `recycled` are live.
struct SlotTable {
    capacity: u32,
    next: u32,
    recycled: Vec<u32>,
}

impl SlotTable {
    spec fn live(&self) -> Set<u32> {
        Set::new(|i: u32| i < self.next && !self.recycled@.contains(i))
    }

    spec fn wf(&self) -> bool {
        &&& self.next <= self.capacity
        &&& self.recycled@.no_duplicates()
        &&& forall|k: int| 0 <= k < self.recycled@.len() ==> #[trigger] self.recycled@[k] < self.next
    }

    fn new(capacity: u32) -> (r: SlotTable)
        ensures
            r.wf(),
            r.capacity == capacity,
            r.live() == Set::<u32>::empty(),
    {
        let r = SlotTable { capacity, next: 0, recycled: Vec::new() };
        assert(r.live() =~= Set::<u32>::empty());
        r
    }

    fn take(&mut self) -> (r: Option<u32>)
        requires
            old(self).wf(),
        ensures
            final(self).wf(),
            final(self).capacity == old(self).capacity,
            r is None <==> forall|i: u32| i < old(self).capacity ==> old(self).live().contains(i),
            r is None ==> final(self).live() == old(self).live(),
            old(self).recycled@.len() > 0 ==> r == Some(old(self).recycled@.last()) && final(self).recycled@
                == old(self).recycled@.drop_last() && final(self).next == old(self).next,
            old(self).recycled@.len() == 0 && old(self).next < old(self).capacity ==> r == Some(old(self).next)
                && final(self).recycled@ == old(self).recycled@ && final(self).next == old(self).next + 1,
            r is Some ==> {
                &&& r->Some_0 < old(self).capacity
                &&& !old(self).live().contains(r->Some_0)
                &&& final(self).live() == old(self).live().insert(r->Some_0)
            },
    {
        if let Some(i) = self.recycled.pop() {
            proof {
                let old_r = old(self).recycled@;
                assert(old_r == self.recycled@.push(i));
                assert(old_r.contains(i));
                assert(!self.recycled@.contains(i)) by {
                    if self.recycled@.contains(i) {
                        let k = choose|k: int| 0 <= k < self.recycled@.len() && self.recycled@[k] == i;
                        assert(old_r[k] == old_r[old_r.len() - 1]);
                    }
                }
                assert forall|x: u32| #[trigger] self.recycled@.contains(x) <==> (old_r.contains(x) && x != i) by {
                    if old_r.contains(x) && x != i {
                        let k = choose|k: int| 0 <= k < old_r.len() && old_r[k] == x;
                        assert(k < old_r.len() - 1);
                        assert(self.recycled@[k] == x);
                    }
                    if self.recycled@.contains(x) {
                        let k = choose|k: int| 0 <= k < self.recycled@.len() && self.recycled@[k] == x;
                        assert(old_r[k] == x);
                    }
                }
                assert(self.live() =~= old(self).live().insert(i));
                assert(forall|k: int| 0 <= k < self.recycled@.len() ==> #[trigger] self.recycled@[k] == old_r[k]);
                assert(old_r[old_r.len() - 1] < self.next);
                assert(i < old(self).next && !old(self).live().contains(i));
            }
            return Some(i);
        }
        if self.next < self.capacity {
            let i = self.next;
            self.next = self.next + 1;
            proof {
                assert(self.live() =~= old(self).live().insert(i));
                assert(!old(self).live().contains(i));
            }
            return Some(i);
        }
        proof {
            assert forall|i: u32| i < old(self).capacity implies old(self).live().contains(i) by {
                assert(!self.recycled@.contains(i));
            }
        }
        None
    }

    fn give(&mut self, index: u32) -> (r: bool)
        requires
            old(self).wf(),
        ensures
            final(self).wf(),
            final(self).capacity == old(self).capacity,
            r == old(self).live().contains(index),
            r ==> final(self).live() == old(self).live().remove(index),
            r ==> final(self).recycled@ == old(self).recycled@.push(index) && final(self).next == old(self).next,
            !r ==> *final(self) == *old(self),
    {
        if index >= self.next {
            return false;
        }
        let mut k: usize = 0;
        while k < self.recycled.len()
            invariant
                self.wf(),
                self.capacity == old(self).capacity,
                self.next == old(self).next,
                self.recycled@ == old(self).recycled@,
                k <= self.recycled@.len(),
                forall|j: int| 0 <= j < k ==> self.recycled@[j] != index,
            decreases self.recycled@.len() - k,
        {
            if self.recycled[k] == index {
                assert(self.recycled@.contains(index));
                return false;
            }
            k = k + 1;
        }
        self.recycled.push(index);
        proof {
            let old_r = old(self).recycled@;
            assert(!old_r.contains(index));
            assert forall|x: u32| #[trigger] self.recycled@.contains(x) <==> (old_r.contains(x) || x == index) by {
                if old_r.contains(x) {
                    let j = choose|j: int| 0 <= j < old_r.len() && old_r[j] == x;
                    assert(self.recycled@[j] == x);
                }
                if x == index {
                    assert(self.recycled@[old_r.len() as int] == x);
                }
            }
            assert(self.live() =~= old(self).live().remove(index));
            assert forall|a: int, b: int| 0 <= a < b < self.recycled@.len() implies self.recycled@[a]
                != self.recycled@[b] by {
                if b == old_r.len() {
                    assert(old_r[a] == self.recycled@[a]);
                }
            }
        }
        true
    }
}

/// The slot tables of the five resource kinds.
pub struct RenderResourceAllocator {
    uniform_buffers: SlotTable,
    storage_buffers: SlotTable,
    storage_images: SlotTable,
    samplers: SlotTable,
    sampled_images: SlotTable,
}

impl RenderResourceAllocator {
    closed spec fn table(&self, ty: RenderResourceType) -> SlotTable {
        match ty {
            RenderResourceType::UniformBuffer => self.uniform_buffers,
            RenderResourceType::StorageBuffer => self.storage_buffers,
            RenderResourceType::StorageImage => self.storage_images,
            RenderResourceType::Sampler => self.samplers,
            RenderResourceType::SampledImage => self.sampled_images,
        }
    }

    /// The released slot indices of kind `ty` that wait for reuse, the
    /// next to be reused last.
    pub closed spec fn recycled(&self, ty: RenderResourceType) -> Seq<u32> {
        self.table(ty).recycled@
    }

    /// The lowest slot index of kind `ty` that was never handed out.
    pub closed spec fn next_fresh(&self, ty: RenderResourceType) -> u32 {
        self.table(ty).next
    }

    /// The live slot indices of the table of kind `ty`.
    pub closed spec fn live(&self, ty: RenderResourceType) -> Set<u32> {
        self.table(ty).live()
    }

    pub closed spec fn wf(&self) -> bool {
        forall|ty: RenderResourceType| #[trigger] self.table(ty).wf() && self.table(ty).capacity == ty.spec_descriptor_count()
    }

    /// Every table empty.
    pub fn new() -> (r: RenderResourceAllocator)
        ensures
            r.wf(),
            forall|ty: RenderResourceType| #[trigger] r.live(ty) == Set::<u32>::empty(),
    {
        RenderResourceAllocator {
            uniform_buffers: SlotTable::new(1),
            storage_buffers: SlotTable::new(1),
            storage_images: SlotTable::new(1),
            samplers: SlotTable::new(MAX_SAMPLERS),
            sampled_images: SlotTable::new(MAX_SAMPLED_IMAGES),
        }
    }

    /// A slot of kind `ty` that no live handle holds: the last recycled one
    /// if any waits, else the lowest never handed out.
    pub fn allocate(&mut self, ty: RenderResourceType) -> (r: Result<RenderResourceHandle, BindlessError>)
        requires
            old(self).wf(),
        ensures
            final(self).wf(),
            r is Err <==> forall|i: u32| i < ty.spec_descriptor_count() ==> #[trigger] old(self).live(ty).contains(i),
            r is Err ==> r == Err::<RenderResourceHandle, BindlessError>(BindlessError::TableFull),
            r is Err ==> forall|t: RenderResourceType| #[trigger] final(self).live(t) == old(self).live(t),
            old(self).recycled(ty).len() > 0 ==> r == Ok::<RenderResourceHandle, BindlessError>(
                RenderResourceHandle { index: old(self).recycled(ty).last(), ty },
            ) && final(self).recycled(ty) == old(self).recycled(ty).drop_last(),
            old(self).recycled(ty).len() == 0 && old(self).next_fresh(ty) < ty.spec_descriptor_count() ==> r
                == Ok::<RenderResourceHandle, BindlessError>(RenderResourceHandle { index: old(self).next_fresh(ty), ty })
                && final(self).next_fresh(ty) == old(self).next_fresh(ty) + 1,
            r is Ok ==> {
                let h = r->Ok_0;
                &&& h.ty == ty
                &&& h.index < ty.spec_descriptor_count()
                &&& !old(self).live(ty).contains(h.index)
                &&& final(self).live(ty) == old(self).live(ty).insert(h.index)
                &&& forall|t: RenderResourceType| t != ty ==> #[trigger] final(self).live(t) == old(self).live(t)
            },
    {
        proof {
            assert(self.table(ty).wf());
        }
        let taken = match ty {
            RenderResourceType::UniformBuffer => self.uniform_buffers.take(),
            RenderResourceType::StorageBuffer => self.storage_buffers.take(),
            RenderResourceType::StorageImage => self.storage_images.take(),
            RenderResourceType::Sampler => self.samplers.take(),
            RenderResourceType::SampledImage => self.sampled_images.take(),
        };
        proof {
            assert forall|t: RenderResourceType| #[trigger] self.table(t).wf() && self.table(t).capacity == t.spec_descriptor_count() by {
                assert(old(self).table(t).wf());
                if t != ty {
                    assert(self.table(t) == old(self).table(t));
                }
            }
            assert(self.wf());
        }
        match taken {
            Some(index) => {
                assert(index < ty.spec_descriptor_count() && !old(self).live(ty).contains(index));
                Ok(RenderResourceHandle { index, ty })
            },
            None => Err(BindlessError::TableFull),
        }
    }

    /// Returns the handle's slot to its table for reuse.
    pub fn recycle(&mut self, handle: RenderResourceHandle) -> (r: Result<(), BindlessError>)
        requires
            old(self).wf(),
        ensures
            final(self).wf(),
            r is Ok <==> old(self).live(handle.ty).contains(handle.index),
            r is Err ==> r == Err::<(), BindlessError>(BindlessError::NotLive),
            r is Ok ==> final(self).live(handle.ty) == old(self).live(handle.ty).remove(handle.index),
            r is Ok ==> final(self).recycled(handle.ty) == old(self).recycled(handle.ty).push(handle.index),
            r is Err ==> final(self).live(handle.ty) == old(self).live(handle.ty),
            forall|t: RenderResourceType| t != handle.ty ==> #[trigger] final(self).live(t) == old(self).live(t),
    {
        proof {
            assert(self.table(handle.ty).wf());
        }
        let given = match handle.ty {
            RenderResourceType::UniformBuffer => self.uniform_buffers.give(handle.index),
            RenderResourceType::StorageBuffer => self.storage_buffers.give(handle.index),
            RenderResourceType::StorageImage => self.storage_images.give(handle.index),
            RenderResourceType::Sampler => self.samplers.give(handle.index),
            RenderResourceType::SampledImage => self.sampled_images.give(handle.index),
        };
        proof {
            assert forall|t: RenderResourceType| #[trigger] self.table(t).wf() && self.table(t).capacity == t.spec_descriptor_count() by {
                assert(old(self).table(t).wf());
                if t != handle.ty {
                    assert(self.table(t) == old(self).table(t));
                }
            }
            assert(self.wf());
        }
        if given {
            Ok(())
        } else {
            Err(BindlessError::NotLive)
        }
    }
}

/// Every handle in `held` is live, and no two of one kind share an index.
pub open spec fn handles_unique(a: &RenderResourceAllocator, held: Seq<RenderResourceHandle>) -> bool {
    &&& forall|j: int| 0 <= j < held.len() ==> a.live(#[trigger] held[j].ty).contains(held[j].index)
    &&& forall|j1: int, j2: int|
        #![trigger held[j1], held[j2]]
        0 <= j1 < j2 < held.len() && held[j1].ty == held[j2].ty ==> held[j1].index != held[j2].index
}

/// Allocation keeps live handles unique: the new handle's index was not
/// live in its table.
pub proof fn lemma_allocate_unique(
    before: &RenderResourceAllocator,
    after: &RenderResourceAllocator,
    held: Seq<RenderResourceHandle>,
    h: RenderResourceHandle,
)
    requires
        handles_unique(before, held),
        !before.live(h.ty).contains(h.index),
        after.live(h.ty) == before.live(h.ty).insert(h.index),
        forall|t: RenderResourceType| t != h.ty ==> #[trigger] after.live(t) == before.live(t),
    ensures
        handles_unique(after, held.push(h)),
{
    let nh = held.push(h);
    assert forall|j: int| 0 <= j < nh.len() implies after.live(#[trigger] nh[j].ty).contains(nh[j].index) by {
        if j < held.len() {
            assert(nh[j] == held[j]);
            assert(before.live(held[j].ty).contains(held[j].index));
        }
    }
    assert forall|j1: int, j2: int| #![trigger nh[j1], nh[j2]] 0 <= j1 < j2 < nh.len() && nh[j1].ty == nh[j2].ty
        implies nh[j1].index != nh[j2].index by {
        if j2 == held.len() {
            assert(before.live(held[j1].ty).contains(held[j1].index));
        } else {
            assert(nh[j1] == held[j1] && nh[j2] == held[j2]);
        }
    }
}

/// Recycling keeps live handles unique: only the recycled handle stops
/// being live.
pub proof fn lemma_recycle_unique(
    before: &RenderResourceAllocator,
    after: &RenderResourceAllocator,
    held: Seq<RenderResourceHandle>,
    j: int,
)
    requires
        handles_unique(before, held),
        0 <= j < held.len(),
        after.live(held[j].ty) == before.live(held[j].ty).remove(held[j].index),
        forall|t: RenderResourceType| t != held[j].ty ==> #[trigger] after.live(t) == before.live(t),
    ensures
        handles_unique(after, held.remove(j)),
{
    let nh = held.remove(j);
    assert forall|x: int| 0 <= x < nh.len() implies after.live(#[trigger] nh[x].ty).contains(nh[x].index) by {
        let o = if x < j { x } else { x + 1 };
        assert(nh[x] == held[o]);
        assert(before.live(held[o].ty).contains(held[o].index));
        if held[o].ty == held[j].ty {
            let (a, b) = if o < j { (o, j) } else { (j, o) };
            assert(held[a].index != held[b].index);
        }
    }
    assert forall|x1: int, x2: int| #![trigger nh[x1], nh[x2]] 0 <= x1 < x2 < nh.len() && nh[x1].ty == nh[x2].ty
        implies nh[x1].index != nh[x2].index by {
        let o1 = if x1 < j { x1 } else { x1 + 1 };
        let o2 = if x2 < j { x2 } else { x2 + 1 };
        assert(nh[x1] == held[o1] && nh[x2] == held[o2]);
    }
}

} // verus!
