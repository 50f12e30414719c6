//! Plain records that shaders read: per-material storage elements and the
//! per-draw push-constant block.

use vstd::prelude::*;

verus! {

/// Data unique to each material, stored as one element of a storage buffer.
#[derive(Clone, Copy, Debug, Default, PartialEq, Eq, Structural)]
pub struct PerMaterialData {
    pub texture_index: u32,
    pub sampler_index: u32,
}

/// Data unique to each draw call, passed as push constants: three 32-bit
/// fields, in the order of `PushConstantSlots`.
#[derive(Clone, Copy, Debug, Default, PartialEq, Eq, Structural)]
pub struct PerDrawData {
    pub object_index: u32,
    pub material_index: u32,
    pub vertex_offset: u32,
}

impl PerDrawData {
    /// The block as it is pushed: the three fields in order, little-endian.
    pub fn to_bytes(&self) -> (r: Vec<u8>)
        ensures
            r@.len() == 12,
            forall|i: int| 0 <= i < 4 ==> #[trigger] r@[i] == ((self.object_index >> (8 * i) as u32) & 0xff) as u8,
            forall|i: int| 0 <= i < 4 ==> #[trigger] r@[4 + i] == ((self.material_index >> (8 * i) as u32) & 0xff) as u8,
            forall|i: int| 0 <= i < 4 ==> #[trigger] r@[8 + i] == ((self.vertex_offset >> (8 * i) as u32) & 0xff) as u8,
    {
        let fields = [self.object_index, self.material_index, self.vertex_offset];
        let mut r: Vec<u8> = Vec::new();
        let mut f: usize = 0;
        while f < 3
            invariant
                f <= 3,
                fields@ == seq![self.object_index, self.material_index, self.vertex_offset],
                r@.len() == 4 * f,
                forall|k: int, i: int|
                    0 <= k < f && 0 <= i < 4 ==> #[trigger] r@[4 * k + i] == ((fields@[k] >> (8 * i) as u32) & 0xff) as u8,
            decreases 3 - f,
        {
            let v = fields[f];
            let mut i: u32 = 0;
            while i < 4
                invariant
                    f < 3,
                    i <= 4,
                    fields@ == seq![self.object_index, self.material_index, self.vertex_offset],
                    v == fields@[f as int],
                    r@.len() == 4 * f + i,
                    forall|k: int, j: int|
                        0 <= k < f && 0 <= j < 4 ==> #[trigger] r@[4 * k + j] == ((fields@[k] >> (8 * j) as u32) & 0xff) as u8,
                    forall|j: int| 0 <= j < i ==> #[trigger] r@[4 * f + j] == ((v >> (8 * j) as u32) & 0xff) as u8,
                decreases 4 - i,
            {
                r.push(((v >> (8 * i)) & 0xff) as u8);
                i = i + 1;
            }
            f = f + 1;
        }
        proof {
            assert forall|i: int| 0 <= i < 4 implies #[trigger] r@[4 + i] == ((self.material_index >> (8 * i) as u32) & 0xff) as u8 by {
                assert(r@[4 * 1 + i] == ((fields@[1] >> (8 * i) as u32) & 0xff) as u8);
            }
            assert forall|i: int| 0 <= i < 4 implies #[trigger] r@[8 + i] == ((self.vertex_offset >> (8 * i) as u32) & 0xff) as u8 by {
                assert(r@[4 * 2 + i] == ((fields@[2] >> (8 * i) as u32) & 0xff) as u8);
            }
            assert forall|i: int| 0 <= i < 4 implies #[trigger] r@[i] == ((self.object_index >> (8 * i) as u32) & 0xff) as u8 by {
                assert(r@[4 * 0 + i] == ((fields@[0] >> (8 * i) as u32) & 0xff) as u8);
            }
        }
        r
    }
}

} // verus!
