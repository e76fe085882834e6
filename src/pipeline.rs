//! Pipeline layouts: the bind groups a render pipeline expects.

use vstd::prelude::*;

verus! {

/// One resource binding of a bind group.
pub struct BindingDescriptor {
    pub name: String,
    pub index: u32,
    /// Bit mask of the shader stages that use the binding.
    pub shader_stage: u32,
}

/// A bind group: the bindings that share one group index.
pub struct BindGroupDescriptor {
    pub index: u32,
    pub bindings: Vec<BindingDescriptor>,
}

/// The bind groups of a render pipeline.
pub struct PipelineLayout {
    pub bind_groups: Vec<BindGroupDescriptor>,
}

impl PipelineLayout {
    /// The first bind group with group index `index`.
    pub fn get_bind_group(&self, index: u32) -> (r: Option<&BindGroupDescriptor>)
        ensures
            r is None <==> forall|k: int| 0 <= k < self.bind_groups@.len() ==> self.bind_groups@[k].index != index,
            r matches Some(g) ==> exists|k: int|
                0 <= k < self.bind_groups@.len() && *g == self.bind_groups@[k] && g.index == index
                    && forall|m: int| 0 <= m < k ==> self.bind_groups@[m].index != index,
    {
        let mut k: usize = 0;
        while k < self.bind_groups.len()
            invariant
                k <= self.bind_groups.len(),
                forall|m: int| 0 <= m < k ==> self.bind_groups@[m].index != index,
            decreases self.bind_groups.len() - k,
        {
            if self.bind_groups[k].index == index {
                return Some(&self.bind_groups[k]);
            }
            k += 1;
        }
        None
    }
}

} // verus!
