//! Verified core of a renderer for objects living in the unit 3-sphere:
//! propagation of local poses through a parent/child hierarchy, draw
//! ordering of the entities a camera sees, the exact algebra of the
//! quaternion pairs that act as isometries of the sphere, and the small
//! pipeline and camera descriptions the renderer hands around.

pub mod camera;
pub mod hierarchy;
pub mod isometry;
pub mod pipeline;
pub mod visibility;

pub use hierarchy::{Hierarchy, HierarchyError};
pub use visibility::{
    DrawCandidate, RenderLayers, VisibleEntities, VisibleEntity, sort_draw_list, visible_entities_system,
    DEFAULT_LAYER_MASK,
};
pub use camera::{ScalingMode, WindowOrigin};
pub use pipeline::{BindGroupDescriptor, BindingDescriptor, PipelineLayout};
