//! The layout of a render pipeline, merged from what reflection reports of
//! its shader stages, and the byte sizes of uniform types.
//!
//! [`PipelineLayout::from_shader_layouts`] merges the bind groups of the
//! stages slot by slot and refuses stages that declare one binding in two
//! ways. [`PipelineLayout::sync_vertex_buffer_descriptors`] reconciles the
//! vertex buffers of a layout with a registry of canonical ones.
//! [`UniformPropertyType::get_size`] is the unpadded size of a uniform type.

pub mod binding;
pub mod error;
pub mod layout;
pub mod merge;
pub mod merge_lemmas;
pub mod registry;
pub mod shader;
pub mod uniform;
pub mod vertex;

pub use binding::{BindGroupDescriptor, BindType, Binding, TextureDimension};
pub use error::PipelineLayoutError;
pub use layout::PipelineLayout;
pub use registry::VertexBufferDescriptors;
pub use shader::ShaderLayout;
pub use uniform::{UniformProperty, UniformPropertyType};
pub use vertex::{VertexAttributeDescriptor, VertexBufferDescriptor, VertexFormat};
