//! Small value types shared by the mesh representations.

pub mod u32vec3;

pub use u32vec3::U32Vec3;
