pub mod laws;
pub mod paths;
pub mod shader_objects;
pub mod substitution;
