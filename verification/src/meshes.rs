pub mod obj_text;
pub mod objmesh;
