//! Verified core of a parametric-surface renderer and its tooling: the shader
//! include tool, the shader-template splicing, the mesh-to-geometry-image
//! converter's integer logic, the renderer's level-of-detail schedule, and its
//! small state machines (input collection, cursor capture, model updates,
//! frame decisions).

pub mod text;
pub mod lines;
pub mod includes;
pub mod expansion;
pub mod shader_code;
pub mod geometry_image;
pub mod quad_mesh;
pub mod input;
pub mod camera;
pub mod game;
pub mod wasm_abi;
pub mod time;
pub mod lod;
pub mod models;
pub mod frame;
pub mod surface;
