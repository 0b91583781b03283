//! Room planner core: the wall model, the editing rules of the plan editor,
//! the rooms of the wall graph, the triangulation of their floors, and the
//! index buffers of the floor and wall meshes.

pub mod editor;
pub mod mesh;
pub mod models;
pub mod rooms;
pub mod triangulation;
