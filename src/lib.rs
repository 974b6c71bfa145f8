pub mod affine;
pub mod model;
pub mod hierarchy;
pub mod mesh;
pub mod frame;
pub mod ui_state;
