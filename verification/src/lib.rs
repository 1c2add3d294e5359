pub mod ipc;
pub mod overlay;
pub mod render;
pub mod text;
