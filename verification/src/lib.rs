pub mod buffer;
pub mod frame_buffer;
pub mod screen;
pub mod tree;
pub mod window;
