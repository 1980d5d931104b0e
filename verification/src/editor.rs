pub mod apply;
pub mod cursor_tracker;
pub mod image_handler;
pub mod math_view;
pub mod renderer;
pub mod text_storage;
