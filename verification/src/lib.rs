//! Domain model of a small in-memory to-do application and the editing
//! logic of its single-line text input.

pub mod text_metrics;
pub mod whitespace;
pub mod task_list;
pub mod graphemes;
pub mod text_input;
pub mod screen;
