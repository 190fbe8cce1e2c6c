//! Thermal receipt generation: a template ("skin") language, its evaluation
//! against receipt data, and ESC/POS byte rendering.
pub mod cli;
pub mod data;
pub mod document;
pub mod render;
pub mod skin;
pub mod text;
