
pub mod evaluate;
pub mod json;
pub mod model;
