pub mod entity;
pub mod entity_loader;
pub mod json;
