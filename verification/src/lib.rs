pub mod archetype;
pub mod commands;
pub mod data;
pub mod deadline;
pub mod engine;
pub mod entity;
pub mod event;
pub mod extract;
pub mod function_system;
pub mod handler;
pub mod handler_function;
pub mod heightmap;
pub mod hot_reload;
pub mod manifest;
pub mod particle;
pub mod protocol;
pub mod protocol_attr;
pub mod render;
pub mod render_channel;
pub mod resource;
pub mod route_scanner;
pub mod schedule;
pub mod selection;
pub mod system_param;
pub mod text;
pub mod version;
pub mod world;

pub use archetype::{ArchetypeId, EntityLocation};
pub use entity::Entity;
pub use version::engine_version;
