pub mod laws;
pub mod registry;

pub use registry::TodoList;
