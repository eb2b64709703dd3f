pub mod laws;
pub mod model;
pub mod order;
pub mod path;
pub mod sandbox;
pub mod service;
pub mod status;
pub mod store;
pub mod tree;

pub use crate::service::FileSystemServer;
pub use crate::store::FileSystemImpl;
