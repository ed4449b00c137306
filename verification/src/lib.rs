pub mod error;
pub mod queue;
pub mod registry;
pub mod request;
pub mod response;
pub mod server;
pub mod text;
