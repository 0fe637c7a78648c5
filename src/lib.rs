pub mod error;
pub mod scan;
pub mod head;
pub mod message;
pub mod body;
pub mod pool;
pub mod reader;
pub mod session;
pub mod resolver;
pub mod chunked;
