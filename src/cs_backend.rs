pub mod backend;
pub mod session;
