pub mod causal;
pub mod dag;
pub mod event;
pub mod graph;
pub mod text;
