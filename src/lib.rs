pub mod ncube;
pub mod partition;
pub mod position;
pub mod node;
pub mod tree;
pub mod view;
