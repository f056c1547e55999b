pub mod merkle;
pub mod state_tree;
pub mod state;
pub mod transition;
pub mod refinement;
pub mod persist;
pub mod commitment;
pub mod replay;
