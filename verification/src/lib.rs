//! Element tree, event routing and selection logic of a GPU user interface.

pub mod events;
pub mod listeners;
pub mod element;
pub mod gui;
pub mod order;
pub mod router;
pub mod input;
pub mod styles;
