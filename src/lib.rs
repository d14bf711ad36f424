pub mod change;
pub mod coin;
pub mod error;
pub mod geometry;
pub mod internal;
pub mod list;
pub mod model;
pub mod node;
pub mod post;
mod sealed;
pub mod stack;
pub mod user;
pub mod vending;
