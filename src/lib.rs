//! A retained-mode widget cache, a deduplicating download table and the grid
//! navigation of a browsable media menu, with their contracts.

pub mod schema;
pub mod app;
pub mod fetcher;
pub mod menu;
pub mod widget;
