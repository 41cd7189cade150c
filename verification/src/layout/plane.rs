pub mod navigation;
pub mod placement;
pub mod reflow;
