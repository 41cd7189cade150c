pub mod navigation;
pub mod placement;
