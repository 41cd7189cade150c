pub mod anchors;
pub mod plane;
pub mod scrolling;
pub mod search;
