pub mod plane_gesture;
pub mod spatial_movement_grab;
