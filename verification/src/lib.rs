pub mod input;
pub mod layout;
