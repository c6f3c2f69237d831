pub mod ordered;
pub mod first;
pub mod closure;
pub mod follow;
pub mod render;
