pub mod color;
pub mod drf;
pub mod line_style;
pub mod packet;
pub mod stipple;
