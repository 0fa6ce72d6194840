pub mod life;
pub mod raw_draw;
