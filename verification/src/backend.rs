//! Engine-specific tensor handles.  Each submodule binds the axis algebra to
//! one numeric engine behind a small trusted boundary.

pub mod candle;
