pub mod config;
pub mod fdtd2d;
pub mod grid;
pub mod scalar;
pub mod stencil;

pub use config::Config;
pub use fdtd2d::{fdtd, fdtdBuilder, FdtdError};
pub use grid::{Component, Dims, Rect};
pub use scalar::Real;
