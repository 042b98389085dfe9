//! Radiosity rendering of a Cornell box on the ET-SoC-1 accelerator.

pub mod abi;
pub mod cli;
pub mod device_ops;
pub mod ff_kernel;
pub mod fold;
pub mod gamma;
pub mod ieee;
pub mod render;
pub mod render_kernel;
pub mod scene;
pub mod text;
pub mod trace;
pub mod vertices;
pub mod xtask;
