//! Terrain hydrology on gridded elevation models.
//!
//! The pipeline runs in stages over a raster of whole numbers: drainage
//! conditioning (sink filling), flow routing, flow accumulation, and stream
//! extraction. Every stage is verified against a mathematical model of the
//! grid. Elevations, cell sizes, shares and angles are fixed-point numbers;
//! what needs real numbers is left to the caller.

pub mod accumulation;
pub mod catchment;
pub mod confluence;
pub mod conservation;
pub mod dem;
pub mod direction;
pub mod fill;
pub mod flow;
pub mod heap;
pub mod merge;
pub mod mfd;
pub mod model;
pub mod precompute;
pub mod ramp;
pub mod sorting;
pub mod streams;
pub mod validate;
pub mod visualization;
