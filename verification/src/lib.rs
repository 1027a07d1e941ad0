//! Settlement detection support for the DynOps Arma 3 extension: the
//! integer and text logic of the extension, verified.

pub mod cluster;
pub mod echo;
pub mod locations;
pub mod marker;
pub mod misc;
pub mod protocol;
pub mod raster;
pub mod text;
