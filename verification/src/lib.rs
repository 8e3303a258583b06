//! Simulation of colour-vision deficiencies on 8-bit RGB colours and raster
//! images, and parsing of colour notations, with every result stated and
//! proved against a mathematical model.

pub mod color_parser;
pub mod colorblind;
pub mod image_handler;
pub mod palette;
pub mod raster;
pub mod single;
