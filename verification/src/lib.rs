//! Track finding for a cylindrical tracking detector, and the names and
//! positions of its readout electronics.

pub mod alpha16;
pub mod midas;
pub mod padwing;
pub mod reconstruction;
