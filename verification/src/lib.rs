//! Verified core of the deejx slider mixer: the serial packet format shared by the
//! board and the driver, the decisions the driver takes on every packet, and the
//! configuration model.
pub mod adc;
pub mod audio;
pub mod config;
pub mod packet;
pub mod sliders;
