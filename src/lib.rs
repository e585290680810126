//! Register-level drivers for the SD/MMC host controller, general-purpose
//! digital I/O and the serial transceiver of an application-class SoC.
//!
//! The SD/MMC driver talks to its hardware through a
//! [`window::RegisterWindow`], so that the same verified sequencing logic runs
//! against real memory-mapped registers or against a simulated controller.
//! The digital I/O and serial modules compute the register values their
//! operations read and write.

pub mod window;
pub mod mmc;
pub mod gpio;
pub mod uart;
