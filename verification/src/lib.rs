//! Supervision of an emulator child process: a classified, indexed log of its
//! output, the control decisions of the per-process event loop, and a decoder
//! for PSF parameter files.

pub mod chars;
pub mod clock;
pub mod line_grammar;
pub mod log_store;
pub mod logger;
pub mod multiplexer;
pub mod psf;
pub mod query;
pub mod registry;
