//! First-stage real-time pipeline of a radio-telescope back-end.
//!
//! An FPGA board streams channelized complex voltage samples over UDP.
//! This library holds the verified core of the host-side pipeline: the
//! wire codec for payloads, the packet-ordering state machine of the
//! capture front-end, the Stokes-I computation with its time-domain
//! downsampler, the triggered voltage ring buffer, the pulse-injection
//! state machine, and the small parsers of the command-line surface.
//!
//! All arithmetic on voltages is carried out in exact integers; the one
//! floating-point divide that scales a Stokes sum into a fractional
//! value is left to the unverified rim around the library, as are all
//! sockets, files and threads.

pub mod args;
pub mod capture;
pub mod common;
pub mod dumps;
pub mod exfil;
pub mod injection;
pub mod parse;
pub mod processing;
pub mod wire;

pub use common::{Channel, Payload, CHANNELS, PAYLOAD_SIZE};
