//! Host-side driver core for a robot vacuum's motion/sensor controller,
//! spoken over a byte-oriented serial link with a human-readable,
//! line-delimited command/response protocol.
//!
//! The crate is organised around a small byte-stream abstraction
//! ([`link::Link`]): the protocol layer (framing, header synchronization,
//! field decoding, status aggregation, command sequencing) is written and
//! verified against that abstraction. A scripted in-memory implementation
//! ([`link::ReplayLink`]) serves tests and proofs; a real serial port can
//! implement the same trait outside the verified core.
//!
//! Floating-point sensor values are carried as validated decimal text:
//! the wire format is ASCII, and the driver itself never computes with
//! the values, so the verified core checks their syntax and hands the
//! text through unchanged. Scan distances are integer millimeters.

pub mod error;
pub mod fields;
pub mod link;
pub mod robot;
pub mod status;
pub mod text;

pub use error::GetDataError;
pub use error::ParseNumberError;
pub use fields::BoolField;
pub use fields::IntField;
pub use fields::SimpleFloatField;
pub use fields::Toggle;
pub use fields::UnitFloatField;
pub use link::Link;
pub use link::ReplayLink;
pub use robot::DSeries;
pub use status::AnalogSensorStatus;
pub use status::ChargerStatus;
pub use status::DigitalSensorStatus;
pub use status::MotorStatus;
