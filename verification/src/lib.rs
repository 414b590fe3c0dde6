//! DNP3 / IEEE 1815 protocol encoding, decoding and session logic, with Verus contracts.

pub mod primitives;
pub mod link;
pub mod transport;
pub mod app;
pub mod framing;
pub mod master;
pub mod outstation;
pub mod exchange;
pub mod stream;
