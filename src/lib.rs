//! Rebuilds the two byte streams of the connections of one endpoint from
//! captured Ethernet frames, checks the HTTP/2 connection prologue at the
//! start of each, and decodes the frames that follow.
//!
//! - `reassembly`: the append-only stream with a forward-only read cursor.
//! - `dissect`: Ethernet, IPv4 and TCP headers of a captured frame.
//! - `endpoint`: the monitored endpoint, its text form, and which direction a
//!   segment travels.
//! - `prologue`: the connection prologue.
//! - `frame`: the frame format, its decoder and encoder.
//! - `capture`: one ingestion step, and the decoding of one direction.

pub mod capture;
pub mod dissect;
pub mod endpoint;
pub mod frame;
pub mod prologue;
pub mod reassembly;
