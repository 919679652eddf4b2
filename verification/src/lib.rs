//! Frame recovery and framing for unstructured byte streams.
//!
//! A framer turns a continuous byte stream into discrete frames and back.
//! Two framers are provided: [`dataframer::Identity`], which treats every
//! chunk of bytes as one frame, and [`serialframe::Framer`], an escape-based
//! byte-stuffing framer that delimits frames with control bytes and survives
//! noise and truncated frames by resynchronising on the next start byte.
//! [`relay::Relay`] is the decision core of a one-directional frame pump:
//! it owns the in-order, exactly-once forwarding policy and the
//! stop-on-failure policy, while its caller performs the actual I/O.

pub mod dataframer;
pub mod relay;
pub mod serialframe;
