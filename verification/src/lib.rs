//! The control plane of an audio engine. Clients describe the signal graph that
//! they want; the library turns each description into the ordered batch of
//! instructions that brings a native runtime from the graph it holds to the graph
//! described, and says which calls to make on the runtime, in which order.
//!
//! The library holds no runtime and does no input or output: it decides, and its
//! caller acts.

pub mod audio;
pub mod engine;
pub mod events;
pub mod instruction;
pub mod json;
pub mod node;
pub mod primitives;
pub mod reconcile;
pub mod seq_facts;
pub mod server;
pub mod session;
pub mod wav;
pub mod wire;
