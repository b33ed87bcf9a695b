//! Identity value types (`NodeId`, `Pid`, `PidV2` and their borrowed
//! mirrors) together with codecs for four wire-format families:
//! a self-describing binary map encoding, a schemaless positional binary
//! encoding, a length-prefixed text encoding, and a compact binary
//! encoding with an optional packed mode.  Every codec states and proves
//! its round-trip and schema-evolution behaviour.

pub mod model;
pub mod wire;
pub mod positional;
pub mod selfdesc;
pub mod compact;
pub mod text;
