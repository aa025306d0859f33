//! Routing of Open Sound Control packets to receivers ("OSC methods") by
//! address-pattern matching.
//!
//! Incoming packets are flattened into their messages in encounter order,
//! each message address is compiled once into a matcher and cached, and every
//! receiver whose address the matcher accepts gets the message appended to
//! its queue, at most once per message.
use vstd::prelude::*;

pub mod address;
pub mod byte_order;
pub mod osc_dispatcher;
pub mod osc_method;
pub mod packet;

pub use address::{Address, CompiledPattern, RoutingError};
pub use osc_dispatcher::{method_dispatcher_system, OscDispatchEvent, OscDispatcher};
pub use osc_method::{MultiAddressOscMethod, OscMethod, SingleAddressOscMethod};
pub use packet::{unpack_bundle, unpack_packets, Bundle, Message, MessageView, Packet};
