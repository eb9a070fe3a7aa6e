//! The message bus: its types, its wire format and its messages.

pub mod address;
pub mod address_laws;
pub mod bounds;
pub mod container_laws;
pub mod format;
pub mod marshal;
pub mod message;
pub mod message_format;
pub mod roundtrip;
pub mod session;
pub mod session_laws;
pub mod signature;
pub mod signature_laws;
pub mod transit;
pub mod unmarshal;
pub mod value;
pub mod value_laws;

pub use message::{Message, MessageType};
pub use value::Value;
