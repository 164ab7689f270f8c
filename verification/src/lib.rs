//! A minimal message relay core: a registry of connected clients, a router
//! that parses addressed text frames and fans them out to the listed
//! recipients, and the per-connection handler decisions (register on connect,
//! route on each frame, deregister on close or read error).
//!
//! All I/O (socket accept, websocket reads and sends) lives outside this
//! crate; the library works on plain values and decides what the transport
//! layer should do.

pub mod ids;
pub mod registry;
pub mod router;
pub mod server;
pub mod text;

pub use registry::Handle;
pub use registry::Registry;
pub use router::Dispatch;
pub use router::RoutedMessage;
pub use router::TargetOutcome;
pub use server::ConnEvent;
pub use server::ConnHandler;
pub use server::HandlerAction;
pub use server::HandlerPhase;
pub use server::ServerState;
