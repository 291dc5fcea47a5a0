//! Live audio/video relay: wire protocol, stream framing, in-process
//! broadcast bus, server admission queue and client flow control.

pub mod bytes;
pub mod compress;
pub mod frame;
pub mod packet;
pub mod transport;
pub mod intercom;
pub mod session;
pub mod flow;
pub mod pixels;
pub mod util;
