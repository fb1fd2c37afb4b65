//! Status checks of pipeline stages dispatched to this machine or to remote
//! hosts: the request and response contract, the frame that carries a
//! response through a shell's output, the server side that resolves a
//! request, and the dispatch policy that picks where each stage runs.

pub mod dispatch;
pub mod framing;
pub mod request;
pub mod server;
