//! A static file server: the rules by which it reads its configuration, understands requests, finds
//! the file that answers one, and makes the response.
//!
//! Nothing here touches a socket, a file or a thread. Where the server depends on one, it asks for
//! the next step, is handed what came of it, and asks for the step after that: see
//! [`exchange::Exchange`] for a connection, [`reader::RequestReader`] for its request,
//! [`net`] for sockets, [`fs`] for the document root and [`queue`] for the connections that wait.

pub mod behavior;
pub mod bytes;
pub mod cache;
pub mod calendar;
pub mod config;
pub mod date;
pub mod encoding;
pub mod error;
pub mod exchange;
pub mod fields;
pub mod framing;
pub mod fs;
pub mod http;
pub mod log;
pub mod mime;
pub mod net;
pub mod queue;
pub mod reader;
pub mod requests;
pub mod response;
pub mod server;
pub mod target;
pub mod text;
pub mod variables;
pub mod wire;

pub use config::Config;
