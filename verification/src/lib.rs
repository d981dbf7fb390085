//! A small completion-driven HTTP server core: chunked and multipart bodies,
//! request parsing, routing, and the run queue that drives its programs.
//!
//! Everything here is a pure state machine. A machine is stepped with what the
//! outside world did last, and answers with what it wants done next: bytes
//! received or sent, a file written, a connection closed.
//!
//! What a machine does is stated over a mathematical view of it. The modules
//! whose names end in `laws` state what holds of the machines as a whole: that
//! a body that was sent reads back, however it is cut into pieces on its way.

pub mod seqs;
pub mod bytes;
pub mod text;

pub mod chunked;
pub mod chunked_laws;
pub mod parts;
pub mod parser;
pub mod parser_laws;
pub mod receive;
pub mod multipart;
pub mod multipart_laws;

pub mod request;
pub mod request_laws;
pub mod content_laws;
pub mod parts_laws;
pub mod response;
pub mod routes;
pub mod routes_laws;

pub mod runtime;
pub mod runtime_laws;
pub mod io_runtime;
pub mod completion;
pub mod server;
pub mod database;
