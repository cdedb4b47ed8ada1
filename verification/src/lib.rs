//! The core of a RESP-speaking cluster proxy: the wire value model and
//! codec, the per-connection session pipeline that keeps replies in
//! request order, the command/reply pair that decouples computing a reply
//! from writing it, and the cluster router with its atomic metadata
//! snapshot.

pub mod resp;
pub mod encode;
pub mod decode;
pub mod command;
pub mod session;
pub mod router;
