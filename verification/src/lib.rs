//! Trace-context propagation over messaging annotations and RPC metadata, and
//! the ordering rules of a multi-sink telemetry pipeline.

pub mod amqp;
pub mod grpc;
pub mod init;
pub mod propagation;

pub use init::Handle;
