//! Verified core of a handful of Ockam components: the markdown block
//! scanner of the docs.ockam.io example runner, the OpenTelemetry propagation
//! context carried in messages, the `key=value` value parsers of the
//! command line and the attribute rules of `ockam project ticket`.
pub mod text;
pub mod doc_blocks;
pub mod otel_context;
pub mod value_parsers;
pub mod ticket;
pub mod test_plan;
pub mod block_laws;
