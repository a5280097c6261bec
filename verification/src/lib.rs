use vstd::prelude::*;

pub mod assoc;
pub mod compositor;
pub mod entry;
pub mod forwarder;
pub mod ingest;
pub mod paths;
pub mod sidecar;
pub mod store;
pub mod text;
