//! Verified core of a temporal RDF knowledge store: golden-path analysis,
//! OWL 2 RL reasoning, request labelling and pack format gating.

pub mod text;
pub mod value;
pub mod store;
pub mod path;
pub mod namespace;
pub mod numeric_value;
pub mod owl;
pub mod metrics;
pub mod proposal;
pub mod pack;
pub mod pack_load;
pub mod pack_restore;
pub mod owl_snapshot;
pub mod mcp;
pub mod mcp_transport;
pub mod migration;
