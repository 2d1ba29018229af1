//! The identity hierarchy: the external object identity, the internal
//! logical identity, the local replica identity. Each is a type of its own,
//! so that none can stand where another is meant. Identity never changes by
//! flush, compaction, restart or recovery; only the placement layer below it
//! moves.

pub mod directory;
pub mod logical_id;
pub mod node_id;
pub mod object_id;
pub mod replica_id;
pub mod topology;

pub use logical_id::LogicalId;
pub use node_id::{NodeId, LOCAL_NODE_ID};
pub use object_id::ObjectId;
pub use replica_id::ReplicaId;
pub use topology::{
    IdentityResolver, LocalIdentityDirectory, LocalReplicaDirectory, LocalTopology,
    ReplicaDescriptor, ReplicaDirectory, ReplicaTopology,
};
