//! Resolution: which logical identity an object has, which replicas serve it,
//! and where a replica's row lies. The local views read the live state of one
//! database, in which every logical identity has one replica, on the local
//! node. The results leave room for resolvers that can fail.

use crate::db::state::Db;
use crate::format::FormatError;
use crate::identity::logical_id::LogicalId;
use crate::identity::node_id::{NodeId, LOCAL_NODE_ID};
use crate::identity::object_id::{oid_number, ObjectId};
use crate::identity::replica_id::ReplicaId;
use crate::idmap::lookup;
use crate::placement::directory::Placement;
use vstd::prelude::*;

verus! {

/// One replica of a logical object, on one node.
#[derive(Debug, Clone, Copy, PartialEq, Eq, Structural)]
pub struct ReplicaDescriptor {
    pub node: NodeId,
    pub replica: ReplicaId,
}

/// Resolves an object to its logical identity.
pub trait IdentityResolver {
    fn resolve(&self, oid: ObjectId) -> (r: Result<Option<LogicalId>, FormatError>);
}

/// Resolves a logical identity to its local replica.
pub trait ReplicaDirectory {
    fn resolve_local(&self, logical_id: LogicalId) -> (r: Result<Option<ReplicaId>, FormatError>);
}

/// Names the replicas that serve a logical identity.
pub trait ReplicaTopology {
    fn replicas_for(&self, logical_id: LogicalId) -> (r: Result<
        Vec<ReplicaDescriptor>,
        FormatError,
    >);
}

/// Resolves a replica to its placement.
pub trait PlacementResolver {
    fn resolve(&self, replica_id: ReplicaId) -> (r: Result<Option<Placement>, FormatError>);
}

/// The identity view of one database.
pub struct LocalIdentityDirectory<'a> {
    pub db: &'a Db,
}

impl<'a> LocalIdentityDirectory<'a> {
    pub fn new(db: &'a Db) -> (r: Self)
        ensures
            r.db == db,
    {
        LocalIdentityDirectory { db }
    }
}

impl<'a> IdentityResolver for LocalIdentityDirectory<'a> {
    fn resolve(&self, oid: ObjectId) -> (r: Result<Option<LogicalId>, FormatError>)
        ensures
            r == Ok::<Option<LogicalId>, FormatError>(
                lookup(self.db@.dirs.identity, oid_number(oid@)),
            ),
    {
        Ok(self.db.resolve_object(oid))
    }
}

/// The replica view of one database.
pub struct LocalReplicaDirectory<'a> {
    pub db: &'a Db,
}

impl<'a> LocalReplicaDirectory<'a> {
    pub fn new(db: &'a Db) -> (r: Self)
        ensures
            r.db == db,
    {
        LocalReplicaDirectory { db }
    }
}

impl<'a> ReplicaDirectory for LocalReplicaDirectory<'a> {
    fn resolve_local(&self, logical_id: LogicalId) -> (r: Result<Option<ReplicaId>, FormatError>)
        ensures
            r == Ok::<Option<ReplicaId>, FormatError>(
                lookup(self.db@.dirs.replicas, logical_id.0),
            ),
    {
        Ok(self.db.resolve_local(logical_id))
    }
}

/// The topology of one database: the local node holds every replica.
pub struct LocalTopology<'a> {
    pub db: &'a Db,
}

impl<'a> LocalTopology<'a> {
    pub fn new(db: &'a Db) -> (r: Self)
        ensures
            r.db == db,
    {
        LocalTopology { db }
    }
}

impl<'a> ReplicaTopology for LocalTopology<'a> {
    fn replicas_for(&self, logical_id: LogicalId) -> (r: Result<
        Vec<ReplicaDescriptor>,
        FormatError,
    >)
        ensures
            r is Ok,
            r->Ok_0@ == (match lookup(self.db@.dirs.replicas, logical_id.0) {
                Some(replica) => seq![ReplicaDescriptor { node: NodeId(LOCAL_NODE_ID), replica }],
                None => seq![],
            }),
    {
        let mut out: Vec<ReplicaDescriptor> = Vec::new();
        match self.db.resolve_local(logical_id) {
            Some(replica) => {
                out.push(ReplicaDescriptor { node: NodeId(LOCAL_NODE_ID), replica });
                assert(out@ =~= seq![ReplicaDescriptor { node: NodeId(LOCAL_NODE_ID), replica }]);
            },
            None => {
                assert(out@ =~= seq![]);
            },
        }
        Ok(out)
    }
}

/// The placement view of one database.
pub struct LocalPlacementResolver<'a> {
    pub db: &'a Db,
}

impl<'a> LocalPlacementResolver<'a> {
    pub fn new(db: &'a Db) -> (r: Self)
        ensures
            r.db == db,
    {
        LocalPlacementResolver { db }
    }
}

impl<'a> PlacementResolver for LocalPlacementResolver<'a> {
    fn resolve(&self, replica_id: ReplicaId) -> (r: Result<Option<Placement>, FormatError>)
        ensures
            r == Ok::<Option<Placement>, FormatError>(
                lookup(self.db@.dirs.placements, replica_id.0),
            ),
    {
        Ok(self.db.resolve_placement(replica_id))
    }
}

} // verus!
