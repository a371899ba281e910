//! What an object reaches outside of routed requests.

use vstd::prelude::*;

use crate::durable::connections::DurableConnections;
use crate::durable::id::DurableObjectId;

verus! {

/// Service access where an event is not routed: the key-value storage, the database, the alarm, the
/// connections and the identity of an object.
pub struct DurableContext<K, S, A> {
    kv: K,
    sql: S,
    alarm: A,
    connections: DurableConnections,
    id: DurableObjectId,
}

impl<K, S, A> DurableContext<K, S, A> {
    /// The key-value storage.
    pub closed spec fn storage(&self) -> K {
        self.kv
    }

    /// The database.
    pub closed spec fn database(&self) -> S {
        self.sql
    }

    /// The alarm.
    pub closed spec fn clock(&self) -> A {
        self.alarm
    }

    /// The connections.
    pub closed spec fn sockets(&self) -> DurableConnections {
        self.connections
    }

    /// The identity.
    pub closed spec fn identity(&self) -> DurableObjectId {
        self.id
    }

    /// A context with all services.
    pub fn new(kv: K, sql: S, alarm: A, connections: DurableConnections, id: DurableObjectId) -> (r:
        Self)
        ensures
            r.storage() == kv,
            r.database() == sql,
            r.clock() == alarm,
            r.sockets() == connections,
            r.identity() == id,
    {
        DurableContext { kv, sql, alarm, connections, id }
    }

    /// The key-value storage of the object.
    pub fn kv(&self) -> (r: &K)
        ensures
            *r == self.storage(),
    {
        &self.kv
    }

    /// The database of the object.
    pub fn sql(&self) -> (r: &S)
        ensures
            *r == self.database(),
    {
        &self.sql
    }

    /// The alarm of the object.
    pub fn alarm(&self) -> (r: &A)
        ensures
            *r == self.clock(),
    {
        &self.alarm
    }

    /// The connections of the object.
    pub fn connections(&self) -> (r: &DurableConnections)
        ensures
            *r == self.sockets(),
    {
        &self.connections
    }

    /// The identity of the object.
    pub fn id(&self) -> (r: &DurableObjectId)
        ensures
            *r == self.identity(),
    {
        &self.id
    }
}

} // verus!
