//! The storage-backend abstraction: the capability set the orchestrator
//! and the request boundary depend on — listing, point lookup, and
//! registry-assigned insertion — with the registry as its implementation.

use crate::registry::{
    assigned_id, is_assigned_id, record_of, spec_by_id, wf, NewServer, Registry, Server,
    ServerModel,
};
use vstd::prelude::*;

verus! {

/// A registry backend.
pub trait ServerDb: Sized {
    /// The records this backend holds.
    spec fn db_view(&self) -> Seq<ServerModel>;

    /// Every record, in insertion order.
    fn all(&self) -> (r: &Vec<Server>)
        ensures
            r.deep_view() == self.db_view(),
    ;

    /// Point lookup: the first record whose id matches, if any.
    fn by_id(&self, id: u64) -> (r: Option<&Server>)
        ensures
            (match r {
                Some(s) => spec_by_id(self.db_view(), id) == Some(s@),
                None => spec_by_id(self.db_view(), id) is None,
            }),
    ;

    /// Registry-assigned insertion: appends the payload under the
    /// smallest id not in use and returns that id.
    fn insert(&mut self, server: NewServer) -> (id: u64)
        requires
            wf(old(self).db_view()),
        ensures
            wf(final(self).db_view()),
            is_assigned_id(old(self).db_view(), id),
            id == assigned_id(old(self).db_view()),
            final(self).db_view() == old(self).db_view().push(record_of(id, server@)),
    ;
}

impl ServerDb for Registry {
    open spec fn db_view(&self) -> Seq<ServerModel> {
        self@
    }

    fn all(&self) -> (r: &Vec<Server>) {
        Registry::all(self)
    }

    fn by_id(&self, id: u64) -> (r: Option<&Server>) {
        Registry::by_id(self, id)
    }

    fn insert(&mut self, server: NewServer) -> (id: u64) {
        Registry::insert(self, server)
    }
}

} // verus!
