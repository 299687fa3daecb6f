//! Node configuration and the table of live cluster members.
use vstd::prelude::*;
use std::collections::HashMap;

verus! {

/// Start-up options of a node.
pub struct ServerOptions {
    /// Workers of the block service pool.
    pub processors: u16,
    /// Directory of block spill files.
    pub storage: String,
    /// Address the node serves on.
    pub address: String,
    /// Membership group to join.
    pub group_name: String,
    /// Initial consensus peers.
    pub meta_members: Vec<String>,
}

pub enum InitLiveMembersError {
    CannotGetAllMembers,
}

/// Where a request for a node's block service goes.
#[derive(Debug)]
pub enum Route {
    /// The node is this one: call the local service directly.
    Local,
    /// Send to the node at this address.
    Remote(String),
}

#[derive(Clone, Copy, PartialEq, Eq, Structural, Debug)]
pub enum RouteError {
    /// The node is not an online member.
    CannotFindClient,
}

/// The online members of the cluster, by id, with their addresses.
pub struct LiveMembers {
    members: HashMap<u64, String>,
}

impl LiveMembers {
    /// Member id to address.
    pub closed spec fn table(&self) -> Map<u64, Seq<char>> {
        self.members@.map_values(|a: String| a@)
    }

    pub fn new() -> (r: LiveMembers)
        ensures
            r.table() == Map::<u64, Seq<char>>::empty(),
    {
        let r = LiveMembers { members: HashMap::new() };
        assert(r.table() =~= Map::<u64, Seq<char>>::empty());
        r
    }

    /// A member joined or came online.
    pub fn member_online(&mut self, id: u64, address: String)
        ensures
            final(self).table() == old(self).table().insert(id, address@),
    {
        let ghost a = address@;
        self.members.insert(id, address);
        assert(self.table() =~= old(self).table().insert(id, a));
    }

    /// A member left or went offline.
    pub fn member_offline(&mut self, id: u64)
        ensures
            final(self).table() == old(self).table().remove(id),
    {
        self.members.remove(&id);
        assert(self.table() =~= old(self).table().remove(id));
    }

    /// Routes a request for node `target` from node `local`.
    pub fn route(&self, local: u64, target: u64) -> (r: Result<Route, RouteError>)
        ensures
            target == local ==> r is Ok && r->Ok_0 is Local,
            target != local && self.table().contains_key(target) ==> r is Ok && r->Ok_0 is Remote
                && r->Ok_0->Remote_0@ == self.table()[target],
            target != local && !self.table().contains_key(target) ==> r == Err::<Route, RouteError>(RouteError::CannotFindClient),
    {
        if target == local {
            return Ok(Route::Local);
        }
        match self.get_by_id(target) {
            Some(a) => Ok(Route::Remote(a)),
            None => Err(RouteError::CannotFindClient),
        }
    }

    /// The address of member `id`, if online.
    pub fn get_by_id(&self, id: u64) -> (r: Option<String>)
        ensures
            match r {
                Some(a) => self.table().contains_key(id) && a@ == self.table()[id],
                None => !self.table().contains_key(id),
            },
    {
        match self.members.get(&id) {
            Some(a) => Some(a.clone()),
            None => None,
        }
    }
}

} // verus!
