//! The gossip engine: a shared, lock-guarded membership view with
//! thread-safe entry points for sampling, merging and sweeping.

use vstd::prelude::*;
use vstd::rwlock::RwLock;
use vstd::rwlock::RwLockPredicate;

use crate::MembershipList;
use crate::Message;
use crate::Port;

verus! {

/// The lock invariant of the shared view: it is well formed and its self
/// identifier is the one fixed at construction.
pub struct ViewPred {
    pub self_port: Option<Port>,
}

impl RwLockPredicate<MembershipList> for ViewPred {
    open spec fn inv(self, v: MembershipList) -> bool {
        v.wf() && v.self_port == self.self_port
    }
}

/// A node's gossip engine: its identity and the membership view it shares
/// with the dissemination, reception and expiry loops.
pub struct Gossip {
    pub hostname: String,
    pub port: Port,
    pub membership_list: RwLock<MembershipList, ViewPred>,
}

impl Gossip {
    /// The lock always holds a well-formed view whose self identifier is
    /// this node's own port.
    pub open spec fn wf(self) -> bool {
        self.membership_list.pred() == (ViewPred { self_port: Some(self.port) })
    }

    /// An engine for the node listening on `port`, seeded with the given
    /// peers; the node itself is marked as the view's own entry.
    pub fn new(hostname: String, port: Port, initial_nodes: &Vec<Port>) -> (r: Self)
        ensures
            r.wf(),
            r.port == port,
            r.hostname@ == hostname@,
    {
        let view = MembershipList::from_seed(initial_nodes, Some(port));
        Gossip {
            hostname,
            port,
            membership_list: RwLock::new(view, Ghost(ViewPred { self_port: Some(port) })),
        }
    }

    /// Up to two distinct gossip targets, never this node itself.
    pub fn get_random(&self) -> (r: Vec<Port>)
        requires
            self.wf(),
        ensures
            forall|a: int| 0 <= a < r@.len() ==> r@[a] != self.port,
            forall|a: int, b: int| 0 <= a < b < r@.len() ==> r@[a] != r@[b],
            r@.len() <= 2,
    {
        let handle = self.membership_list.acquire_read();
        let r = handle.borrow().get_random();
        handle.release_read();
        r
    }

    /// Merge an incoming view from `sender` into the shared view.
    pub fn merge_incoming(&self, remote: &MembershipList, sender: Port)
        requires
            self.wf(),
            remote.wf(),
    {
        let (mut view, handle) = self.membership_list.acquire_write();
        view.merge(remote, sender);
        handle.release_write(view);
    }

    /// Apply one received gossip message to the shared view.
    pub fn process(&self, message: &Message, sender: Option<Port>)
        requires
            self.wf(),
            message matches Message::MemList(m) ==> m.wf() && sender is Some,
    {
        let (mut view, handle) = self.membership_list.acquire_write();
        crate::process_message(message, &mut view, sender);
        handle.release_write(view);
    }

    /// Evict stale entries from the shared view.
    pub fn sweep_now(&self)
        requires
            self.wf(),
    {
        let (mut view, handle) = self.membership_list.acquire_write();
        view.sweep();
        handle.release_write(view);
    }

    /// A copy of the shared view, for serialization and dissemination.
    pub fn snapshot(&self) -> (r: MembershipList)
        requires
            self.wf(),
        ensures
            r.wf(),
            r.self_port == Some(self.port),
    {
        let handle = self.membership_list.acquire_read();
        let r = handle.borrow().snapshot();
        handle.release_read();
        r
    }
}

} // verus!
