//! The broadcaster: the registry of connected sessions and their
//! outbound queues, with per-session delivery and fan-out.
//!
//! Queues are the channel senders of the async runtime, held opaque;
//! the registry logic — unique session ids, removal of dead
//! queues — is verified here.

use vstd::prelude::*;

verus! {

/// The outbound channel sender of one session's writer task.
#[verifier::external_type_specification]
#[verifier::external_body]
#[verifier::reject_recursive_types(T)]
pub struct ExUnboundedSender<T>(tokio::sync::mpsc::UnboundedSender<T>);

/// Relies on tokio::sync::mpsc::UnboundedSender::send: queues the
/// message unless the receiver is gone; says whether it was queued.
#[verifier::external_body]
fn send_message(tx: &tokio::sync::mpsc::UnboundedSender<String>, msg: String) -> (r: bool) {
    tx.send(msg).is_ok()
}

/// One registered session: its id and its outbound queue.
pub struct ClientEntry {
    pub session_id: u128,
    pub tx: tokio::sync::mpsc::UnboundedSender<String>,
}

/// The registry of connected sessions.
pub struct Broadcaster {
    pub clients: Vec<ClientEntry>,
}

impl Broadcaster {
    /// No session id registers twice.
    pub open spec fn wf(&self) -> bool {
        forall|i: int, j: int|
            0 <= i < j < self.clients@.len() ==> self.clients@[i].session_id
                != self.clients@[j].session_id
    }

    /// An empty registry.
    pub fn new() -> (r: Broadcaster)
        ensures
            r.wf(),
            r.clients@.len() == 0,
    {
        Broadcaster { clients: Vec::new() }
    }

    /// Position of a session in the registry, if present.
    fn find(&self, session_id: u128) -> (r: Option<usize>)
        ensures
            (r matches Some(i) && i < self.clients@.len() && self.clients@[i as int].session_id
                == session_id) || (r is None && forall|k: int|
                0 <= k < self.clients@.len() ==> (#[trigger] self.clients@[k]).session_id
                    != session_id),
    {
        let mut i: usize = 0;
        while i < self.clients.len()
            invariant
                0 <= i <= self.clients@.len(),
                forall|k: int|
                    0 <= k < i ==> (#[trigger] self.clients@[k]).session_id != session_id,
            decreases self.clients@.len() - i,
        {
            if self.clients[i].session_id == session_id {
                return Some(i);
            }
            i = i + 1;
        }
        None
    }

    /// Registers a session's outbound queue; a second registration
    /// under the same id replaces the first queue.
    pub fn add_client(
        &mut self,
        session_id: u128,
        tx: tokio::sync::mpsc::UnboundedSender<String>,
    )
        requires
            old(self).wf(),
        ensures
            final(self).wf(),
            exists|i: int|
                0 <= i < final(self).clients@.len() && (#[trigger] final(self).clients@[i]).session_id == session_id,
            forall|id: u128|
                id != session_id ==> (has_client(final(self).clients@, id) == has_client(
                    old(self).clients@,
                    id,
                )),
    {
        let ghost before = self.clients@;
        match self.find(session_id) {
            Some(i) => {
                let entry = ClientEntry { session_id, tx };
                self.clients[i] = entry;
                proof {
                    assert(self.clients@[i as int].session_id == session_id);
                    assert forall|id: u128|
                        id != session_id implies has_client(self.clients@, id) == has_client(
                        before,
                        id,
                    ) by {
                        assert forall|k: int|
                            0 <= k < self.clients@.len() implies (#[trigger] self
                            .clients@[k]).session_id == before[k].session_id || k == i by {}
                        if has_client(before, id) {
                            let k = choose|k: int|
                                0 <= k < before.len() && (#[trigger] before[k]).session_id == id;
                            assert(self.clients@[k].session_id == id);
                        }
                        if has_client(self.clients@, id) {
                            let k = choose|k: int|
                                0 <= k < self.clients@.len() && (#[trigger] self
                                    .clients@[k]).session_id == id;
                            assert(before[k].session_id == id);
                        }
                    }
                }
            },
            None => {
                let entry = ClientEntry { session_id, tx };
                self.clients.push(entry);
                proof {
                    assert(self.clients@[before.len() as int].session_id == session_id);
                    assert forall|id: u128|
                        id != session_id implies has_client(self.clients@, id) == has_client(
                        before,
                        id,
                    ) by {
                        if has_client(before, id) {
                            let k = choose|k: int|
                                0 <= k < before.len() && (#[trigger] before[k]).session_id == id;
                            assert(self.clients@[k].session_id == id);
                        }
                        if has_client(self.clients@, id) {
                            let k = choose|k: int|
                                0 <= k < self.clients@.len() && (#[trigger] self
                                    .clients@[k]).session_id == id;
                            assert(k < before.len());
                            assert(before[k].session_id == id);
                        }
                    }
                }
            },
        }
    }

    /// Deregisters a session; says whether it was present.
    pub fn remove_client(&mut self, session_id: u128) -> (r: bool)
        requires
            old(self).wf(),
        ensures
            final(self).wf(),
            !has_client(final(self).clients@, session_id),
            forall|id: u128|
                id != session_id ==> (has_client(final(self).clients@, id) == has_client(
                    old(self).clients@,
                    id,
                )),
            r == has_client(old(self).clients@, session_id),
    {
        let ghost before = self.clients@;
        match self.find(session_id) {
            Some(i) => {
                self.clients.remove(i);
                proof {
                    lemma_remove_clients(before, i as int, session_id);
                }
                true
            },
            None => {
                proof {
                    assert(!has_client(before, session_id));
                }
                false
            },
        }
    }

    /// Delivers one message to one session's queue.  A session whose
    /// queue is gone is deregistered on the spot; the reply says
    /// whether the message was queued.
    pub fn send_to(&mut self, session_id: u128, msg: String) -> (r: bool)
        requires
            old(self).wf(),
        ensures
            final(self).wf(),
            !has_client(old(self).clients@, session_id) ==> !r && final(self).clients@ == old(
                self,
            ).clients@,
            !r ==> !has_client(final(self).clients@, session_id),
            forall|id: u128|
                id != session_id ==> (has_client(final(self).clients@, id) == has_client(
                    old(self).clients@,
                    id,
                )),
    {
        let ghost before = self.clients@;
        match self.find(session_id) {
            Some(i) => {
                let delivered = send_message(&self.clients[i].tx, msg);
                if delivered {
                    true
                } else {
                    self.clients.remove(i);
                    proof {
                        lemma_remove_clients(before, i as int, session_id);
                    }
                    false
                }
            },
            None => false,
        }
    }
}

/// Some registered session carries this id.
pub open spec fn has_client(s: Seq<ClientEntry>, id: u128) -> bool {
    exists|k: int| 0 <= k < s.len() && (#[trigger] s[k]).session_id == id
}

/// Removing the sole entry of an id removes exactly that id.
pub proof fn lemma_remove_clients(s: Seq<ClientEntry>, i: int, id: u128)
    requires
        0 <= i < s.len(),
        s[i].session_id == id,
        forall|k1: int, k2: int|
            0 <= k1 < k2 < s.len() ==> s[k1].session_id != s[k2].session_id,
    ensures
        !has_client(s.remove(i), id),
        forall|other: u128| other != id ==> has_client(s.remove(i), other) == has_client(s, other),
        forall|k1: int, k2: int|
            0 <= k1 < k2 < s.remove(i).len() ==> s.remove(i)[k1].session_id != s.remove(
                i,
            )[k2].session_id,
{
    let t = s.remove(i);
    assert forall|k: int| 0 <= k < t.len() implies (#[trigger] t[k]).session_id != id by {
        if k < i {
            assert(t[k] == s[k]);
        } else {
            assert(t[k] == s[k + 1]);
        }
    }
    assert forall|other: u128| other != id implies has_client(t, other) == has_client(
        s,
        other,
    ) by {
        if has_client(s, other) {
            let k = choose|k: int| 0 <= k < s.len() && (#[trigger] s[k]).session_id == other;
            if k < i {
                assert(t[k] == s[k]);
            } else {
                assert(t[k - 1] == s[k]);
            }
        }
        if has_client(t, other) {
            let k = choose|k: int| 0 <= k < t.len() && (#[trigger] t[k]).session_id == other;
            if k < i {
                assert(s[k] == t[k]);
            } else {
                assert(s[k + 1] == t[k]);
            }
        }
    }
    assert forall|k1: int, k2: int|
        0 <= k1 < k2 < t.len() implies t[k1].session_id != t[k2].session_id by {
        let m1 = if k1 < i {
            k1
        } else {
            k1 + 1
        };
        let m2 = if k2 < i {
            k2
        } else {
            k2 + 1
        };
        assert(t[k1] == s[m1]);
        assert(t[k2] == s[m2]);
    }
}

} // verus!
