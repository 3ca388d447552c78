//! The session registry: a map from caller-supplied session ids to live
//! sessions, serialized by its owner under one lock.
//!
//! The registry itself holds no OS handles; each session is represented by a
//! handle number that its owner pairs with the process, writer and resize
//! resources. Handle numbers are never reused across generations, so a
//! session spawned after a kill can never be confused with its predecessor.

use crate::SessionError;
use vstd::prelude::*;

verus! {

/// One registered session: its id and the handle number standing for its OS
/// resources.
pub struct SessionEntry {
    pub id: String,
    pub handle: u64,
}

/// The id-to-handle map, plus the next never-used handle number.
///
/// Sessions are never pruned on their own: one whose process has exited
/// stays addressable until killed, and operations against it then fail at
/// the OS handle, not with `NotFound`.
pub struct SessionRegistry {
    entries: Vec<SessionEntry>,
    next_handle: u64,
}

/// The mapping an entry list denotes, later entries taking precedence.
pub open spec fn map_of(s: Seq<SessionEntry>) -> Map<Seq<char>, u64>
    decreases s.len(),
{
    if s.len() == 0 {
        Map::empty()
    } else {
        map_of(s.drop_last()).insert(s.last().id@, s.last().handle)
    }
}

/// No two entries share an id.
pub open spec fn unique_ids(s: Seq<SessionEntry>) -> bool {
    forall|i: int, j: int| 0 <= i < j < s.len() ==> s[i].id@ != s[j].id@
}

proof fn lemma_map_of_index(s: Seq<SessionEntry>, i: int)
    requires
        unique_ids(s),
        0 <= i < s.len(),
    ensures
        map_of(s).contains_key(s[i].id@),
        map_of(s)[s[i].id@] == s[i].handle,
    decreases s.len(),
{
    if i < s.len() - 1 {
        assert(s.drop_last()[i] == s[i]);
        lemma_map_of_index(s.drop_last(), i);
    }
}

proof fn lemma_map_of_absent(s: Seq<SessionEntry>, id: Seq<char>)
    requires
        forall|i: int| 0 <= i < s.len() ==> s[i].id@ != id,
    ensures
        !map_of(s).contains_key(id),
    decreases s.len(),
{
    if s.len() > 0 {
        lemma_map_of_absent(s.drop_last(), id);
    }
}

proof fn lemma_map_of_covered(s: Seq<SessionEntry>, id: Seq<char>)
    requires
        map_of(s).contains_key(id),
    ensures
        exists|i: int| 0 <= i < s.len() && s[i].id@ == id,
    decreases s.len(),
{
    if s.len() > 0 && s.last().id@ != id {
        lemma_map_of_covered(s.drop_last(), id);
        let i = choose|i: int| 0 <= i < s.drop_last().len() && s.drop_last()[i].id@ == id;
        assert(s[i].id@ == id);
    }
}

proof fn lemma_map_of_remove(s: Seq<SessionEntry>, i: int)
    requires
        unique_ids(s),
        0 <= i < s.len(),
    ensures
        map_of(s.remove(i)) =~= map_of(s).remove(s[i].id@),
    decreases s.len(),
{
    let id = s[i].id@;
    if i == s.len() - 1 {
        assert(s.remove(i) =~= s.drop_last());
        assert(forall|j: int| 0 <= j < s.drop_last().len() ==> s.drop_last()[j].id@ != id);
        lemma_map_of_absent(s.drop_last(), id);
        assert(map_of(s.drop_last()).remove(id) =~= map_of(s.drop_last()));
    } else {
        let t = s.remove(i);
        assert(t.drop_last() =~= s.drop_last().remove(i));
        assert(t.last() == s.last());
        assert(s.drop_last()[i] == s[i]);
        lemma_map_of_remove(s.drop_last(), i);
        assert(map_of(t) =~= map_of(s.drop_last()).remove(id).insert(s.last().id@, s.last().handle));
        assert(s.last().id@ != id);
        assert(map_of(s.drop_last()).remove(id).insert(s.last().id@, s.last().handle)
            =~= map_of(s.drop_last()).insert(s.last().id@, s.last().handle).remove(id));
    }
}

/// What a successful spawn or an idempotent re-spawn does: an id already
/// present is left exactly as it is (and no new handle is issued); a new id
/// is bound to the next fresh handle, which is thereby consumed.
pub open spec fn spawn_spec(
    pre: SessionRegistry,
    post: SessionRegistry,
    id: Seq<char>,
    r: Option<u64>,
) -> bool {
    if pre.sessions().contains_key(id) {
        &&& r is None
        &&& post.sessions() == pre.sessions()
        &&& post.next_handle_id() == pre.next_handle_id()
    } else {
        &&& r == Some(pre.next_handle_id())
        &&& post.sessions() == pre.sessions().insert(id, pre.next_handle_id())
        &&& post.next_handle_id() == pre.next_handle_id() + 1
    }
}

/// What kill does: unconditional removal of the binding, never an error, and
/// no effect on the handle counter.
pub open spec fn kill_spec(pre: SessionRegistry, post: SessionRegistry, id: Seq<char>) -> bool {
    &&& post.sessions() == pre.sessions().remove(id)
    &&& post.next_handle_id() == pre.next_handle_id()
}

impl SessionRegistry {
    /// The registered sessions, as id-to-handle bindings.
    pub closed spec fn sessions(&self) -> Map<Seq<char>, u64> {
        map_of(self.entries@)
    }

    /// The handle number the next created session will get.
    pub closed spec fn next_handle_id(&self) -> u64 {
        self.next_handle
    }

    /// Internal consistency: ids are unique and every issued handle is below
    /// the counter, so the counter value is fresh.
    pub closed spec fn wf(&self) -> bool {
        &&& unique_ids(self.entries@)
        &&& forall|i: int|
            0 <= i < self.entries@.len() ==> self.entries@[i].handle < self.next_handle
    }

    /// An empty registry.
    pub fn new() -> (r: SessionRegistry)
        ensures
            r.sessions() == Map::<Seq<char>, u64>::empty(),
            r.next_handle_id() == 0,
            r.wf(),
    {
        let r = SessionRegistry { entries: Vec::new(), next_handle: 0 };
        proof {
            assert(r.sessions() =~= Map::<Seq<char>, u64>::empty());
        }
        r
    }

    fn position_of(&self, id: &String) -> (r: Option<usize>)
        requires
            self.wf(),
        ensures
            match r {
                Some(i) => i < self.entries@.len() && self.entries@[i as int].id@ == id@
                    && self.sessions().contains_key(id@) && self.sessions()[id@]
                    == self.entries@[i as int].handle,
                None => !self.sessions().contains_key(id@),
            },
    {
        let mut i: usize = 0;
        while i < self.entries.len()
            invariant
                i <= self.entries@.len(),
                self.wf(),
                forall|j: int| 0 <= j < i ==> self.entries@[j].id@ != id@,
            decreases self.entries@.len() - i,
        {
            if self.entries[i].id == *id {
                proof {
                    lemma_map_of_index(self.entries@, i as int);
                }
                return Some(i);
            }
            i = i + 1;
        }
        proof {
            lemma_map_of_absent(self.entries@, id@);
        }
        None
    }

    /// Creates the session binding for `id`, or recognizes it as already
    /// present. Returns the fresh handle to build OS resources for, or `None`
    /// when the id is already live and nothing must be created — spawning is
    /// idempotent.
    pub fn spawn(&mut self, id: &String) -> (r: Option<u64>)
        requires
            old(self).wf(),
            old(self).next_handle_id() < u64::MAX,
        ensures
            final(self).wf(),
            spawn_spec(*old(self), *final(self), id@, r),
    {
        match self.position_of(id) {
            Some(_) => None,
            None => {
                proof {
                    assert forall|j: int|
                        0 <= j < self.entries@.len() implies self.entries@[j].id@ != id@ by {
                        if self.entries@[j].id@ == id@ {
                            lemma_map_of_index(self.entries@, j);
                        }
                    }
                }
                let handle = self.next_handle;
                self.entries.push(SessionEntry { id: id.clone(), handle });
                self.next_handle = self.next_handle + 1;
                proof {
                    assert(self.entries@.drop_last() =~= old(self).entries@);
                    assert(self.sessions() =~= old(self).sessions().insert(id@, handle));
                }
                Some(handle)
            },
        }
    }

    /// Resolves an id to the handle that write and resize must act on;
    /// an id with no live session fails with `NotFound`, and only then.
    pub fn handle_for(&self, id: &String) -> (r: Result<u64, SessionError>)
        requires
            self.wf(),
        ensures
            self.sessions().contains_key(id@) ==> (r matches Ok(h) && h == self.sessions()[id@]),
            !self.sessions().contains_key(id@) ==> (r matches Err(e) && e is NotFound),
    {
        match self.position_of(id) {
            Some(i) => Ok(self.entries[i].handle),
            None => Err(SessionError::NotFound),
        }
    }

    /// Whether another session can still be created: true until the handle
    /// counter is exhausted.
    pub fn can_spawn(&self) -> (r: bool)
        ensures
            r == (self.next_handle_id() < u64::MAX),
    {
        self.next_handle < u64::MAX
    }

    /// Removes the binding for `id`; removing an absent id is not an error.
    /// Only bookkeeping is affected: the session's pump is not signalled and
    /// runs until its own stream ends.
    pub fn kill(&mut self, id: &String)
        requires
            old(self).wf(),
        ensures
            final(self).wf(),
            kill_spec(*old(self), *final(self), id@),
    {
        match self.position_of(id) {
            Some(i) => {
                proof {
                    lemma_map_of_remove(self.entries@, i as int);
                    assert(forall|a: int, b: int|
                        0 <= a < b < self.entries@.remove(i as int).len() ==> self.entries@.remove(
                            i as int,
                        )[a].id@ != self.entries@.remove(i as int)[b].id@);
                }
                self.entries.remove(i);
            },
            None => {
                proof {
                    assert(self.sessions().remove(id@) =~= self.sessions());
                }
            },
        }
    }
}

/// Law: an id that was never spawned, or whose session was killed, has no
/// binding, so `handle_for` — and with it write and resize — fails with
/// `NotFound` for it.
pub proof fn lemma_absent_ids_not_found(
    fresh: SessionRegistry,
    pre: SessionRegistry,
    post: SessionRegistry,
    id: Seq<char>,
)
    requires
        fresh.sessions() == Map::<Seq<char>, u64>::empty(),
        kill_spec(pre, post, id),
    ensures
        !fresh.sessions().contains_key(id),
        !post.sessions().contains_key(id),
{
}

/// Law: spawning an id twice without a kill in between creates exactly one
/// session — the second call issues no handle and changes nothing, so no
/// second process or pump can come into being.
pub proof fn lemma_spawn_idempotent(
    r0: SessionRegistry,
    r1: SessionRegistry,
    r2: SessionRegistry,
    id: Seq<char>,
    first: Option<u64>,
    second: Option<u64>,
)
    requires
        !r0.sessions().contains_key(id),
        spawn_spec(r0, r1, id, first),
        spawn_spec(r1, r2, id, second),
    ensures
        first == Some(r0.next_handle_id()),
        second is None,
        r2.sessions() == r1.sessions(),
        r1.sessions() == r0.sessions().insert(id, r0.next_handle_id()),
{
}

/// Law: killing a session and spawning the same id again yields an
/// independent session: the new handle differs from the old one, so no
/// writer or other resource of the prior generation can be addressed.
pub proof fn lemma_respawn_is_fresh(
    r0: SessionRegistry,
    r1: SessionRegistry,
    r2: SessionRegistry,
    id: Seq<char>,
    h_old: u64,
    h_new: u64,
)
    requires
        r0.wf(),
        r0.sessions().contains_key(id),
        r0.sessions()[id] == h_old,
        kill_spec(r0, r1, id),
        spawn_spec(r1, r2, id, Some(h_new)),
    ensures
        h_new != h_old,
{
    r0.lemma_handle_below_counter(id);
}

impl SessionRegistry {
    /// Every issued handle lies below the counter, which is what keeps the
    /// counter's value fresh.
    pub proof fn lemma_handle_below_counter(&self, id: Seq<char>)
        requires
            self.wf(),
            self.sessions().contains_key(id),
        ensures
            self.sessions()[id] < self.next_handle_id(),
    {
        lemma_map_of_covered(self.entries@, id);
        let i = choose|i: int| 0 <= i < self.entries@.len() && self.entries@[i].id@ == id;
        lemma_map_of_index(self.entries@, i);
    }
}

} // verus!
