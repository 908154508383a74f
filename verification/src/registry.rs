//! The session registry: the owner of all debate sessions and user records.
//!
//! Every operation is atomic over the registry value: it takes the registry
//! by exclusive reference, so no reader ever observes a session between two
//! steps of a mutation. The contracts are stated over `RegistryView`, a pair
//! of maps from ids to session and user views.

use vstd::prelude::*;
use vstd::string::{StrSliceExecFns, StringExecFns};
use crate::errors::ServiceError;
use crate::session::{MAX_PARTICIPANTS, Session, SessionView, user_key};
use crate::store::{keyed_map, lemma_keyed_map_contains, lemma_keyed_map_index, lemma_keyed_map_len,
    lemma_keyed_map_push, lemma_keyed_map_remove, lemma_unique_keys_push, unique_keys};
use crate::user::{User, UserView};

verus! {

/// What `str::trim` returns for a given text: a function of the characters
/// alone, left otherwise unspecified.
pub uninterp spec fn trimmed_of(s: Seq<char>) -> Seq<char>;

/// Relies on `str::trim`: the text with leading and trailing whitespace
/// removed. The result depends on the characters alone; it is never longer
/// than the input, and an empty input stays empty.
#[verifier::external_body]
fn trim_string(s: &String) -> (r: String)
    ensures
        r@ == trimmed_of(s@),
        r@.len() <= s@.len(),
        s@.len() == 0 ==> r@.len() == 0,
{
    s.trim().to_owned()
}

/// Relies on `uuid::Uuid::new_v4` and its `Display` impl: a random
/// version-4 UUID rendered in the hyphenated form, which is 36 characters
/// long. The value is random, so nothing further is claimed of it.
#[verifier::external_body]
fn generate_session_id() -> (r: String)
    ensures
        r@.len() == 36,
{
    uuid::Uuid::new_v4().to_string()
}

/// Relies on `chrono::Utc::now` and `DateTime::to_rfc3339`: the moment of
/// the call rendered as an RFC 3339 timestamp. The value depends on the
/// clock, so nothing is claimed of it.
#[verifier::external_body]
fn current_timestamp() -> (r: String)
{
    chrono::Utc::now().to_rfc3339()
}

/// The key under which a session is filed: its id.
pub open spec fn session_key() -> spec_fn(SessionView) -> Seq<char> {
    |s: SessionView| s.id
}

/// The registry. Sessions and users are kept as vectors of records with
/// pairwise-distinct ids; the view presents both as maps.
pub struct Registry {
    sessions: Vec<Session>,
    users: Vec<User>,
}

/// The mathematical content of the registry.
pub struct RegistryView {
    pub sessions: Map<Seq<char>, SessionView>,
    pub users: Map<Seq<char>, UserView>,
}

impl RegistryView {
    /// The registry after a session was created: the session entered under
    /// its id, the owner upserted into the user table.
    pub open spec fn after_create(self, s: SessionView, owner: UserView) -> RegistryView {
        RegistryView {
            sessions: self.sessions.insert(s.id, s),
            users: self.users.insert(owner.id, owner),
        }
    }

    /// The registry after `u` joined the session with id `id`.
    pub open spec fn after_join(self, id: Seq<char>, u: UserView) -> RegistryView {
        RegistryView {
            sessions: self.sessions.insert(id, self.sessions[id].with_participant(u)),
            users: self.users.insert(u.id, u),
        }
    }

    /// The registry after the participant `uid` left the session `id`. The
    /// user table keeps the departed user's record.
    pub open spec fn after_leave(self, id: Seq<char>, uid: Seq<char>) -> RegistryView {
        RegistryView {
            sessions: self.sessions.insert(id, self.sessions[id].without_participant(uid)),
            users: self.users,
        }
    }
}

impl Registry {
    /// The session records as a sequence of views.
    pub closed spec fn sviews(&self) -> Seq<SessionView> {
        self.sessions@.map_values(|s: Session| s@)
    }

    /// The user records as a sequence of views.
    pub closed spec fn uviews(&self) -> Seq<UserView> {
        self.users@.map_values(|u: User| u@)
    }

    /// Session and user ids are pairwise distinct, and every session is
    /// well-formed — in particular within its capacity bound.
    pub closed spec fn wf(&self) -> bool {
        &&& unique_keys(self.sviews(), session_key())
        &&& unique_keys(self.uviews(), user_key())
        &&& forall|i: int| 0 <= i < self.sessions@.len() ==> (#[trigger] self.sessions@[i]).wf()
    }
}

impl View for Registry {
    type V = RegistryView;

    closed spec fn view(&self) -> RegistryView {
        RegistryView {
            sessions: keyed_map(self.sviews(), session_key()),
            users: keyed_map(self.uviews(), user_key()),
        }
    }
}

impl Registry {
    /// An empty registry.
    pub fn new() -> (r: Registry)
        ensures
            r.wf(),
            r@.sessions == Map::<Seq<char>, SessionView>::empty(),
            r@.users == Map::<Seq<char>, UserView>::empty(),
    {
        Registry { sessions: Vec::new(), users: Vec::new() }
    }

    /// The index of the session with the given id, if any.
    fn find_session(&self, id: &String) -> (r: Option<usize>)
        ensures
            match r {
                Some(i) => i < self.sviews().len() && self.sviews()[i as int].id == id@,
                None => forall|i: int|
                    0 <= i < self.sviews().len() ==> (#[trigger] self.sviews()[i]).id != id@,
            },
    {
        let mut i: usize = 0;
        while i < self.sessions.len()
            invariant
                i <= self.sessions@.len(),
                forall|j: int| 0 <= j < i ==> (#[trigger] self.sviews()[j]).id != id@,
            decreases self.sessions@.len() - i,
        {
            if *self.sessions[i].id() == *id {
                return Some(i);
            }
            i = i + 1;
        }
        None
    }

    /// A session id is in the map exactly when some record carries it.
    proof fn lemma_sessions_contains(&self, id: Seq<char>)
        ensures
            self@.sessions.contains_key(id) <==> (exists|i: int|
                0 <= i < self.sviews().len() && (#[trigger] self.sviews()[i]).id == id),
    {
        lemma_keyed_map_contains(self.sviews(), session_key(), id);
        if exists|i: int| 0 <= i < self.sviews().len() && (#[trigger] self.sviews()[i]).id == id {
            let i = choose|i: int|
                0 <= i < self.sviews().len() && (#[trigger] self.sviews()[i]).id == id;
            assert(session_key()(self.sviews()[i]) == id);
        }
        if self@.sessions.contains_key(id) {
            let i = choose|i: int|
                0 <= i < self.sviews().len() && #[trigger] session_key()(self.sviews()[i]) == id;
            assert(self.sviews()[i].id == id);
        }
    }

    /// Each session is filed in the session map under its own id.
    pub proof fn lemma_session_id_is_key(&self, id: Seq<char>)
        requires
            self.wf(),
            self@.sessions.contains_key(id),
        ensures
            self@.sessions[id].id == id,
    {
        self.lemma_sessions_contains(id);
        let i = choose|i: int|
            0 <= i < self.sviews().len() && (#[trigger] self.sviews()[i]).id == id;
        assert(session_key()(self.sviews()[i]) == id);
        lemma_keyed_map_index(self.sviews(), session_key(), i);
    }

    /// The index of the user record with the given id, if any.
    fn find_user(&self, id: &String) -> (r: Option<usize>)
        ensures
            match r {
                Some(i) => i < self.uviews().len() && self.uviews()[i as int].id == id@,
                None => forall|i: int|
                    0 <= i < self.uviews().len() ==> (#[trigger] self.uviews()[i]).id != id@,
            },
    {
        let mut i: usize = 0;
        while i < self.users.len()
            invariant
                i <= self.users@.len(),
                forall|j: int| 0 <= j < i ==> (#[trigger] self.uviews()[j]).id != id@,
            decreases self.users@.len() - i,
        {
            if self.users[i].id == *id {
                return Some(i);
            }
            i = i + 1;
        }
        None
    }

    /// A user id is in the user table exactly when some record carries it.
    proof fn lemma_users_contains(&self, id: Seq<char>)
        ensures
            self@.users.contains_key(id) <==> (exists|i: int|
                0 <= i < self.uviews().len() && (#[trigger] self.uviews()[i]).id == id),
    {
        lemma_keyed_map_contains(self.uviews(), user_key(), id);
        if exists|i: int| 0 <= i < self.uviews().len() && (#[trigger] self.uviews()[i]).id == id {
            let i = choose|i: int|
                0 <= i < self.uviews().len() && (#[trigger] self.uviews()[i]).id == id;
            assert(user_key()(self.uviews()[i]) == id);
        }
        if self@.users.contains_key(id) {
            let i = choose|i: int|
                0 <= i < self.uviews().len() && #[trigger] user_key()(self.uviews()[i]) == id;
            assert(self.uviews()[i].id == id);
        }
    }

    /// Appends a user record whose id is not yet in the table.
    fn push_user(&mut self, user: &User)
        requires
            old(self).wf(),
            forall|k: int|
                0 <= k < old(self).uviews().len() ==> (#[trigger] old(self).uviews()[k]).id
                    != user@.id,
        ensures
            final(self).wf(),
            final(self)@.users == old(self)@.users.insert(user@.id, user@),
            final(self)@.sessions == old(self)@.sessions,
            final(self).sessions == old(self).sessions,
    {
        let ghost before = self.uviews();
        self.users.push(user.clone());
        proof {
            assert(self.uviews() =~= before.push(user@));
            lemma_keyed_map_push(before, user_key(), user@);
            assert forall|k: int| 0 <= k < before.len() implies #[trigger] user_key()(before[k])
                != user_key()(user@) by {
                assert(before[k].id != user@.id);
            }
            lemma_unique_keys_push(before, user_key(), user@);
        }
    }

    /// Upserts a user record: inserts it, replacing any record with the
    /// same id. The surrounding sessions are untouched.
    fn upsert_user(&mut self, user: &User)
        requires
            old(self).wf(),
        ensures
            final(self).wf(),
            final(self)@.users == old(self)@.users.insert(user@.id, user@),
            final(self)@.sessions == old(self)@.sessions,
            final(self).sessions == old(self).sessions,
    {
        let found = self.find_user(&user.id);
        match found {
            Some(i) => {
                proof {
                    lemma_keyed_map_remove(self.uviews(), user_key(), i as int);
                    assert(user_key()(self.uviews()[i as int]) == user@.id);
                }
                let ghost beforev = self.users@;
                let ghost before = self.uviews();
                let _ = self.users.remove(i);
                proof {
                    beforev.remove_ensures(i as int);
                    before.remove_ensures(i as int);
                    assert(self.uviews() =~= before.remove(i as int));
                    assert forall|k: int| 0 <= k < self.uviews().len() implies (
                    #[trigger] self.uviews()[k]).id != user@.id by {
                        let k0: int = if k < i { k } else { k + 1 };
                        assert(self.uviews()[k] == before[k0]);
                        if k0 < i {
                            assert(user_key()(before[k0]) != user_key()(before[i as int]));
                        } else {
                            assert(user_key()(before[i as int]) != user_key()(before[k0]));
                        }
                    }
                }
                self.push_user(user);
                proof {
                    assert(old(self)@.users.remove(user@.id).insert(user@.id, user@)
                        =~= old(self)@.users.insert(user@.id, user@));
                }
            },
            None => {
                self.push_user(user);
            },
        }
    }

    /// Takes the session at an index out of the table, leaving the rest.
    fn take_session(&mut self, i: usize) -> (s: Session)
        requires
            old(self).wf(),
            i < old(self).sessions@.len(),
        ensures
            final(self).wf(),
            s.wf(),
            s@ == old(self).sviews()[i as int],
            final(self)@.sessions == old(self)@.sessions.remove(s@.id),
            final(self)@.users == old(self)@.users,
            final(self).users == old(self).users,
            forall|k: int|
                0 <= k < final(self).sviews().len() ==> (#[trigger] final(self).sviews()[k]).id
                    != s@.id,
    {
        proof {
            lemma_keyed_map_remove(self.sviews(), session_key(), i as int);
        }
        let ghost beforev = self.sessions@;
        let ghost before = self.sviews();
        let s = self.sessions.remove(i);
        proof {
            beforev.remove_ensures(i as int);
            before.remove_ensures(i as int);
            assert(self.sviews() =~= before.remove(i as int));
            assert(s@ == before[i as int]);
            assert forall|k: int| 0 <= k < self.sviews().len() implies (
            #[trigger] self.sviews()[k]).id != s@.id && (#[trigger] self.sessions@[k]).wf() by {
                let k0: int = if k < i { k } else { k + 1 };
                assert(self.sviews()[k] == before[k0]);
                assert(self.sessions@[k] == beforev[k0]);
                assert(beforev[k0].wf());
                if k0 < i {
                    assert(session_key()(before[k0]) != session_key()(before[i as int]));
                } else {
                    assert(session_key()(before[i as int]) != session_key()(before[k0]));
                }
            }
        }
        s
    }

    /// Enters a session whose id is not yet in the table.
    fn put_session(&mut self, s: Session)
        requires
            old(self).wf(),
            s.wf(),
            forall|k: int|
                0 <= k < old(self).sviews().len() ==> (#[trigger] old(self).sviews()[k]).id
                    != s@.id,
        ensures
            final(self).wf(),
            final(self)@.sessions == old(self)@.sessions.insert(s@.id, s@),
            final(self)@.users == old(self)@.users,
            final(self).users == old(self).users,
    {
        let ghost before = self.sviews();
        let ghost beforev = self.sessions@;
        let ghost sv = s@;
        self.sessions.push(s);
        proof {
            assert(self.sviews() =~= before.push(sv));
            lemma_keyed_map_push(before, session_key(), sv);
            assert forall|k: int| 0 <= k < before.len() implies #[trigger] session_key()(before[k])
                != session_key()(sv) by {
                assert(before[k].id != sv.id);
            }
            lemma_unique_keys_push(before, session_key(), sv);
            assert forall|k: int| 0 <= k < self.sessions@.len() implies (
            #[trigger] self.sessions@[k]).wf() by {
                if k < beforev.len() {
                    assert(self.sessions@[k] == beforev[k]);
                }
            }
        }
    }

    /// A session id not yet in the table: a random UUID or, in the
    /// vanishingly rare case of a collision, an id lengthened past every
    /// stored one, which no stored id can equal.
    fn fresh_session_id(&self) -> (r: String)
        ensures
            forall|k: int|
                0 <= k < self.sviews().len() ==> (#[trigger] self.sviews()[k]).id != r@,
    {
        let id = generate_session_id();
        if self.find_session(&id).is_none() {
            return id;
        }
        let mut bound: usize = 0;
        let mut i: usize = 0;
        while i < self.sessions.len()
            invariant
                i <= self.sessions@.len(),
                forall|k: int| 0 <= k < i ==> (#[trigger] self.sviews()[k]).id.len() <= bound,
            decreases self.sessions@.len() - i,
        {
            let l = self.sessions[i].id().as_str().unicode_len();
            if l > bound {
                bound = l;
            }
            i = i + 1;
        }
        let mut fresh = generate_session_id();
        while fresh.as_str().unicode_len() <= bound
            decreases bound + 1 - fresh@.len(),
        {
            proof {
                reveal_strlit("x");
            }
            fresh.append("x");
        }
        fresh
    }

    /// Creates a session: validates the title, upserts the owner into the
    /// user table, generates a fresh id not yet in use, and enters the
    /// session with the owner as sole participant. Returns a snapshot.
    pub fn create_session(&mut self, title: &String, owner: &User) -> (r: Result<
        Session,
        ServiceError,
    >)
        requires
            old(self).wf(),
        ensures
            final(self).wf(),
            match r {
                Ok(s) => {
                    &&& trimmed_of(title@).len() > 0
                    &&& s.wf()
                    &&& s@.title == trimmed_of(title@)
                    &&& s@.is_active
                    &&& s@.owner_id == owner@.id
                    &&& s@.participants == Map::<Seq<char>, UserView>::empty().insert(
                        owner@.id,
                        owner@,
                    )
                    &&& !old(self)@.sessions.contains_key(s@.id)
                    &&& final(self)@ == old(self)@.after_create(s@, owner@)
                },
                Err(e) => {
                    &&& e == ServiceError::InvalidArgument
                    &&& trimmed_of(title@).len() == 0
                    &&& *final(self) == *old(self)
                },
            },
    {
        let trimmed = trim_string(title);
        if trimmed.as_str().is_empty() {
            return Err(ServiceError::InvalidArgument);
        }
        self.upsert_user(owner);
        let id = self.fresh_session_id();
        let ghost idv = id@;
        proof {
            self.lemma_sessions_contains(idv);
        }
        let created_at = current_timestamp();
        let session = Session::new(id, trimmed, created_at, owner.clone());
        let snapshot = session.clone();
        self.put_session(session);
        proof {
            assert(self@.sessions =~= old(self)@.sessions.insert(idv, snapshot@));
        }
        Ok(snapshot)
    }

    /// Whether a session of the given id exists.
    pub fn has_session(&self, id: &String) -> (b: bool)
        ensures
            b == self@.sessions.contains_key(id@),
    {
        let r = self.find_session(id);
        proof {
            self.lemma_sessions_contains(id@);
        }
        r.is_some()
    }

    /// Whether the given user is currently a participant of the given
    /// session. The hub validates every routing decision through this.
    pub fn is_participant(&self, session_id: &String, user_id: &String) -> (b: bool)
        requires
            self.wf(),
        ensures
            b == (self@.sessions.contains_key(session_id@)
                && self@.sessions[session_id@].participants.contains_key(user_id@)),
    {
        let found = self.find_session(session_id);
        proof {
            self.lemma_sessions_contains(session_id@);
        }
        match found {
            Some(i) => {
                proof {
                    lemma_keyed_map_index(self.sviews(), session_key(), i as int);
                }
                self.sessions[i].has_participant(user_id)
            },
            None => false,
        }
    }

    /// Reads a session. The result is a snapshot: later mutation of the
    /// live session leaves it untouched.
    pub fn get_session(&self, id: &String) -> (r: Result<Session, ServiceError>)
        requires
            self.wf(),
        ensures
            match r {
                Ok(s) => {
                    &&& self@.sessions.contains_key(id@)
                    &&& s@ == self@.sessions[id@]
                    &&& s.wf()
                },
                Err(e) => {
                    &&& e == ServiceError::NotFound
                    &&& !self@.sessions.contains_key(id@)
                },
            },
    {
        let found = self.find_session(id);
        proof {
            self.lemma_sessions_contains(id@);
        }
        match found {
            Some(i) => {
                proof {
                    lemma_keyed_map_index(self.sviews(), session_key(), i as int);
                }
                let s = &self.sessions[i];
                Ok(s.clone())
            },
            None => Err(ServiceError::NotFound),
        }
    }

    /// Reads a user record from the global user table.
    pub fn get_user(&self, id: &String) -> (r: Option<User>)
        requires
            self.wf(),
        ensures
            match r {
                Some(u) => self@.users.contains_key(id@) && u@ == self@.users[id@],
                None => !self@.users.contains_key(id@),
            },
    {
        let found = self.find_user(id);
        proof {
            self.lemma_users_contains(id@);
        }
        match found {
            Some(i) => {
                proof {
                    lemma_keyed_map_index(self.uviews(), user_key(), i as int);
                }
                let u = &self.users[i];
                Some(u.clone())
            },
            None => None,
        }
    }

    /// Snapshots of all sessions, in no promised order: each returned
    /// session is an entry of the registry's session map, every entry is
    /// represented, and no id appears twice.
    pub fn list_sessions(&self) -> (r: Vec<Session>)
        requires
            self.wf(),
        ensures
            r@.len() == self@.sessions.len(),
            forall|i: int| 0 <= i < r@.len() ==> {
                &&& (#[trigger] r@[i]).wf()
                &&& self@.sessions.contains_key(r@[i]@.id)
                &&& self@.sessions[r@[i]@.id] == r@[i]@
            },
            forall|i: int, j: int|
                0 <= i < j < r@.len() ==> (#[trigger] r@[i])@.id != (#[trigger] r@[j])@.id,
    {
        let mut r: Vec<Session> = Vec::new();
        let mut i: usize = 0;
        while i < self.sessions.len()
            invariant
                self.wf(),
                i <= self.sessions@.len(),
                r@.len() == i as int,
                forall|j: int|
                    0 <= j < i ==> (#[trigger] r@[j])@ == self.sviews()[j] && r@[j].wf(),
            decreases self.sessions@.len() - i,
        {
            let s = &self.sessions[i];
            r.push(s.clone());
            i = i + 1;
        }
        proof {
            lemma_keyed_map_len(self.sviews(), session_key());
            assert forall|i: int| 0 <= i < r@.len() implies {
                &&& (#[trigger] r@[i]).wf()
                &&& self@.sessions.contains_key(r@[i]@.id)
                &&& self@.sessions[r@[i]@.id] == r@[i]@
            } by {
                lemma_keyed_map_index(self.sviews(), session_key(), i);
            }
            assert forall|i: int, j: int| 0 <= i < j < r@.len() implies (#[trigger] r@[i])@.id != (
            #[trigger] r@[j])@.id by {
                assert(session_key()(self.sviews()[i]) != session_key()(self.sviews()[j]));
            }
        }
        r
    }

    /// Joins a user to a session. Succeeds exactly when the session exists
    /// and either has room or already holds the user (a re-join updates the
    /// profile and must succeed). On success the user is also upserted into
    /// the user table, and a snapshot of the updated session is returned.
    pub fn join_session(&mut self, id: &String, user: &User) -> (r: Result<Session, ServiceError>)
        requires
            old(self).wf(),
        ensures
            final(self).wf(),
            r is Ok <==> (old(self)@.sessions.contains_key(id@) && (old(
                self,
            )@.sessions[id@].participants.len() < MAX_PARTICIPANTS as nat || old(
                self,
            )@.sessions[id@].participants.contains_key(user@.id))),
            match r {
                Ok(s) => {
                    &&& s.wf()
                    &&& s@ == old(self)@.sessions[id@].with_participant(user@)
                    &&& final(self)@ == old(self)@.after_join(id@, user@)
                },
                Err(e) => {
                    &&& *final(self) == *old(self)
                    &&& (e == ServiceError::NotFound <==> !old(self)@.sessions.contains_key(id@))
                    &&& (e == ServiceError::Conflict ==> old(
                        self,
                    )@.sessions[id@].participants.len() >= MAX_PARTICIPANTS as nat && !old(
                        self,
                    )@.sessions[id@].participants.contains_key(user@.id))
                    &&& (e == ServiceError::NotFound || e == ServiceError::Conflict)
                },
            },
    {
        let found = self.find_session(id);
        proof {
            self.lemma_sessions_contains(id@);
        }
        match found {
            None => Err(ServiceError::NotFound),
            Some(i) => {
                proof {
                    lemma_keyed_map_index(self.sviews(), session_key(), i as int);
                }
                let full = {
                    let s = &self.sessions[i];
                    s.participant_count() >= MAX_PARTICIPANTS as usize && !s.has_participant(
                        &user.id,
                    )
                };
                if full {
                    proof {
                        assert(self.sessions@[i as int].wf());
                        self.sessions@[i as int].lemma_capacity();
                    }
                    return Err(ServiceError::Conflict);
                }
                self.upsert_user(user);
                let mut s = self.take_session(i);
                s.enroll(user);
                let snapshot = s.clone();
                self.put_session(s);
                proof {
                    assert(self@.sessions =~= old(self)@.sessions.insert(id@, snapshot@));
                }
                Ok(snapshot)
            },
        }
    }

    /// Removes a participant from a session. Succeeds exactly when the
    /// session exists and holds the user; the session survives even if it
    /// becomes empty, and ownership is not transferred. Returns a snapshot
    /// of the updated session.
    pub fn leave_session(&mut self, id: &String, user_id: &String) -> (r: Result<
        Session,
        ServiceError,
    >)
        requires
            old(self).wf(),
        ensures
            final(self).wf(),
            r is Ok <==> (old(self)@.sessions.contains_key(id@) && old(
                self,
            )@.sessions[id@].participants.contains_key(user_id@)),
            match r {
                Ok(s) => {
                    &&& s.wf()
                    &&& s@ == old(self)@.sessions[id@].without_participant(user_id@)
                    &&& final(self)@ == old(self)@.after_leave(id@, user_id@)
                },
                Err(e) => {
                    &&& *final(self) == *old(self)
                    &&& (e == ServiceError::NotFound <==> !old(self)@.sessions.contains_key(id@))
                    &&& (e == ServiceError::InvalidArgument ==> old(self)@.sessions.contains_key(
                        id@,
                    ) && !old(self)@.sessions[id@].participants.contains_key(user_id@))
                    &&& (e == ServiceError::NotFound || e == ServiceError::InvalidArgument)
                },
            },
    {
        let found = self.find_session(id);
        proof {
            self.lemma_sessions_contains(id@);
        }
        match found {
            None => Err(ServiceError::NotFound),
            Some(i) => {
                proof {
                    lemma_keyed_map_index(self.sviews(), session_key(), i as int);
                }
                let present = {
                    let s = &self.sessions[i];
                    s.has_participant(user_id)
                };
                if !present {
                    return Err(ServiceError::InvalidArgument);
                }
                let mut s = self.take_session(i);
                s.expel(user_id);
                let snapshot = s.clone();
                self.put_session(s);
                proof {
                    assert(self@.sessions =~= old(self)@.sessions.insert(id@, snapshot@));
                }
                Ok(snapshot)
            },
        }
    }
}

/// However the registry was built up, no session in it ever holds more
/// than `MAX_PARTICIPANTS` participants — capacity is never exceeded, even
/// transiently, since every mutation holds the registry exclusively.
pub proof fn lemma_capacity_never_exceeded(reg: &Registry, id: Seq<char>)
    requires
        reg.wf(),
        reg@.sessions.contains_key(id),
    ensures
        reg@.sessions[id].participants.len() <= MAX_PARTICIPANTS as nat,
{
    reg.lemma_sessions_contains(id);
    let i = choose|i: int| 0 <= i < reg.sviews().len() && (#[trigger] reg.sviews()[i]).id == id;
    assert(session_key()(reg.sviews()[i]) == id);
    lemma_keyed_map_index(reg.sviews(), session_key(), i);
    assert(reg.sessions@[i].wf());
    reg.sessions@[i].lemma_capacity();
}

/// A leave followed by a read reflects the removal: the next read of the
/// session no longer holds the departed participant, and no other session
/// is touched. Atomicity comes for free: `leave_session` holds the registry
/// by exclusive reference, so no read can fall between its steps.
pub proof fn lemma_leave_then_get(r: RegistryView, id: Seq<char>, uid: Seq<char>)
    requires
        r.sessions.contains_key(id),
    ensures
        r.after_leave(id, uid).sessions.contains_key(id),
        !r.after_leave(id, uid).sessions[id].participants.contains_key(uid),
        forall|other: Seq<char>|
            other != id ==> #[trigger] r.after_leave(id, uid).sessions.contains_key(other)
                == r.sessions.contains_key(other),
{
}

} // verus!
