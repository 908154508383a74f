//! A debate session: a titled, bounded group of participants.

use vstd::prelude::*;
use crate::store::{keyed_map, lemma_keyed_map_contains, lemma_keyed_map_index, lemma_keyed_map_len,
    lemma_keyed_map_push, lemma_keyed_map_remove, lemma_unique_keys_push, unique_keys};
use crate::user::{User, UserView};

verus! {

/// The most participants a session may ever hold.
pub const MAX_PARTICIPANTS: u32 = 6;

/// A debate session. Participants are kept as a vector of records with
/// pairwise-distinct ids; the session's view presents them as a map from
/// user id to profile.
pub struct Session {
    id: String,
    title: String,
    created_at: String,
    is_active: bool,
    owner_id: String,
    participants: Vec<User>,
}

/// The mathematical content of a `Session`.
pub struct SessionView {
    pub id: Seq<char>,
    pub title: Seq<char>,
    pub created_at: Seq<char>,
    pub is_active: bool,
    pub owner_id: Seq<char>,
    pub participants: Map<Seq<char>, UserView>,
}

/// The key under which a participant record is filed: their id.
pub open spec fn user_key() -> spec_fn(UserView) -> Seq<char> {
    |u: UserView| u.id
}

impl SessionView {
    /// The session after `u` joined: their record entered under their id,
    /// replacing any earlier profile; everything else unchanged.
    pub open spec fn with_participant(self, u: UserView) -> SessionView {
        SessionView { participants: self.participants.insert(u.id, u), ..self }
    }

    /// The session after the participant with id `uid` left.
    pub open spec fn without_participant(self, uid: Seq<char>) -> SessionView {
        SessionView { participants: self.participants.remove(uid), ..self }
    }
}

impl Session {
    /// The participant records as a sequence of views.
    pub closed spec fn pviews(&self) -> Seq<UserView> {
        self.participants@.map_values(|u: User| u@)
    }

    /// Participant ids are pairwise distinct and the count respects the
    /// capacity bound.
    pub closed spec fn wf(&self) -> bool {
        &&& unique_keys(self.pviews(), user_key())
        &&& self.participants@.len() <= MAX_PARTICIPANTS
    }
}

impl View for Session {
    type V = SessionView;

    closed spec fn view(&self) -> SessionView {
        SessionView {
            id: self.id@,
            title: self.title@,
            created_at: self.created_at@,
            is_active: self.is_active,
            owner_id: self.owner_id@,
            participants: keyed_map(self.pviews(), user_key()),
        }
    }
}

impl Session {
    /// The session's unique id.
    pub fn id(&self) -> (r: &String)
        ensures
            r@ == self@.id,
    {
        &self.id
    }

    /// The session's title, as stored: already trimmed.
    pub fn title(&self) -> (r: &String)
        ensures
            r@ == self@.title,
    {
        &self.title
    }

    /// When the session was created, as an RFC 3339 timestamp.
    pub fn created_at(&self) -> (r: &String)
        ensures
            r@ == self@.created_at,
    {
        &self.created_at
    }

    /// Whether the session is joinable.
    pub fn is_active(&self) -> (b: bool)
        ensures
            b == self@.is_active,
    {
        self.is_active
    }

    /// The id of the user who created the session.
    pub fn owner_id(&self) -> (r: &String)
        ensures
            r@ == self@.owner_id,
    {
        &self.owner_id
    }

    /// A well-formed session holds at most `MAX_PARTICIPANTS` participants.
    pub proof fn lemma_capacity(&self)
        requires
            self.wf(),
        ensures
            self@.participants.len() <= MAX_PARTICIPANTS as nat,
            self@.participants.dom().finite(),
    {
        lemma_keyed_map_len(self.pviews(), user_key());
    }

    /// Builds a fresh session with the owner as sole participant.
    pub fn new(id: String, title: String, created_at: String, owner: User) -> (s: Session)
        ensures
            s.wf(),
            s@ == (SessionView {
                id: id@,
                title: title@,
                created_at: created_at@,
                is_active: true,
                owner_id: owner@.id,
                participants: Map::<Seq<char>, UserView>::empty().insert(owner@.id, owner@),
            }),
    {
        let ghost oview = owner@;
        let owner_id = owner.id.clone();
        let mut participants: Vec<User> = Vec::new();
        participants.push(owner);
        let s = Session { id, title, created_at, is_active: true, owner_id, participants };
        proof {
            assert(s.pviews() =~= Seq::<UserView>::empty().push(oview));
            lemma_keyed_map_push(Seq::<UserView>::empty(), user_key(), oview);
            assert(keyed_map(Seq::<UserView>::empty(), user_key())
                =~= Map::<Seq<char>, UserView>::empty());
        }
        s
    }

    /// A participant id is in the map exactly when some record carries it.
    proof fn lemma_participants_contains(&self, id: Seq<char>)
        ensures
            self@.participants.contains_key(id) <==> (exists|i: int|
                0 <= i < self.pviews().len() && (#[trigger] self.pviews()[i]).id == id),
    {
        lemma_keyed_map_contains(self.pviews(), user_key(), id);
        if exists|i: int| 0 <= i < self.pviews().len() && (#[trigger] self.pviews()[i]).id == id {
            let i = choose|i: int|
                0 <= i < self.pviews().len() && (#[trigger] self.pviews()[i]).id == id;
            assert(user_key()(self.pviews()[i]) == id);
        }
        if self@.participants.contains_key(id) {
            let i = choose|i: int|
                0 <= i < self.pviews().len() && #[trigger] user_key()(self.pviews()[i]) == id;
            assert(self.pviews()[i].id == id);
        }
    }

    /// The index of the participant with the given id, if any.
    fn find_participant(&self, id: &String) -> (r: Option<usize>)
        ensures
            match r {
                Some(i) => i < self.pviews().len() && self.pviews()[i as int].id == id@,
                None => forall|i: int|
                    0 <= i < self.pviews().len() ==> (#[trigger] self.pviews()[i]).id != id@,
            },
    {
        let mut i: usize = 0;
        while i < self.participants.len()
            invariant
                i <= self.participants@.len(),
                forall|j: int| 0 <= j < i ==> (#[trigger] self.pviews()[j]).id != id@,
            decreases self.participants@.len() - i,
        {
            if self.participants[i].id == *id {
                return Some(i);
            }
            i = i + 1;
        }
        None
    }

    /// Whether a user of the given id is currently a participant.
    pub fn has_participant(&self, id: &String) -> (b: bool)
        ensures
            b == self@.participants.contains_key(id@),
    {
        let r = self.find_participant(id);
        proof {
            self.lemma_participants_contains(id@);
        }
        r.is_some()
    }

    /// How many participants the session currently holds.
    pub fn participant_count(&self) -> (n: usize)
        requires
            self.wf(),
        ensures
            n == self@.participants.len(),
    {
        proof {
            lemma_keyed_map_len(self.pviews(), user_key());
        }
        self.participants.len()
    }

    /// Read access to the participant records. Each record is an entry of
    /// the session's participant map, and every entry is represented.
    pub fn participants(&self) -> (r: &Vec<User>)
        requires
            self.wf(),
        ensures
            r@.len() == self@.participants.len(),
            forall|i: int| 0 <= i < r@.len() ==> {
                &&& self@.participants.contains_key((#[trigger] r@[i])@.id)
                &&& self@.participants[r@[i]@.id] == r@[i]@
            },
            forall|i: int, j: int|
                0 <= i < j < r@.len() ==> (#[trigger] r@[i])@.id != (#[trigger] r@[j])@.id,
    {
        proof {
            lemma_keyed_map_len(self.pviews(), user_key());
            assert forall|i: int| 0 <= i < self.pviews().len() implies {
                &&& self@.participants.contains_key((#[trigger] self.participants@[i])@.id)
                &&& self@.participants[self.participants@[i]@.id] == self.participants@[i]@
            } by {
                lemma_keyed_map_index(self.pviews(), user_key(), i);
            }
            assert forall|i: int, j: int|
                0 <= i < j < self.participants@.len() implies (
            #[trigger] self.participants@[i])@.id != (#[trigger] self.participants@[j])@.id by {
                assert(user_key()(self.pviews()[i]) != user_key()(self.pviews()[j]));
                assert(self.pviews()[i] == self.participants@[i]@);
                assert(self.pviews()[j] == self.participants@[j]@);
            }
        }
        &self.participants
    }

    /// Enrolls a user: inserts their record, replacing a previous record
    /// with the same id. Only called once admission has been decided, so
    /// capacity must allow it.
    pub(crate) fn enroll(&mut self, user: &User)
        requires
            old(self).wf(),
            old(self)@.participants.len() < MAX_PARTICIPANTS as nat
                || old(self)@.participants.contains_key(user@.id),
        ensures
            final(self).wf(),
            final(self)@ == old(self)@.with_participant(user@),
    {
        proof {
            lemma_keyed_map_len(self.pviews(), user_key());
            lemma_keyed_map_contains(self.pviews(), user_key(), user@.id);
        }
        let found = self.find_participant(&user.id);
        match found {
            Some(i) => {
                proof {
                    lemma_keyed_map_remove(self.pviews(), user_key(), i as int);
                    assert(self.pviews()[i as int].id == user@.id);
                }
                let ghost before = self.pviews();
                let _ = self.participants.remove(i);
                proof {
                    assert(self.pviews() =~= before.remove(i as int));
                    assert forall|j: int| 0 <= j < self.pviews().len() implies (
                    #[trigger] self.pviews()[j]).id != user@.id by {
                        let j0: int = if j < i { j } else { j + 1 };
                        before.remove_ensures(i as int);
                        assert(self.pviews()[j] == before[j0]);
                    }
                }
                self.push_fresh(user);
                proof {
                    assert(old(self)@.participants.remove(user@.id).insert(user@.id, user@)
                        =~= old(self)@.participants.insert(user@.id, user@));
                }
            },
            None => {
                self.push_fresh(user);
            },
        }
    }

    /// Appends a record whose id is not yet present.
    fn push_fresh(&mut self, user: &User)
        requires
            unique_keys(old(self).pviews(), user_key()),
            old(self).pviews().len() < MAX_PARTICIPANTS as nat,
            forall|i: int|
                0 <= i < old(self).pviews().len() ==> (#[trigger] old(self).pviews()[i]).id
                    != user@.id,
        ensures
            final(self).wf(),
            final(self)@ == (SessionView {
                participants: old(self)@.participants.insert(user@.id, user@),
                ..old(self)@
            }),
            final(self)@.participants == old(self)@.participants.insert(user@.id, user@),
    {
        let ghost before = self.pviews();
        self.participants.push(user.clone());
        proof {
            assert(self.pviews() =~= before.push(user@));
            lemma_keyed_map_push(before, user_key(), user@);
            lemma_unique_keys_push(before, user_key(), user@);
        }
    }

    /// Removes the participant with the given id. Only called once the
    /// registry has checked that they are present.
    pub(crate) fn expel(&mut self, user_id: &String)
        requires
            old(self).wf(),
            old(self)@.participants.contains_key(user_id@),
        ensures
            final(self).wf(),
            final(self)@ == old(self)@.without_participant(user_id@),
    {
        proof {
            lemma_keyed_map_contains(self.pviews(), user_key(), user_id@);
        }
        let found = self.find_participant(user_id);
        match found {
            Some(i) => {
                proof {
                    lemma_keyed_map_remove(self.pviews(), user_key(), i as int);
                    assert(self.pviews()[i as int].id == user_id@);
                }
                let ghost before = self.pviews();
                let _ = self.participants.remove(i);
                proof {
                    assert(self.pviews() =~= before.remove(i as int));
                }
            },
            None => {
                proof {
                    assert(false);
                }
            },
        }
    }
}

impl Clone for Session {
    /// A snapshot: an independent copy with the same view. Later mutation
    /// of the live session leaves the copy untouched.
    fn clone(&self) -> (s: Session)
        ensures
            s@ == self@,
            self.wf() ==> s.wf(),
    {
        let mut participants: Vec<User> = Vec::new();
        let mut i: usize = 0;
        while i < self.participants.len()
            invariant
                i <= self.participants@.len(),
                participants@.len() == i as int,
                forall|j: int| 0 <= j < i ==> participants@[j]@ == self.pviews()[j],
            decreases self.participants@.len() - i,
        {
            participants.push(self.participants[i].clone());
            i = i + 1;
        }
        let s = Session {
            id: self.id.clone(),
            title: self.title.clone(),
            created_at: self.created_at.clone(),
            is_active: self.is_active,
            owner_id: self.owner_id.clone(),
            participants,
        };
        proof {
            assert(s.pviews() =~= self.pviews());
        }
        s
    }
}

/// Re-joining an already-present user id leaves the participant count and
/// the participant set unchanged: the join merely replaces the profile.
pub proof fn lemma_rejoin_preserves_count(s: SessionView, u: UserView)
    requires
        s.participants.dom().finite(),
        s.participants.contains_key(u.id),
    ensures
        s.with_participant(u).participants.len() == s.participants.len(),
        s.with_participant(u).participants.dom() == s.participants.dom(),
{
    broadcast use vstd::set::axiom_set_insert_len;

    assert(s.with_participant(u).participants.dom() =~= s.participants.dom());
}

} // verus!
