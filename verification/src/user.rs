//! The participant model: a person as the registry records them.

use vstd::prelude::*;

verus! {

/// A person taking part in debates. Immutable once built; joining again
/// with the same id replaces the profile fields, the id being the identity.
pub struct User {
    pub id: String,
    pub name: String,
    pub age: u32,
    pub gender: String,
}

/// The mathematical content of a `User`.
pub struct UserView {
    pub id: Seq<char>,
    pub name: Seq<char>,
    pub age: u32,
    pub gender: Seq<char>,
}

impl View for User {
    type V = UserView;

    open spec fn view(&self) -> UserView {
        UserView { id: self.id@, name: self.name@, age: self.age, gender: self.gender@ }
    }
}

impl User {
    /// Builds a user record from its fields.
    pub fn new(id: String, name: String, age: u32, gender: String) -> (u: User)
        ensures
            u@ == (UserView { id: id@, name: name@, age: age, gender: gender@ }),
    {
        User { id, name, age, gender }
    }
}

impl Clone for User {
    fn clone(&self) -> (u: User)
        ensures
            u@ == self@,
    {
        User {
            id: self.id.clone(),
            name: self.name.clone(),
            age: self.age,
            gender: self.gender.clone(),
        }
    }
}

} // verus!
