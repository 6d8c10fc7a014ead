//! The user directory: ids are positions, names are unique.
use vstd::prelude::*;

use crate::error::ApiError;
use crate::text::str_eq;

verus! {

/// A user; `id` is absent in a request that creates one.
pub struct User {
    pub id: Option<u32>,
    pub name: String,
}

/// All users, in order of id; user 0 is the root user.
pub struct UserDirectory {
    pub users: Vec<User>,
}

/// Some user other than the one at `except` has the given name.
pub open spec fn name_taken(names: Seq<Seq<char>>, name: Seq<char>, except: int) -> bool {
    exists|i: int| 0 <= i < names.len() && i != except && #[trigger] names[i] == name
}

impl View for UserDirectory {
    /// The names of the users, indexed by id.
    type V = Seq<Seq<char>>;

    open spec fn view(&self) -> Seq<Seq<char>> {
        self.users@.map_values(|u: User| u.name@)
    }
}

impl UserDirectory {
    /// Each user's id is its position, ids fit in `u32`, and names are unique.
    pub open spec fn wf(&self) -> bool {
        &&& 1 <= self.users@.len() <= u32::MAX as int + 1
        &&& forall|i: int| 0 <= i < self.users@.len() ==> (#[trigger] self.users@[i]).id == Some(i as u32)
        &&& forall|i: int, j: int|
            0 <= i < j < self@.len() ==> #[trigger] self@[i] != #[trigger] self@[j]
    }

    /// A directory that holds the root user alone.
    pub fn new() -> (r: UserDirectory)
        ensures
            r.wf(),
            r@ == seq!["root"@],
    {
        let mut users: Vec<User> = Vec::new();
        users.push(User { id: Some(0), name: String::from_str("root") });
        let r = UserDirectory { users };
        assert(r@ =~= seq!["root"@]);
        r
    }

    /// The number of users.
    pub fn len(&self) -> (r: usize)
        ensures
            r == self@.len(),
    {
        self.users.len()
    }

    /// Whether a user with this id exists.
    pub fn contains(&self, id: u32) -> (r: bool)
        requires
            self.wf(),
        ensures
            r == (id < self@.len()),
    {
        (id as usize) < self.users.len()
    }

    /// Whether some user other than the one at `except` has the name.
    fn is_taken(&self, name: &str, except: usize) -> (r: bool)
        ensures
            r == name_taken(self@, name@, except as int),
    {
        let mut i: usize = 0;
        while i < self.users.len()
            invariant
                0 <= i <= self.users@.len(),
                forall|j: int| 0 <= j < i && j != except ==> self@[j] != name@,
            decreases self.users@.len() - i,
        {
            if i != except && str_eq(self.users[i].name.as_str(), name) {
                assert(self@[i as int] == name@);
                return true;
            }
            i = i + 1;
        }
        false
    }

    /// Creates a user (no id) or renames one (with an id). A rename of an
    /// unknown id is `NotFound`; a name that another user has is
    /// `InvalidArgument`. A new user gets the next id. Returns the stored user.
    pub fn post_user(&mut self, user: User) -> (r: std::result::Result<User, ApiError>)
        requires
            old(self).wf(),
            user.id is None ==> old(self)@.len() <= u32::MAX,
        ensures
            final(self).wf(),
            match user.id {
                Some(id) => if id >= old(self)@.len() {
                    r == Err::<User, ApiError>(ApiError::NotFound) && final(self)@ == old(self)@
                } else if name_taken(old(self)@, user.name@, id as int) {
                    r == Err::<User, ApiError>(ApiError::InvalidArgument) && final(self)@ == old(self)@
                } else {
                    r matches Ok(u) && u.id == Some(id) && u.name@ == user.name@
                        && final(self)@ == old(self)@.update(id as int, user.name@)
                },
                None => if name_taken(old(self)@, user.name@, -1) {
                    r == Err::<User, ApiError>(ApiError::InvalidArgument) && final(self)@ == old(self)@
                } else {
                    r matches Ok(u) && u.id == Some(old(self)@.len() as u32) && u.name@ == user.name@
                        && final(self)@ == old(self)@.push(user.name@)
                },
            },
    {
        match user.id {
            Some(id) => {
                if id as usize >= self.users.len() {
                    return Err(ApiError::NotFound);
                }
                let idx = id as usize;
                if self.is_taken(user.name.as_str(), idx) {
                    return Err(ApiError::InvalidArgument);
                }
                let ghost before = *self;
                let stored = User { id: Some(id), name: user.name.clone() };
                self.users.set(idx, stored);
                proof {
                    assert(self@ =~= before@.update(id as int, user.name@));
                    assert forall|i: int, j: int|
                        0 <= i < j < self@.len() implies #[trigger] self@[i] != #[trigger] self@[j] by {
                        if i == idx as int {
                            assert(before@[j] == self@[j]);
                        } else if j == idx as int {
                            assert(before@[i] == self@[i]);
                        } else {
                            assert(before@[i] == self@[i] && before@[j] == self@[j]);
                        }
                    }
                }
                Ok(User { id: Some(id), name: user.name })
            },
            None => {
                if self.is_taken(user.name.as_str(), usize::MAX) {
                    proof {
                        let i = choose|i: int|
                            0 <= i < self@.len() && i != usize::MAX as int && #[trigger] self@[i] == user.name@;
                        assert(i != -1 && self@[i] == user.name@);
                    }
                    return Err(ApiError::InvalidArgument);
                }
                let id = self.users.len() as u32;
                let ghost before = *self;
                let stored = User { id: Some(id), name: user.name.clone() };
                self.users.push(stored);
                proof {
                    assert(self@ =~= before@.push(user.name@));
                    assert forall|i: int, j: int|
                        0 <= i < j < self@.len() implies #[trigger] self@[i] != #[trigger] self@[j] by {
                        if j == before@.len() {
                            assert(before@[i] == self@[i]);
                            assert(i != usize::MAX as int);
                        } else {
                            assert(before@[i] == self@[i] && before@[j] == self@[j]);
                        }
                    }
                }
                Ok(User { id: Some(id), name: user.name })
            },
        }
    }

    /// All users, in order of id.
    pub fn get_user(&self) -> (r: &Vec<User>)
        ensures
            r == &self.users,
    {
        &self.users
    }
}

/// Renaming a user to the name they already have succeeds and changes
/// nothing.
pub proof fn lemma_rename_to_same_name(dir: UserDirectory, id: u32)
    requires
        dir.wf(),
        id < dir@.len(),
    ensures
        !name_taken(dir@, dir@[id as int], id as int),
        dir@.update(id as int, dir@[id as int]) == dir@,
{
    assert(dir@.update(id as int, dir@[id as int]) =~= dir@);
    if name_taken(dir@, dir@[id as int], id as int) {
        let i = choose|i: int| 0 <= i < dir@.len() && i != id as int && #[trigger] dir@[i] == dir@[id as int];
        if i < id as int {
            assert(dir@[i] != dir@[id as int]);
        } else {
            assert(dir@[id as int] != dir@[i]);
        }
    }
}

} // verus!
