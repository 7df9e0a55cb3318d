//! The user directory: registration and authentication.
//!
//! Users are held in memory in file order, together with the running
//! counter that assigns the next identifier. Registration checks, in
//! order: the username is free, the password is long enough, and the
//! confirmation matches. Authentication is a linear scan for the first
//! exact credential match.

use vstd::prelude::*;
use vstd::string::StrSliceExecFns;
use crate::lines::views_of;
use crate::record::User;
use crate::record::UserV;
use crate::record::decode_user;
use crate::record::decode_user_spec;
use crate::record::encode_user;
use crate::record::encode_user_spec;
use crate::record::lemma_user_round_trip;
use crate::record::str_eq;
use crate::record::wf_user;

verus! {

/// Why a registration was refused, in the order the checks run.
#[derive(Clone, Copy, PartialEq, Eq, Structural, Debug)]
pub enum RegistrationError {
    UsernameTaken,
    PasswordTooShort,
    PasswordMismatch,
}

/// The users decoded from a run of store lines, malformed lines skipped.
pub open spec fn decoded_users(ls: Seq<Seq<char>>) -> Seq<UserV>
    decreases ls.len(),
{
    if ls.len() == 0 {
        Seq::<UserV>::empty()
    } else {
        let init = decoded_users(ls.drop_last());
        match decode_user_spec(ls.last()) {
            Some(u) => init.push(u),
            None => init,
        }
    }
}

/// The largest id among the users, or zero when there are none.
pub open spec fn max_user_id(us: Seq<UserV>) -> int
    decreases us.len(),
{
    if us.len() == 0 {
        0
    } else {
        let m = max_user_id(us.drop_last());
        if us.last().id as int > m {
            us.last().id as int
        } else {
            m
        }
    }
}

/// Some user carries this username.
pub open spec fn username_taken(us: Seq<UserV>, name: Seq<char>) -> bool {
    exists|i: int| 0 <= i < us.len() && (#[trigger] us[i]).username == name
}

/// The user matches the given credentials exactly.
pub open spec fn auth_match(u: UserV, name: Seq<char>, password: Seq<char>) -> bool {
    u.username == name && u.password == password
}

/// Index `i` holds the first user matching the credentials.
pub open spec fn first_auth_match(
    us: Seq<UserV>,
    name: Seq<char>,
    password: Seq<char>,
    i: int,
) -> bool {
    &&& 0 <= i < us.len()
    &&& auth_match(us[i], name, password)
    &&& forall|j: int| 0 <= j < i ==> !auth_match(#[trigger] us[j], name, password)
}

/// The in-memory user store: all users in file order, and the counter
/// that assigns the next id.
pub struct UserStore {
    pub users: Vec<User>,
    pub next_id: u32,
}

impl View for UserStore {
    type V = Seq<UserV>;

    open spec fn view(&self) -> Seq<UserV> {
        self.users@.map_values(|u: User| u@)
    }
}

impl UserStore {
    /// Well-formed: every id is below the counter, and ids and usernames
    /// are pairwise distinct.
    pub open spec fn wf(self) -> bool {
        &&& forall|i: int| 0 <= i < self@.len() ==> (#[trigger] self@[i]).id < self.next_id
        &&& forall|i: int, j: int|
            0 <= i < j < self@.len() ==> self@[i].id != self@[j].id
        &&& forall|i: int, j: int|
            0 <= i < j < self@.len() ==> self@[i].username != self@[j].username
    }

    /// An empty directory; the first user will get id 1.
    pub fn new() -> (s: UserStore)
        ensures
            s@ =~= Seq::<UserV>::empty(),
            s.next_id == 1,
            s.wf(),
    {
        UserStore { users: Vec::new(), next_id: 1 }
    }

    /// Load a directory from store lines: decode each line, skip the
    /// malformed ones, and seed the counter one past the largest id seen.
    pub fn from_lines(lines: &Vec<String>) -> (s: UserStore)
        ensures
            s@ == decoded_users(views_of(lines@)),
            s.next_id as int == if max_user_id(s@) < u32::MAX {
                max_user_id(s@) + 1
            } else {
                u32::MAX as int
            },
            max_user_id(s@) < u32::MAX ==> forall|i: int|
                0 <= i < s@.len() ==> (#[trigger] s@[i]).id < s.next_id,
    {
        let mut users: Vec<User> = Vec::new();
        let mut max_id: u32 = 0;
        let mut i: usize = 0;
        while i < lines.len()
            invariant
                0 <= i <= lines@.len(),
                users@.map_values(|u: User| u@) =~= decoded_users(
                    views_of(lines@).subrange(0, i as int),
                ),
                max_id as int == max_user_id(users@.map_values(|u: User| u@)),
            decreases lines@.len() - i,
        {
            let ghost prefix = views_of(lines@).subrange(0, i as int);
            let ghost next_prefix = views_of(lines@).subrange(0, i + 1);
            proof {
                assert(next_prefix.drop_last() =~= prefix);
                assert(next_prefix.last() == lines@[i as int]@);
            }
            match decode_user(lines[i].as_str()) {
                Some(u) => {
                    let ghost before = users@.map_values(|x: User| x@);
                    if u.id > max_id {
                        max_id = u.id;
                    }
                    let ghost uv = u@;
                    users.push(u);
                    proof {
                        let after = users@.map_values(|x: User| x@);
                        assert(after =~= before.push(uv));
                        assert(after.drop_last() =~= before);
                    }
                },
                None => {},
            }
            i += 1;
        }
        proof {
            assert(views_of(lines@).subrange(0, lines@.len() as int) =~= views_of(lines@));
            lemma_max_user_id_ge(users@.map_values(|u: User| u@));
        }
        let next_id = if max_id == u32::MAX {
            u32::MAX
        } else {
            max_id + 1
        };
        UserStore { users, next_id }
    }

    /// Encode every user back into its store line, in order.
    pub fn to_lines(&self) -> (r: Vec<String>)
        ensures
            views_of(r@) =~= self@.map_values(|u: UserV| encode_user_spec(u)),
    {
        let mut lines: Vec<String> = Vec::new();
        let mut i: usize = 0;
        while i < self.users.len()
            invariant
                0 <= i <= self.users@.len(),
                views_of(lines@) =~= self@.subrange(0, i as int).map_values(
                    |u: UserV| encode_user_spec(u),
                ),
            decreases self.users@.len() - i,
        {
            let line = encode_user(&self.users[i]);
            let ghost before_lines = lines@;
            lines.push(line);
            proof {
                assert(views_of(lines@) =~= views_of(before_lines).push(line@));
                assert(self@.subrange(0, i + 1) =~= self@.subrange(0, i as int).push(
                    self@[i as int],
                ));
                assert(self@.subrange(0, i + 1).map_values(|u: UserV| encode_user_spec(u))
                    =~= self@.subrange(0, i as int).map_values(|u: UserV| encode_user_spec(u)).push(
                    encode_user_spec(self@[i as int]),
                ));
            }
            i += 1;
        }
        proof {
            assert(self@.subrange(0, self@.len() as int) =~= self@);
        }
        lines
    }

    /// Whether some user already carries this username.
    pub fn username_exists(&self, username: &str) -> (b: bool)
        ensures
            b == username_taken(self@, username@),
    {
        let mut i: usize = 0;
        while i < self.users.len()
            invariant
                0 <= i <= self.users@.len(),
                forall|j: int| 0 <= j < i ==> (#[trigger] self@[j]).username != username@,
            decreases self.users@.len() - i,
        {
            if str_eq(self.users[i].username.as_str(), username) {
                proof {
                    assert(self@[i as int].username == username@);
                }
                return true;
            }
            i += 1;
        }
        false
    }

    /// Register a new account. The checks run in order: a taken username,
    /// then a password of fewer than eight characters, then a mismatched
    /// confirmation; on success the user gets the next id and is appended.
    pub fn register(&mut self, username: &str, password: &str, confirm: &str) -> (r: Result<
        User,
        RegistrationError,
    >)
        requires
            old(self).next_id < u32::MAX,
        ensures
            r == Err::<User, RegistrationError>(RegistrationError::UsernameTaken) <==> username_taken(
                old(self)@,
                username@,
            ),
            r == Err::<User, RegistrationError>(RegistrationError::PasswordTooShort) <==> (
            !username_taken(old(self)@, username@) && password@.len() < 8),
            r == Err::<User, RegistrationError>(RegistrationError::PasswordMismatch) <==> (
            !username_taken(old(self)@, username@) && password@.len() >= 8 && password@
                != confirm@),
            r is Ok <==> (!username_taken(old(self)@, username@) && password@.len() >= 8
                && password@ == confirm@),
            r is Err ==> *final(self) == *old(self),
            r matches Ok(u) ==> {
                &&& u@ == (UserV {
                    id: old(self).next_id,
                    username: username@,
                    password: password@,
                })
                &&& final(self)@ =~= old(self)@.push(u@)
                &&& final(self).next_id == old(self).next_id + 1
            },
            old(self).wf() ==> final(self).wf(),
    {
        if self.username_exists(username) {
            return Err(RegistrationError::UsernameTaken);
        }
        if password.unicode_len() < 8 {
            return Err(RegistrationError::PasswordTooShort);
        }
        if !str_eq(password, confirm) {
            return Err(RegistrationError::PasswordMismatch);
        }
        let user = User {
            id: self.next_id,
            username: username.to_owned(),
            password: password.to_owned(),
        };
        let result = user.clone();
        let ghost before = self@;
        self.users.push(user);
        self.next_id = self.next_id + 1;
        proof {
            assert(self@ =~= before.push(result@));
        }
        Ok(result)
    }

    /// Authenticate: return the first user whose username and password
    /// both match exactly, or nothing.
    pub fn authenticate(&self, username: &str, password: &str) -> (r: Option<User>)
        ensures
            r is None <==> forall|i: int|
                0 <= i < self@.len() ==> !auth_match(#[trigger] self@[i], username@, password@),
            r matches Some(u) ==> exists|i: int|
                first_auth_match(self@, username@, password@, i) && u@ == self@[i],
    {
        let mut i: usize = 0;
        while i < self.users.len()
            invariant
                0 <= i <= self.users@.len(),
                forall|j: int|
                    0 <= j < i ==> !auth_match(#[trigger] self@[j], username@, password@),
            decreases self.users@.len() - i,
        {
            if str_eq(self.users[i].username.as_str(), username) && str_eq(
                self.users[i].password.as_str(),
                password,
            ) {
                let u = self.users[i].clone();
                proof {
                    assert(first_auth_match(self@, username@, password@, i as int));
                }
                return Some(u);
            }
            i += 1;
        }
        None
    }
}

/// No user's id exceeds the directory's largest id.
pub proof fn lemma_max_user_id_ge(us: Seq<UserV>)
    ensures
        forall|i: int| 0 <= i < us.len() ==> (#[trigger] us[i]).id as int <= max_user_id(us),
    decreases us.len(),
{
    if us.len() > 0 {
        lemma_max_user_id_ge(us.drop_last());
        assert forall|i: int| 0 <= i < us.len() implies (#[trigger] us[i]).id as int
            <= max_user_id(us) by {
            if i < us.len() - 1 {
                assert(us.drop_last()[i] == us[i]);
            }
        }
    }
}

/// Reload round trip: a directory written out line by line and decoded
/// again is the same directory, for users whose fields are comma-free.
pub proof fn lemma_user_lines_reload(us: Seq<UserV>)
    requires
        forall|i: int| 0 <= i < us.len() ==> wf_user(#[trigger] us[i]),
    ensures
        decoded_users(us.map_values(|u: UserV| encode_user_spec(u))) == us,
    decreases us.len(),
{
    let lines = us.map_values(|u: UserV| encode_user_spec(u));
    if us.len() == 0 {
        assert(lines =~= Seq::<Seq<char>>::empty());
    } else {
        let init = us.drop_last();
        lemma_user_lines_reload(init);
        lemma_user_round_trip(us.last());
        assert(lines.drop_last() =~= init.map_values(|u: UserV| encode_user_spec(u)));
        assert(lines.last() == encode_user_spec(us.last()));
        assert(decoded_users(lines) =~= init.push(us.last()));
        assert(decoded_users(lines) =~= us);
    }
}

} // verus!
