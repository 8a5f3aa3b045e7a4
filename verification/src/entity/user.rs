//! A registered user.

use vstd::prelude::*;
use vstd::string::*;

use crate::text::signed_dec_str;

verus! {

/// A user account.  `login` may be absent: such a user is shown under a
/// number derived from the steam id instead.
#[derive(Debug, PartialEq, Eq)]
pub struct Model {
    pub id: u32,
    pub steam_id: i64,
    pub login: Option<String>,
    pub is_blocked: UserBlocked,
}

/// The display name of a user: the login where one is set, otherwise the
/// steam id behind a numero sign.
pub open spec fn login_view(m: Model) -> Seq<char> {
    match m.login {
        Some(l) => l@,
        None => "№"@ + signed_dec_str(m.steam_id as int),
    }
}

impl Model {
    /// The name this user is shown under.
    pub fn login(&self) -> (r: String)
        ensures
            r@ == login_view(*self),
    {
        match &self.login {
            Some(l) => l.clone(),
            None => {
                proof {
                    reveal_strlit("№");
                }
                let mut r = String::from_str("№");
                r.append(crate::text::i64_to_dec(self.steam_id).as_str());
                r
            },
        }
    }
}

impl Clone for Model {
    fn clone(&self) -> (r: Self)
        ensures
            r == *self,
    {
        Model {
            id: self.id,
            steam_id: self.steam_id,
            login: match &self.login {
                Some(l) => Some(l.clone()),
                None => None,
            },
            is_blocked: self.is_blocked,
        }
    }
}

/// Whether, and by whom, the user account is blocked.
#[derive(Debug, Clone, Copy, PartialEq, Eq, Structural)]
pub enum UserBlocked {
    Nope,
    ByAdmin,
    ByModerator,
    BySystem,
}

} // verus!
