//! The author identity that commits are made with.

use vstd::prelude::*;
use vstd::string::*;

verus! {

pub struct User {
    pub name: String,
    pub email: String,
}

/// An identity as read from configuration, where either part may be unset.
pub struct PartialUser {
    pub name: Option<String>,
    pub email: Option<String>,
}

impl PartialUser {
    /// The identity, when both parts are set.
    pub fn try_into_user(self) -> (r: Option<User>)
        ensures
            r is Some <==> (self.name is Some && self.email is Some),
            r is Some ==> r->0.name@ == self.name->0@ && r->0.email@ == self.email->0@,
    {
        match (self.name, self.email) {
            (Some(name), Some(email)) => Some(User { name, email }),
            _ => None,
        }
    }
}

/// The file, under the repository's metadata directory, that holds an
/// option: `config/` and the option's name with each `.` made a `/`
/// (`user.name` is kept in `config/user/name`).
pub open spec fn config_path_text(option_name: Seq<char>) -> Seq<char> {
    seq!['c', 'o', 'n', 'f', 'i', 'g', '/'] + option_name.map_values(
        |c: char|
            if c == '.' {
                '/'
            } else {
                c
            },
    )
}

pub fn config_path(option_name: &str) -> (r: String)
    ensures
        r@ == config_path_text(option_name@),
{
    proof {
        reveal_strlit("config/");
        reveal_strlit("/");
    }
    let n = option_name.unicode_len();
    let mut r = String::from_str("config/");
    let mut i: usize = 0;
    while i < n
        invariant
            0 <= i <= n,
            n == option_name@.len(),
            r@ == config_path_text(option_name@.subrange(0, i as int)),
        decreases n - i,
    {
        let ghost before = r@;
        if option_name.get_char(i) == '.' {
            r.append("/");
        } else {
            r.append(option_name.substring_char(i, i + 1));
        }
        proof {
            reveal_strlit("/");
            let c = option_name@[i as int];
            assert(option_name@.subrange(i as int, i + 1) =~= seq![c]);
            let f = |c: char|
                if c == '.' {
                    '/'
                } else {
                    c
                };
            assert(option_name@.subrange(0, i + 1) =~= option_name@.subrange(0, i as int).push(c));
            assert(option_name@.subrange(0, i as int).push(c).map_values(f) =~= option_name@.subrange(
                0,
                i as int,
            ).map_values(f).push(f(c)));
            assert(r@ =~= before.push(f(c)));
            assert(r@ =~= config_path_text(option_name@.subrange(0, i + 1)));
        }
        i = i + 1;
    }
    proof {
        assert(option_name@.subrange(0, i as int) =~= option_name@);
    }
    r
}

} // verus!
