//! Pure path selection around the index location: the registry index is
//! looked for under the cargo home when no path is given on the command
//! line. Reading the environment and the filesystem is the caller's job;
//! the choices made from those values are decided here.
use vstd::prelude::*;

verus! {

/// Where the registry index lives below the cargo home.
pub open spec fn index_subpath() -> Seq<u8> {
    seq![47u8, 114u8, 101u8, 103u8, 105u8, 115u8, 116u8, 114u8, 121u8, 47u8, 105u8, 110u8, 100u8, 101u8, 120u8, 47u8, 103u8, 105u8, 116u8, 104u8, 117u8, 98u8, 46u8, 99u8, 111u8, 109u8, 45u8, 49u8, 101u8, 99u8, 99u8, 54u8, 50u8, 57u8, 57u8, 100u8, 98u8, 57u8, 101u8, 99u8, 56u8, 50u8, 51u8]
}

fn index_subpath_vec() -> (r: Vec<u8>)
    ensures
        r@ == index_subpath(),
{
    let mut v: Vec<u8> = Vec::new();
    v.push(47);
    v.push(114);
    v.push(101);
    v.push(103);
    v.push(105);
    v.push(115);
    v.push(116);
    v.push(114);
    v.push(121);
    v.push(47);
    v.push(105);
    v.push(110);
    v.push(100);
    v.push(101);
    v.push(120);
    v.push(47);
    v.push(103);
    v.push(105);
    v.push(116);
    v.push(104);
    v.push(117);
    v.push(98);
    v.push(46);
    v.push(99);
    v.push(111);
    v.push(109);
    v.push(45);
    v.push(49);
    v.push(101);
    v.push(99);
    v.push(99);
    v.push(54);
    v.push(50);
    v.push(57);
    v.push(57);
    v.push(100);
    v.push(98);
    v.push(57);
    v.push(101);
    v.push(99);
    v.push(56);
    v.push(50);
    v.push(51);
    proof {
        assert(v@ =~= index_subpath());
    }
    v
}

#[derive(Debug, PartialEq, Eq, Structural)]
pub enum ConfigError {
    NoIndexLocation,
}

/// The home directory: the profile variable when the environment holds
/// one, else whatever the operating system reports for the user.
pub fn home_dir(profile_var: Option<Vec<u8>>, os_home: Option<Vec<u8>>) -> (r: Option<Vec<u8>>)
    ensures
        profile_var is Some ==> r == profile_var,
        profile_var is None ==> r == os_home,
{
    match profile_var {
        Option::Some(p) => Option::Some(p),
        Option::None => os_home,
    }
}

/// The default index location below the cargo home, when one is known.
pub fn default_index(cargo_home: Option<Vec<u8>>) -> (r: Option<Vec<u8>>)
    ensures
        cargo_home is None ==> r is None,
        cargo_home is Some ==> r is Some && r->0@ == cargo_home->0@ + index_subpath(),
{
    match cargo_home {
        Option::None => Option::None,
        Option::Some(h) => {
            let mut p = h;
            let suffix = index_subpath_vec();
            crate::version::append_bytes(&mut p, &suffix);
            Option::Some(p)
        },
    }
}

/// The index location to use: an explicitly given path wins, else the
/// resolved default; with neither, the run cannot be configured.
pub fn index_path(explicit: Option<Vec<u8>>, default: Option<Vec<u8>>) -> (r: Result<
    Vec<u8>,
    ConfigError,
>)
    ensures
        explicit is Some ==> r == Result::<Vec<u8>, ConfigError>::Ok(explicit->0),
        explicit is None && default is Some ==> r == Result::<Vec<u8>, ConfigError>::Ok(
            default->0,
        ),
        explicit is None && default is None ==> r == Result::<Vec<u8>, ConfigError>::Err(
            ConfigError::NoIndexLocation,
        ),
{
    match explicit {
        Option::Some(p) => Result::Ok(p),
        Option::None => match default {
            Option::Some(p) => Result::Ok(p),
            Option::None => Result::Err(ConfigError::NoIndexLocation),
        },
    }
}


/// A CARGO_HOME value still pointing into a multirust install.
pub open spec fn multirust_unix() -> Seq<u8> {
    seq![46u8, 109u8, 117u8, 108u8, 116u8, 105u8, 114u8, 117u8, 115u8, 116u8, 47u8, 99u8, 97u8, 114u8, 103u8, 111u8]
}

pub open spec fn multirust_win() -> Seq<u8> {
    seq![46u8, 109u8, 117u8, 108u8, 116u8, 105u8, 114u8, 117u8, 115u8, 116u8, 92u8, 99u8, 97u8, 114u8, 103u8, 111u8]
}

pub open spec fn dot_cargo_suffix() -> Seq<u8> {
    seq![47u8, 46u8, 99u8, 97u8, 114u8, 103u8, 111u8]
}

fn multirust_unix_vec() -> (r: Vec<u8>)
    ensures
        r@ == multirust_unix(),
{
    let mut v: Vec<u8> = Vec::new();
    v.push(46);
    v.push(109);
    v.push(117);
    v.push(108);
    v.push(116);
    v.push(105);
    v.push(114);
    v.push(117);
    v.push(115);
    v.push(116);
    v.push(47);
    v.push(99);
    v.push(97);
    v.push(114);
    v.push(103);
    v.push(111);
    proof {
        assert(v@ =~= multirust_unix());
    }
    v
}

fn multirust_win_vec() -> (r: Vec<u8>)
    ensures
        r@ == multirust_win(),
{
    let mut v: Vec<u8> = Vec::new();
    v.push(46);
    v.push(109);
    v.push(117);
    v.push(108);
    v.push(116);
    v.push(105);
    v.push(114);
    v.push(117);
    v.push(115);
    v.push(116);
    v.push(92);
    v.push(99);
    v.push(97);
    v.push(114);
    v.push(103);
    v.push(111);
    proof {
        assert(v@ =~= multirust_win());
    }
    v
}

fn dot_cargo_vec() -> (r: Vec<u8>)
    ensures
        r@ == dot_cargo_suffix(),
{
    let mut v: Vec<u8> = Vec::new();
    v.push(47);
    v.push(46);
    v.push(99);
    v.push(97);
    v.push(114);
    v.push(103);
    v.push(111);
    proof {
        assert(v@ =~= dot_cargo_suffix());
    }
    v
}

/// An ASCII whitespace byte, as trimming sees it.
pub open spec fn ws_byte(b: u8) -> bool {
    b == 32 || (9 <= b <= 13)
}

/// Nothing but whitespace: trimming leaves the text empty.
pub open spec fn all_ws(s: Seq<u8>) -> bool {
    forall|i: int| 0 <= i < s.len() ==> ws_byte(#[trigger] s[i])
}

fn all_ws_exec(s: &Vec<u8>) -> (r: bool)
    ensures
        r == all_ws(s@),
{
    let mut i: usize = 0;
    while i < s.len()
        invariant
            0 <= i <= s.len(),
            forall|k: int| 0 <= k < i ==> ws_byte(#[trigger] s@[k]),
        decreases s.len() - i,
    {
        let b = s[i];
        if !(b == 32 || (9 <= b && b <= 13)) {
            return false;
        }
        i = i + 1;
    }
    true
}

/// The CARGO_HOME value counts: it is not empty after trimming and does
/// not point into an old multirust install.
pub open spec fn cargo_home_env_usable(v: Seq<u8>) -> bool {
    !crate::bytes::contains_sub(v, multirust_unix()) && !crate::bytes::contains_sub(
        v,
        multirust_win(),
    ) && !all_ws(v)
}

/// Joining a path onto a base directory: an absolute path stands alone.
pub open spec fn join_path(base: Seq<u8>, p: Seq<u8>) -> Seq<u8> {
    if p.len() > 0 && p[0] == 47 {
        p
    } else {
        base + seq![47u8] + p
    }
}

/// `r` is the home fallback: `.cargo` below the user's home, when one is
/// known.
pub open spec fn falls_back(r: Option<Vec<u8>>, user_home: Option<Vec<u8>>) -> bool {
    match user_home {
        Option::Some(h) => r is Some && r->0@ == h@ + dot_cargo_suffix(),
        Option::None => r is None,
    }
}

fn fallback_home(user_home: Option<Vec<u8>>) -> (r: Option<Vec<u8>>)
    ensures
        falls_back(r, user_home),
{
    match user_home {
        Option::Some(h) => {
            let mut p = h;
            let suffix = dot_cargo_vec();
            crate::version::append_bytes(&mut p, &suffix);
            Option::Some(p)
        },
        Option::None => Option::None,
    }
}

/// The cargo home: the CARGO_HOME value joined onto the working directory
/// when it is usable — not blank, and not a leftover multirust setting —
/// else `.cargo` below the user's home.
pub fn cargo_home(env_var: Option<Vec<u8>>, cwd: Vec<u8>, user_home: Option<Vec<u8>>) -> (r:
    Option<Vec<u8>>)
    ensures
        match env_var {
            Option::Some(v) => if cargo_home_env_usable(v@) {
                r is Some && r->0@ == join_path(cwd@, v@)
            } else {
                falls_back(r, user_home)
            },
            Option::None => falls_back(r, user_home),
        },
{
    match env_var {
        Option::Some(v) => {
            let mr_u = multirust_unix_vec();
            let mr_w = multirust_win_vec();
            let usable = !crate::bytes::contains_sub_exec(&v, &mr_u)
                && !crate::bytes::contains_sub_exec(&v, &mr_w) && !all_ws_exec(&v);
            if usable {
                if v.len() > 0 && v[0] == 47 {
                    Option::Some(v)
                } else {
                    let mut p = cwd;
                    p.push(47);
                    crate::version::append_bytes(&mut p, &v);
                    Option::Some(p)
                }
            } else {
                fallback_home(user_home)
            }
        },
        Option::None => fallback_home(user_home),
    }
}

/// Hidden directory entries (a leading dot) are not package files.
pub fn is_hidden(name: &Vec<u8>) -> (r: bool)
    ensures
        r == (name@.len() > 0 && name@[0] == 46),
{
    name.len() > 0 && name[0] == 46
}

} // verus!
