//! The update hook's wire data: the notification a push produces, carried
//! as key-value pairs to the `/repo_update` endpoint, and the exit code
//! the hook process ends with.

use vstd::prelude::*;

verus! {

/// A push notification: what the hook reads from its arguments and
/// environment, and what the server needs to translate the push back.
pub struct RepoUpdate {
    pub refname: String,
    pub old_rev: String,
    pub new_rev: String,
    pub username: String,
    pub password: String,
    pub remote_url: String,
    pub base_ns: String,
    pub filter_spec: String,
    pub namespace: String,
    pub git_dir: String,
}

/// The pairs the hook sends, in a fixed order.
pub fn repo_update_pairs(u: &RepoUpdate) -> (r: Vec<(String, String)>)
    ensures
        r@.len() == 10,
        r@[0].0@ == "refname"@ && r@[0].1@ == u.refname@,
        r@[1].0@ == "old"@ && r@[1].1@ == u.old_rev@,
        r@[2].0@ == "new"@ && r@[2].1@ == u.new_rev@,
        r@[3].0@ == "username"@ && r@[3].1@ == u.username@,
        r@[4].0@ == "password"@ && r@[4].1@ == u.password@,
        r@[5].0@ == "remote_url"@ && r@[5].1@ == u.remote_url@,
        r@[6].0@ == "base_ns"@ && r@[6].1@ == u.base_ns@,
        r@[7].0@ == "filter_spec"@ && r@[7].1@ == u.filter_spec@,
        r@[8].0@ == "GIT_NAMESPACE"@ && r@[8].1@ == u.namespace@,
        r@[9].0@ == "GIT_DIR"@ && r@[9].1@ == u.git_dir@,
{
    let mut r: Vec<(String, String)> = Vec::new();
    r.push((("refname").to_owned(), u.refname.clone()));
    r.push((("old").to_owned(), u.old_rev.clone()));
    r.push((("new").to_owned(), u.new_rev.clone()));
    r.push((("username").to_owned(), u.username.clone()));
    r.push((("password").to_owned(), u.password.clone()));
    r.push((("remote_url").to_owned(), u.remote_url.clone()));
    r.push((("base_ns").to_owned(), u.base_ns.clone()));
    r.push((("filter_spec").to_owned(), u.filter_spec.clone()));
    r.push((("GIT_NAMESPACE").to_owned(), u.namespace.clone()));
    r.push((("GIT_DIR").to_owned(), u.git_dir.clone()));
    r
}

/// The value of the first pair carrying `key`, if any.
pub open spec fn first_val(pairs: Seq<(String, String)>, key: Seq<char>) -> Option<Seq<char>>
    decreases pairs.len(),
{
    if pairs.len() == 0 {
        Option::None
    } else if pairs[0].0@ == key {
        Option::Some(pairs[0].1@)
    } else {
        first_val(pairs.subrange(1, pairs.len() as int), key)
    }
}

/// Find the value of the first pair carrying `key`.
pub fn find_val(pairs: &Vec<(String, String)>, key: &str) -> (r: Option<String>)
    ensures
        match r {
            Some(v) => first_val(pairs@, key@) == Option::Some(v@),
            None => first_val(pairs@, key@) is None,
        },
{
    let k = key.to_owned();
    let n = pairs.len();
    proof {
        assert(pairs@.subrange(0, n as int) =~= pairs@);
    }
    let mut i: usize = 0;
    while i < n
        invariant
            k@ == key@,
            n == pairs@.len(),
            i <= n,
            first_val(pairs@, key@) == first_val(pairs@.subrange(i as int, n as int), key@),
        decreases n - i,
    {
        proof {
            let rest = pairs@.subrange(i as int, n as int);
            assert(rest[0] == pairs@[i as int]);
            assert(rest.subrange(1, rest.len() as int) =~= pairs@.subrange(i + 1, n as int));
        }
        if pairs[i].0.eq(&k) {
            return Some(pairs[i].1.clone());
        }
        i = i + 1;
    }
    proof {
        assert(pairs@.subrange(n as int, n as int) =~= Seq::<(String, String)>::empty());
    }
    None
}

/// Rebuild a push notification from pairs: every field must be there.
pub fn repo_update_from_pairs(pairs: &Vec<(String, String)>) -> (r: Option<RepoUpdate>)
    ensures
        r matches Some(u) ==> {
            &&& first_val(pairs@, "refname"@) == Option::Some(u.refname@)
            &&& first_val(pairs@, "old"@) == Option::Some(u.old_rev@)
            &&& first_val(pairs@, "new"@) == Option::Some(u.new_rev@)
            &&& first_val(pairs@, "username"@) == Option::Some(u.username@)
            &&& first_val(pairs@, "password"@) == Option::Some(u.password@)
            &&& first_val(pairs@, "remote_url"@) == Option::Some(u.remote_url@)
            &&& first_val(pairs@, "base_ns"@) == Option::Some(u.base_ns@)
            &&& first_val(pairs@, "filter_spec"@) == Option::Some(u.filter_spec@)
            &&& first_val(pairs@, "GIT_NAMESPACE"@) == Option::Some(u.namespace@)
            &&& first_val(pairs@, "GIT_DIR"@) == Option::Some(u.git_dir@)
        },
        r is None ==> {
            ||| first_val(pairs@, "refname"@) is None
            ||| first_val(pairs@, "old"@) is None
            ||| first_val(pairs@, "new"@) is None
            ||| first_val(pairs@, "username"@) is None
            ||| first_val(pairs@, "password"@) is None
            ||| first_val(pairs@, "remote_url"@) is None
            ||| first_val(pairs@, "base_ns"@) is None
            ||| first_val(pairs@, "filter_spec"@) is None
            ||| first_val(pairs@, "GIT_NAMESPACE"@) is None
            ||| first_val(pairs@, "GIT_DIR"@) is None
        },
{
    let refname = match find_val(pairs, "refname") {
        Some(v) => v,
        None => {
            return None;
        },
    };
    let old_rev = match find_val(pairs, "old") {
        Some(v) => v,
        None => {
            return None;
        },
    };
    let new_rev = match find_val(pairs, "new") {
        Some(v) => v,
        None => {
            return None;
        },
    };
    let username = match find_val(pairs, "username") {
        Some(v) => v,
        None => {
            return None;
        },
    };
    let password = match find_val(pairs, "password") {
        Some(v) => v,
        None => {
            return None;
        },
    };
    let remote_url = match find_val(pairs, "remote_url") {
        Some(v) => v,
        None => {
            return None;
        },
    };
    let base_ns = match find_val(pairs, "base_ns") {
        Some(v) => v,
        None => {
            return None;
        },
    };
    let filter_spec = match find_val(pairs, "filter_spec") {
        Some(v) => v,
        None => {
            return None;
        },
    };
    let namespace = match find_val(pairs, "GIT_NAMESPACE") {
        Some(v) => v,
        None => {
            return None;
        },
    };
    let git_dir = match find_val(pairs, "GIT_DIR") {
        Some(v) => v,
        None => {
            return None;
        },
    };
    Some(
        RepoUpdate {
            refname,
            old_rev,
            new_rev,
            username,
            password,
            remote_url,
            base_ns,
            filter_spec,
            namespace,
            git_dir,
        },
    )
}

/// The hook's exit code: success exactly on a 2xx answer from the server.
pub fn hook_exit_code(status: u16) -> (r: i32)
    ensures
        r == 0 <==> (200 <= status < 300),
        r == 0 || r == 1,
{
    if 200 <= status && status < 300 {
        0
    } else {
        1
    }
}

} // verus!
