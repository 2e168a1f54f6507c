//! Credentials: reading the Basic authorization header, and hashing
//! (URL, user, password) triples for the credential cache.

use vstd::prelude::*;
use vstd::string::StrSliceExecFns;
use vstd::string::StringExecFns;
use vstd::utf8::{valid_utf8, decode_utf8};
use crate::digest::{sha1_hex, sha1_hex_of};
use crate::filters::chars_vec;

verus! {

/// A password; its own type so it is not logged by accident.
pub struct Password {
    pub value: String,
}

/// What base64 decoding yields on the input, if it is well formed.
pub uninterp spec fn b64_decode_of(b: Seq<u8>) -> Option<Seq<u8>>;

/// Relies on base64::decode: success and the decoded bytes depend on the
/// input alone.
#[verifier::external_body]
fn b64_decode(b: &Vec<u8>) -> (r: Option<Vec<u8>>)
    ensures
        (r is Some) == (b64_decode_of(b@) is Some),
        r matches Some(v) ==> b64_decode_of(b@) == Some(v@),
{
    match base64::decode(b) {
        Ok(v) => Some(v),
        Err(_) => None,
    }
}

/// Relies on String::from_utf8: it succeeds exactly on valid UTF-8 and
/// hands the decoded characters back.
#[verifier::external_body]
pub(crate) fn utf8_to_string(b: Vec<u8>) -> (r: Option<String>)
    ensures
        (r is Some) == valid_utf8(b@),
        r matches Some(s) ==> s@ == decode_utf8(b@),
{
    match String::from_utf8(b) {
        Ok(s) => Some(s),
        Err(_) => None,
    }
}

/// How many colons the characters hold.
pub open spec fn colon_count(s: Seq<char>) -> nat
    decreases s.len(),
{
    if s.len() == 0 {
        0
    } else {
        colon_count(s.drop_last()) + if s.last() == ':' {
            1nat
        } else {
            0nat
        }
    }
}

/// The position of the first colon, or the length when there is none.
pub open spec fn first_colon(s: Seq<char>, i: int) -> int
    decreases s.len() - i,
{
    if i < 0 || i >= s.len() {
        s.len() as int
    } else if s[i] == ':' {
        i
    } else {
        first_colon(s, i + 1)
    }
}

/// What the authorization header yields: a user and a password, both
/// empty unless the header carries `Basic` credentials whose base64 part
/// decodes to valid UTF-8 of the exact shape `user:password`.
pub open spec fn parse_auth_spec(h: Option<Seq<u8>>) -> (Seq<char>, Seq<char>) {
    match h {
        Option::None => (Seq::empty(), Seq::empty()),
        Option::Some(b) => if b.len() < 6 {
            (Seq::empty(), Seq::empty())
        } else {
            match b64_decode_of(b.skip(6)) {
                Option::None => (Seq::empty(), Seq::empty()),
                Option::Some(d) => if !valid_utf8(d) {
                    (Seq::empty(), Seq::empty())
                } else {
                    let s = decode_utf8(d);
                    if colon_count(s) != 1 {
                        (Seq::empty(), Seq::empty())
                    } else {
                        let i = first_colon(s, 0);
                        (s.take(i), s.skip(i + 1))
                    }
                },
            }
        },
    }
}

/// Read the Basic authorization header: blank credentials unless it has
/// the exact `user:password` shape behind the base64 part.
pub fn parse_auth(header: Option<&Vec<u8>>) -> (r: (String, Password))
    ensures
        (r.0@, r.1.value@) == parse_auth_spec(match header {
            Option::Some(h) => Option::Some(h@),
            Option::None => Option::None,
        }),
{
    let blank_user = String::new();
    let blank_pass = Password { value: String::new() };
    let h = match header {
        Some(h) => h,
        None => {
            return (blank_user, blank_pass);
        },
    };
    if h.len() < 6 {
        return (blank_user, blank_pass);
    }
    let mut tail: Vec<u8> = Vec::new();
    let n = h.len();
    let mut i: usize = 6;
    while i < n
        invariant
            n == h@.len(),
            6 <= i <= n,
            tail@ == h@.subrange(6, i as int),
        decreases n - i,
    {
        tail.push(h[i]);
        proof {
            assert(tail@ =~= h@.subrange(6, i + 1));
        }
        i = i + 1;
    }
    proof {
        assert(tail@ =~= h@.skip(6));
    }
    let decoded = match b64_decode(&tail) {
        Some(d) => d,
        None => {
            return (blank_user, blank_pass);
        },
    };
    let s = match utf8_to_string(decoded) {
        Some(s) => s,
        None => {
            return (blank_user, blank_pass);
        },
    };
    let cs = chars_vec(s.as_str());
    let m = cs.len();
    let mut count: usize = 0;
    let mut k: usize = 0;
    while k < m
        invariant
            cs@ == s@,
            m == cs@.len(),
            k <= m,
            count == colon_count(s@.take(k as int)),
            count <= k,
        decreases m - k,
    {
        proof {
            assert(s@.take(k + 1).drop_last() =~= s@.take(k as int));
        }
        if cs[k] == ':' {
            count = count + 1;
        }
        k = k + 1;
    }
    proof {
        assert(s@.take(m as int) =~= s@);
    }
    if count != 1 {
        return (blank_user, blank_pass);
    }
    let mut fc: usize = 0;
    while fc < m
        invariant
            cs@ == s@,
            m == cs@.len(),
            fc <= m,
            first_colon(s@, 0) == first_colon(s@, fc as int),
        ensures
            fc <= m,
            first_colon(s@, 0) == fc as int,
            fc < m ==> s@[fc as int] == ':',
        decreases m - fc,
    {
        if cs[fc] == ':' {
            break;
        }
        fc = fc + 1;
    }
    proof {
        lemma_colon_count_pos(s@);
        let c = choose|i: int| 0 <= i < s@.len() && s@[i] == ':';
        lemma_first_colon_at_most(s@, 0, c);
        assert(fc < m);
    }
    let user = s.as_str().substring_char(0, fc).to_owned();
    let pass = s.as_str().substring_char(fc + 1, m).to_owned();
    proof {
        assert(user@ =~= s@.take(fc as int));
        assert(pass@ =~= s@.skip(fc + 1));
    }
    (user, Password { value: pass })
}

/// A positive colon count names a colon.
proof fn lemma_colon_count_pos(s: Seq<char>)
    requires
        colon_count(s) > 0,
    ensures
        exists|i: int| 0 <= i < s.len() && s[i] == ':',
    decreases s.len(),
{
    if s.last() == ':' {
        assert(s[s.len() - 1] == ':');
    } else {
        lemma_colon_count_pos(s.drop_last());
        let i = choose|i: int| 0 <= i < s.drop_last().len() && s.drop_last()[i] == ':';
        assert(s[i] == ':');
    }
}

/// The first colon from `i` on stands no later than any colon after `i`.
proof fn lemma_first_colon_at_most(s: Seq<char>, i: int, c: int)
    requires
        0 <= i <= c < s.len(),
        s[c] == ':',
    ensures
        first_colon(s, i) <= c,
    decreases c - i,
{
    if s[i] != ':' {
        lemma_first_colon_at_most(s, i + 1, c);
    }
}

/// The hex SHA-1 digest of `url:username:password`, the key of the
/// credential cache.
pub fn hash_strings(url: &str, username: &str, password: &str) -> (r: String)
    ensures
        r@ == sha1_hex_of(url@ + ":"@ + username@ + ":"@ + password@),
        r@.len() == 40,
        forall|i: int|
            0 <= i < r@.len() ==> crate::digest::hex_lower(#[trigger] r@[i]),
{
    let mut joined = url.to_owned();
    joined.append(":");
    joined.append(username);
    joined.append(":");
    joined.append(password);
    proof {
        assert(joined@ =~= url@ + ":"@ + username@ + ":"@ + password@);
    }
    sha1_hex(joined.as_str())
}

} // verus!
