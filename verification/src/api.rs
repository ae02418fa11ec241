use vstd::prelude::*;
use crate::text::{chars_of, string_from_chars};

verus! {

/// The claims of an access or refresh token: when it expires and which kind it is.
#[derive(Debug)]
pub struct Claims {
    pub exp: usize,
    pub token_type: String,
}

/// A pair of tokens handed out on login.
#[derive(Debug)]
pub struct TokenResponse {
    pub access_token: String,
    pub refresh_token: String,
    pub expires_in: usize,
}

/// A query sent to a server.
#[derive(Debug)]
pub struct QueryReq {
    pub query: String,
}

/// A server's answer to a query.
#[derive(Debug)]
pub struct QueryRes {
    pub result: Result<String, String>,
}

/// A snapshot of a cluster node: the store's bytes and the graph's bytes.
#[derive(Debug)]
pub struct GraphSnapshotData {
    pub memstore_data: Vec<u8>,
    pub graph_data: Vec<u8>,
}

/// The text after `prefix`, when the text starts with it.
pub open spec fn after_prefix(s: Seq<char>, prefix: Seq<char>) -> Option<Seq<char>> {
    if s.len() >= prefix.len() && s.subrange(0, prefix.len() as int) == prefix {
        Some(s.subrange(prefix.len() as int, s.len() as int))
    } else {
        None
    }
}

/// The text after `prefix`, when the text starts with it (see `after_prefix`).
pub fn strip_prefix(s: &str, prefix: &str) -> (r: Option<String>)
    ensures
        match r {
            Some(t) => after_prefix(s@, prefix@) == Some(t@),
            None => after_prefix(s@, prefix@) is None,
        },
{
    let cs = chars_of(s);
    let ps = chars_of(prefix);
    if cs.len() < ps.len() {
        return None;
    }
    let mut i: usize = 0;
    while i < ps.len()
        invariant
            cs@ == s@,
            ps@ == prefix@,
            ps@.len() <= cs@.len(),
            i <= ps@.len(),
            forall|j: int| 0 <= j < i ==> cs@[j] == ps@[j],
        decreases ps@.len() - i,
    {
        if cs[i] != ps[i] {
            assert(cs@.subrange(0, ps@.len() as int)[i as int] != ps@[i as int]);
            return None;
        }
        i = i + 1;
    }
    assert(cs@.subrange(0, ps@.len() as int) =~= ps@);
    Some(string_from_chars(&cs, ps.len(), cs.len()))
}

/// The token of a `Bearer` authorization header.
pub fn bearer_token(header: &str) -> (r: Option<String>)
    ensures
        match r {
            Some(t) => after_prefix(header@, "Bearer "@) == Some(t@),
            None => after_prefix(header@, "Bearer "@) is None,
        },
{
    strip_prefix(header, "Bearer ")
}

/// The user id and password of decoded basic credentials: the text before and after the first
/// `:`, or the whole text and no password when there is none.
pub open spec fn split_credentials_spec(s: Seq<char>) -> (Seq<char>, Option<Seq<char>>) {
    if exists|i: int| 0 <= i < s.len() && s[i] == ':' {
        let i = choose|i: int| 0 <= i < s.len() && s[i] == ':' && forall|j: int| 0 <= j < i ==> s[j] != ':';
        (s.subrange(0, i), Some(s.subrange(i + 1, s.len() as int)))
    } else {
        (s, None)
    }
}

/// Splits decoded basic credentials (see `split_credentials_spec`).
pub fn split_credentials(s: &str) -> (r: (String, Option<String>))
    ensures
        (r.0@, match r.1 { Some(p) => Some(p@), None => None }) == split_credentials_spec(s@),
{
    let cs = chars_of(s);
    let mut i: usize = 0;
    while i < cs.len()
        invariant
            cs@ == s@,
            i <= cs@.len(),
            forall|j: int| 0 <= j < i ==> cs@[j] != ':',
        decreases cs@.len() - i,
    {
        if cs[i] == ':' {
            let ghost w = choose|q: int| 0 <= q < cs@.len() && cs@[q] == ':' && forall|j: int| 0 <= j < q ==> cs@[j] != ':';
            proof {
                assert(0 <= i < cs@.len() && cs@[i as int] == ':' && forall|j: int| 0 <= j < i ==> cs@[j] != ':');
                if w < i {
                } else if w > i {
                    assert(cs@[i as int] != ':');
                }
                assert(w == i);
            }
            return (string_from_chars(&cs, 0, i), Some(string_from_chars(&cs, i + 1, cs.len())));
        }
        i = i + 1;
    }
    assert(cs@.subrange(0, cs@.len() as int) =~= cs@);
    (string_from_chars(&cs, 0, cs.len()), None)
}

/// The credentials are accepted: the user id is the required one (if one is required) and the
/// password is the required one (if one is required).
pub open spec fn credentials_ok(user: Seq<char>, pass: Option<Seq<char>>, req_user: Option<Seq<char>>, req_pass: Option<Seq<char>>) -> bool {
    (match req_user { Some(u) => user == u, None => true }) && (match req_pass { Some(p) => pass == Some(p), None => true })
}

/// The credentials are accepted (see `credentials_ok`).
pub fn credentials_match(user: &str, pass: &Option<String>, req_user: &Option<String>, req_pass: &Option<String>) -> (r: bool)
    ensures
        r == credentials_ok(user@, match pass { Some(p) => Some(p@), None => None },
            match req_user { Some(u) => Some(u@), None => None }, match req_pass { Some(p) => Some(p@), None => None }),
{
    let user_ok = match req_user {
        Some(u) => crate::keyed::str_eq(user, u.as_str()),
        None => true,
    };
    let pass_ok = match req_pass {
        Some(p) => match pass {
            Some(q) => crate::keyed::str_eq(q.as_str(), p.as_str()),
            None => false,
        },
        None => true,
    };
    user_ok && pass_ok
}

/// Whether a token of this kind grants access: only `access` tokens do.
pub fn access_granted(token_type: &str) -> (r: bool)
    ensures
        r == (token_type@ == "access"@),
{
    crate::keyed::str_eq(token_type, "access")
}

} // verus!
