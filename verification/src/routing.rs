//! The request-level decisions of the tracker's HTTP handler.

use crate::query::{index_of_byte, lemma_index_of_byte_at};
use vstd::prelude::*;
use vstd::string::StringExecFns;
use vstd::string::StringSliceAdditionalSpecFns;
use vstd::utf8::encode_utf8;

verus! {

/// Whether `s` begins with `prefix`.
pub open spec fn has_prefix(s: Seq<u8>, prefix: Seq<u8>) -> bool {
    prefix.len() <= s.len() && s.subrange(0, prefix.len() as int) == prefix
}

/// Whether `s` begins with `prefix`.
pub fn starts_with(s: &[u8], prefix: &[u8]) -> (r: bool)
    ensures
        r == has_prefix(s@, prefix@),
{
    if prefix.len() > s.len() {
        return false;
    }
    let n = prefix.len();
    for i in 0..n
        invariant
            n == prefix@.len(),
            n <= s@.len(),
            forall|k: int| 0 <= k < i ==> s@[k] == prefix@[k],
    {
        if s[i] != prefix[i] {
            return false;
        }
    }
    assert(s@.subrange(0, n as int) =~= prefix@);
    true
}

/// Whether a request path is served as an announce: it begins with `/announce`.
pub fn is_announce_path(path: &[u8]) -> (r: bool)
    ensures
        r == has_prefix(path@, "/announce".spec_bytes()),
{
    starts_with(path, "/announce".as_bytes())
}

/// The query string of a request path: what follows its first `?`, empty where
/// there is none.
pub open spec fn spec_query_of_path(path: Seq<u8>) -> Seq<u8> {
    let k = index_of_byte(path, 0x3fu8);
    if k < path.len() {
        path.subrange(k + 1, path.len() as int)
    } else {
        Seq::<u8>::empty()
    }
}

/// Extracts the query string of a request path (see [`spec_query_of_path`]).
pub fn query_of_path(path: &[u8]) -> (q: &[u8])
    ensures
        q@ == spec_query_of_path(path@),
{
    let n = path.len();
    let mut i: usize = 0;
    while i < n && path[i] != 0x3fu8
        invariant
            i <= n,
            n == path@.len(),
            forall|k: int| 0 <= k < i ==> path@[k] != 0x3fu8,
        decreases n - i,
    {
        i = i + 1;
    }
    proof {
        lemma_index_of_byte_at(path@, 0x3fu8, i as int);
    }
    if i == n {
        let q = vstd::slice::slice_subrange(path, n, n);
        assert(q@ =~= Seq::<u8>::empty());
        q
    } else {
        vstd::slice::slice_subrange(path, i + 1, n)
    }
}

/// The body sent for any request that is not an announce.
pub fn greeting() -> (body: Vec<u8>)
    ensures
        body@ == "Hi".spec_bytes(),
{
    vstd::slice::slice_to_vec("Hi".as_bytes())
}

/// The body that answers a request: the reply itself, or the error message
/// followed by a newline.
pub open spec fn spec_reply_body(reply: Result<Seq<u8>, Seq<char>>) -> Seq<u8> {
    match reply {
        Ok(bytes) => bytes,
        Err(message) => encode_utf8(message + "\n"@),
    }
}

/// Views a reply.
pub open spec fn reply_view(reply: Result<Vec<u8>, String>) -> Result<Seq<u8>, Seq<char>> {
    match reply {
        Ok(bytes) => Ok(bytes@),
        Err(message) => Err(message@),
    }
}

/// Turns the outcome of a request into the body that is sent back.
pub fn reply_body(reply: Result<Vec<u8>, String>) -> (body: Vec<u8>)
    ensures
        body@ == spec_reply_body(reply_view(reply)),
{
    match reply {
        Ok(bytes) => bytes,
        Err(message) => {
            let mut message = message;
            message.append("\n");
            vstd::slice::slice_to_vec(message.as_str().as_bytes())
        },
    }
}

} // verus!
