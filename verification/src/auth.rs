use vstd::prelude::*;
use crate::apply::utf8_to_string;
use crypto::digest::Digest;
use vstd::utf8::{valid_utf8, decode_utf8};

verus! {

// ===========================================================================
// Credentials: decoding an authorization header, and the digest keying
// the credential cache.
// ===========================================================================

/// What base64 decoding of `s` yields, as `base64::decode` with the
/// standard alphabet and padding decides it: a function of the input
/// alone.
pub uninterp spec fn b64_decode_of(s: Seq<char>) -> Option<Seq<u8>>;

/// Relies on base64::decode: standard alphabet with padding; the result
/// depends on the input alone.
#[verifier::external_body]
fn base64_decode(s: &str) -> (r: Option<Vec<u8>>)
    ensures
        r is Some <==> b64_decode_of(s@) is Some,
        r matches Some(v) ==> b64_decode_of(s@) == Some(v@),
{
    base64::decode(s).ok()
}

/// The position of the first ':' in `s`, or the length.
pub open spec fn colon_pos(s: Seq<char>, i: int) -> int
    decreases s.len() - i,
    when 0 <= i <= s.len()
{
    if i >= s.len() || s[i] == ':' {
        i
    } else {
        colon_pos(s, i + 1)
    }
}

pub proof fn lemma_colon_pos(s: Seq<char>, i: int)
    requires
        0 <= i <= s.len(),
    ensures
        i <= colon_pos(s, i) <= s.len(),
    decreases s.len() - i,
{
    if !(i >= s.len() || s[i] == ':') {
        lemma_colon_pos(s, i + 1);
    }
}

fn colon_pos_exec(s: &str, i: usize) -> (r: usize)
    requires
        i <= s@.len(),
    ensures
        r == colon_pos(s@, i as int),
        i <= r <= s@.len(),
{
    let n = s.unicode_len();
    let mut j = i;
    while j < n
        invariant
            i <= j <= n,
            n == s@.len(),
            colon_pos(s@, i as int) == colon_pos(s@, j as int),
        decreases n - j,
    {
        if s.get_char(j) == ':' {
            return j;
        }
        j = j + 1;
    }
    j
}

/// The credentials carried by a basic authorization header value: the
/// text after the scheme word is base64 for `user:password`, with exactly
/// one ':' between user and password.
pub open spec fn parse_auth_v(header: Seq<char>) -> Option<(Seq<char>, Seq<char>)> {
    if header.len() < 6 {
        None
    } else {
        match b64_decode_of(header.skip(6)) {
            None => None,
            Some(bytes) => if !valid_utf8(bytes) {
                None
            } else {
                let d = decode_utf8(bytes);
                let i = colon_pos(d, 0);
                if i < d.len() && colon_pos(d, i + 1) == d.len() {
                    Some((d.subrange(0, i), d.subrange(i + 1, d.len() as int)))
                } else {
                    None
                }
            },
        }
    }
}

/// Extract the user name and password from a basic authorization header
/// value (`Basic <base64>`), as `parse_auth_v` describes.
pub fn parse_auth(header: &str) -> (r: Option<(String, String)>)
    ensures
        match r {
            Some((u, p)) => parse_auth_v(header@) == Some((u@, p@)),
            None => parse_auth_v(header@) is None,
        },
{
    let n = header.unicode_len();
    if n < 6 {
        return None;
    }
    let b64 = header.substring_char(6, n);
    proof {
        assert(b64@ =~= header@.skip(6));
    }
    let bytes = match base64_decode(b64) {
        Some(v) => v,
        None => {
            return None;
        },
    };
    let text = match utf8_to_string(&bytes) {
        Some(t) => t,
        None => {
            return None;
        },
    };
    let s = text.as_str();
    let m = s.unicode_len();
    proof {
        lemma_colon_pos(s@, 0);
    }
    let i = colon_pos_exec(s, 0);
    if i >= m {
        return None;
    }
    if colon_pos_exec(s, i + 1) != m {
        return None;
    }
    let user = s.substring_char(0, i).to_owned();
    let pass = s.substring_char(i + 1, m).to_owned();
    Some((user, pass))
}

/// What the SHA-1 hex digest of `s` is, as the `rust-crypto` SHA-1
/// implementation computes it: a function of the input alone.
pub uninterp spec fn sha1_hex_of(s: Seq<char>) -> Seq<char>;

/// Relies on crypto::sha1::Sha1 (new, input_str, result_str): the digest
/// depends on the input alone, and result_str renders 160 bits as 40 hex
/// characters.
#[verifier::external_body]
fn sha1_hex(s: &str) -> (r: String)
    ensures
        r@ == sha1_hex_of(s@),
        r@.len() == 40,
{
    let mut d = crypto::sha1::Sha1::new();
    d.input_str(s);
    d.result_str()
}

/// The key under which a fetched upstream's credentials are cached: the
/// SHA-1 hex digest of `url:username:password`.
pub fn hash_strings(url: &str, username: &str, password: &str) -> (r: String)
    ensures
        r@ == sha1_hex_of(url@ + ":"@ + username@ + ":"@ + password@),
        r@.len() == 40,
{
    let mut joined = url.to_owned();
    joined.append(":");
    joined.append(username);
    joined.append(":");
    joined.append(password);
    sha1_hex(joined.as_str())
}

} // verus!
