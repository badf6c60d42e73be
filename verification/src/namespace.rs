use vstd::prelude::*;
use crate::JoshResult;

verus! {

// ===========================================================================
// Per-request git namespaces and ref naming.
// ===========================================================================

/// Relies on uuid::Uuid::new_v4 and its hyphenated display form: a fresh
/// random identifier of 36 characters.  Nothing else can be promised of a
/// random value.
#[verifier::external_body]
fn fresh_request_id() -> (r: String)
    ensures
        r@.len() == 36,
{
    uuid::Uuid::new_v4().to_string()
}

/// A temporary namespace under which one request stages its refs.  The
/// host removes the directory when the request is over.
pub struct TmpGitNamespace {
    name: String,
    repo_path: String,
}

impl TmpGitNamespace {
    /// The name of the namespace, as a sequence of characters.
    pub closed spec fn spec_name(&self) -> Seq<char> {
        self.name@
    }

    /// The repository path, as a sequence of characters.
    pub closed spec fn spec_repo_path(&self) -> Seq<char> {
        self.repo_path@
    }

    /// A fresh namespace for a repository.
    pub fn new(repo_path: &str) -> (r: TmpGitNamespace)
        ensures
            r.spec_name().len() == 44,
            r.spec_name().subrange(0, 8) == "request_"@,
            r.spec_repo_path() == repo_path@,
    {
        let id = fresh_request_id();
        let name = "request_".to_owned().concat(id.as_str());
        proof {
            reveal_strlit("request_");
            assert(name@.subrange(0, 8) =~= "request_"@);
        }
        TmpGitNamespace { name, repo_path: repo_path.to_owned() }
    }

    /// The name of the namespace.
    pub fn name(&self) -> (r: &str)
        ensures
            r@ == self.spec_name(),
    {
        self.name.as_str()
    }

    /// The path of the repository the namespace lives in.
    pub fn repo_path(&self) -> (r: &str)
        ensures
            r@ == self.spec_repo_path(),
    {
        self.repo_path.as_str()
    }

    /// A ref name placed under this namespace.
    pub fn reference(&self, refname: &str) -> (r: String)
        ensures
            r@ == "refs/namespaces/"@ + self.spec_name() + "/"@ + refname@,
    {
        let mut r = "refs/namespaces/".to_owned();
        r.append(self.name.as_str());
        r.append("/");
        r.append(refname);
        r
    }
}

// ---------------------------------------------------------------------------
// Namespace encoding of upstream paths
// ---------------------------------------------------------------------------

/// `s` without leading and trailing '/'.
pub open spec fn trim_slashes(s: Seq<char>) -> Seq<char> {
    let a = first_non_slash(s, 0);
    let b = last_non_slash(s, s.len() as int);
    if a < b {
        s.subrange(a, b)
    } else {
        Seq::<char>::empty()
    }
}

pub open spec fn first_non_slash(s: Seq<char>, i: int) -> int
    decreases s.len() - i,
    when 0 <= i <= s.len()
{
    if i >= s.len() || s[i] != '/' {
        i
    } else {
        first_non_slash(s, i + 1)
    }
}

pub open spec fn last_non_slash(s: Seq<char>, i: int) -> int
    decreases i,
    when 0 <= i <= s.len()
{
    if i <= 0 || s[i - 1] != '/' {
        i
    } else {
        last_non_slash(s, i - 1)
    }
}

/// Each '/' replaced by "/refs/namespaces/".
pub open spec fn expand_slashes(s: Seq<char>, i: int) -> Seq<char>
    decreases s.len() - i,
    when 0 <= i <= s.len()
{
    if i >= s.len() {
        Seq::<char>::empty()
    } else if s[i] == '/' {
        "/refs/namespaces/"@ + expand_slashes(s, i + 1)
    } else {
        seq![s[i]] + expand_slashes(s, i + 1)
    }
}

/// The namespace prefix encoding an upstream repository path: the path
/// with its outer '/' trimmed and every inner '/' replaced by
/// "/refs/namespaces/".
pub open spec fn to_ns_v(s: Seq<char>) -> Seq<char> {
    expand_slashes(trim_slashes(s), 0)
}

fn first_non_slash_exec(path: &str) -> (r: usize)
    ensures
        r == first_non_slash(path@, 0),
        r <= path@.len(),
{
    let n = path.unicode_len();
    let mut a: usize = 0;
    while a < n
        invariant
            0 <= a <= n,
            n == path@.len(),
            first_non_slash(path@, 0) == first_non_slash(path@, a as int),
        decreases n - a,
    {
        if path.get_char(a) != '/' {
            return a;
        }
        a = a + 1;
    }
    a
}

fn last_non_slash_exec(path: &str) -> (r: usize)
    ensures
        r == last_non_slash(path@, path@.len() as int),
        r <= path@.len(),
{
    let n = path.unicode_len();
    let mut b: usize = n;
    while b > 0
        invariant
            0 <= b <= n,
            n == path@.len(),
            last_non_slash(path@, n as int) == last_non_slash(path@, b as int),
        decreases b,
    {
        if path.get_char(b - 1) != '/' {
            return b;
        }
        b = b - 1;
    }
    b
}

pub fn to_ns(path: &str) -> (r: String)
    ensures
        r@ == to_ns_v(path@),
{
    let n = path.unicode_len();
    let a = first_non_slash_exec(path);
    let b = last_non_slash_exec(path);
    let ghost trimmed = trim_slashes(path@);
    let mut r = String::new();
    if a >= b {
        proof {
            assert(trimmed.len() == 0);
            assert(to_ns_v(path@) =~= Seq::<char>::empty());
        }
        return r;
    }
    let mut i = a;
    proof {
        assert(trimmed =~= path@.subrange(a as int, b as int));
        assert(r@ + expand_slashes(trimmed, 0) =~= expand_slashes(trimmed, 0));
    }
    while i < b
        invariant
            a <= i <= b,
            b <= n,
            n == path@.len(),
            a < b,
            trimmed == path@.subrange(a as int, b as int),
            trimmed.len() == b - a,
            forall|k: int| 0 <= k < trimmed.len() ==> trimmed[k] == path@[a + k],
            r@ + expand_slashes(trimmed, i - a) == expand_slashes(trimmed, 0),
        decreases b - i,
    {
        let c = path.get_char(i);
        let ghost prevr = r@;
        if c == '/' {
            r.append("/refs/namespaces/");
            proof {
                assert(trimmed[i - a] == '/');
                assert(expand_slashes(trimmed, i - a) == "/refs/namespaces/"@ + expand_slashes(
                    trimmed,
                    i - a + 1,
                ));
                assert(prevr + expand_slashes(trimmed, i - a) =~= r@ + expand_slashes(
                    trimmed,
                    i - a + 1,
                ));
            }
        } else {
            let one = path.substring_char(i, i + 1);
            r.append(one);
            proof {
                assert(trimmed[i - a] == c);
                assert(one@ =~= seq![c]);
                assert(expand_slashes(trimmed, i - a) == seq![trimmed[i - a]] + expand_slashes(
                    trimmed,
                    i - a + 1,
                ));
                assert(prevr + expand_slashes(trimmed, i - a) =~= r@ + expand_slashes(
                    trimmed,
                    i - a + 1,
                ));
            }
        }
        i = i + 1;
    }
    proof {
        assert(expand_slashes(trimmed, b - a) =~= Seq::<char>::empty());
        assert(r@ =~= expand_slashes(trimmed, 0));
    }
    r
}

// ---------------------------------------------------------------------------
// Push ref names and options
// ---------------------------------------------------------------------------

/// The position of the first '%' in `s`, or the length.
pub open spec fn pct_pos(s: Seq<char>, i: int) -> int
    decreases s.len() - i,
    when 0 <= i <= s.len()
{
    if i >= s.len() || s[i] == '%' {
        i
    } else {
        pct_pos(s, i + 1)
    }
}

/// The options after '%', split at ','.
pub open spec fn split_comma(s: Seq<char>, i: int) -> Seq<Seq<char>>
    decreases s.len() - i,
    when 0 <= i <= s.len()
{
    let e = comma_pos(s, i);
    if e >= s.len() {
        seq![s.subrange(i, e)]
    } else {
        proof {
            lemma_comma_pos(s, i);
        }
        seq![s.subrange(i, e)] + split_comma(s, e + 1)
    }
}

pub open spec fn comma_pos(s: Seq<char>, i: int) -> int
    decreases s.len() - i,
    when 0 <= i <= s.len()
{
    if i >= s.len() || s[i] == ',' {
        i
    } else {
        comma_pos(s, i + 1)
    }
}

pub proof fn lemma_comma_pos(s: Seq<char>, i: int)
    requires
        0 <= i <= s.len(),
    ensures
        i <= comma_pos(s, i) <= s.len(),
    decreases s.len() - i,
{
    if !(i >= s.len() || s[i] == ',') {
        lemma_comma_pos(s, i + 1);
    }
}

/// The base ref a push goes to: a "refs/for" or "refs/drafts" prefix
/// stands for "refs/heads".
pub open spec fn base_of(push_to: Seq<char>) -> Seq<char> {
    if push_to.len() >= 8 && push_to.subrange(0, 8) == "refs/for"@ {
        "refs/heads"@ + push_to.skip(8)
    } else if push_to.len() >= 11 && push_to.subrange(0, 11) == "refs/drafts"@ {
        "refs/heads"@ + push_to.skip(11)
    } else {
        push_to
    }
}

fn comma_pos_exec(s: &str, i: usize) -> (r: usize)
    requires
        i <= s@.len(),
    ensures
        r == comma_pos(s@, i as int),
        i <= r <= s@.len(),
{
    let n = s.unicode_len();
    let mut j = i;
    while j < n
        invariant
            i <= j <= n,
            n == s@.len(),
            comma_pos(s@, i as int) == comma_pos(s@, j as int),
        decreases n - j,
    {
        if s.get_char(j) == ',' {
            return j;
        }
        j = j + 1;
    }
    j
}

/// Split a pushed ref name into the base ref to update, the ref pushed
/// to, and the options given after '%'.
pub fn baseref_and_options(refname: &str) -> (r: JoshResult<(String, String, Vec<String>)>)
    ensures
        r matches Ok((baseref, push_to, options)) && {
            let pp = pct_pos(refname@, 0);
            &&& push_to@ == refname@.subrange(0, pp)
            &&& baseref@ == base_of(push_to@)
            &&& if pp >= refname@.len() {
                options.deep_view() == Seq::<Seq<char>>::empty()
            } else {
                options.deep_view() == split_comma(refname@, pp + 1)
            }
        },
{
    let n = refname.unicode_len();
    let pp = pct_pos_exec(refname);
    let push_to = refname.substring_char(0, pp).to_owned();
    let mut options: Vec<String> = Vec::new();
    if pp < n {
        let mut i = pp + 1;
        proof {
            assert(options.deep_view() + split_comma(refname@, i as int) =~= split_comma(
                refname@,
                i as int,
            ));
        }
        loop
            invariant_except_break
                pp + 1 <= i <= n,
                n == refname@.len(),
                options.deep_view() + split_comma(refname@, i as int) == split_comma(
                    refname@,
                    pp + 1,
                ),
            ensures
                options.deep_view() == split_comma(refname@, pp + 1),
            decreases n - i,
        {
            let e = comma_pos_exec(refname, i);
            let part = refname.substring_char(i, e).to_owned();
            let ghost prev = options.deep_view();
            options.push(part);
            proof {
                assert(options.deep_view() =~= prev.push(refname@.subrange(i as int, e as int)));
            }
            if e >= n {
                proof {
                    assert(split_comma(refname@, i as int) =~= seq![
                        refname@.subrange(i as int, e as int),
                    ]);
                    assert(options.deep_view() =~= split_comma(refname@, pp + 1));
                }
                break ;
            }
            proof {
                assert(split_comma(refname@, i as int) == seq![
                    refname@.subrange(i as int, e as int),
                ] + split_comma(refname@, e + 1));
                assert(prev + split_comma(refname@, i as int) =~= options.deep_view()
                    + split_comma(refname@, e + 1));
            }
            i = e + 1;
        }
    } else {
        proof {
            assert(options.deep_view() =~= Seq::<Seq<char>>::empty());
        }
    }
    // rewrite the known prefixes to refs/heads
    proof {
        reveal_strlit("refs/for");
        reveal_strlit("refs/drafts");
    }
    let baseref: String = if kw_prefix(push_to.as_str(), "refs/for") {
        let k = push_to.as_str().unicode_len();
        let r = "refs/heads".to_owned().concat(push_to.as_str().substring_char(8, k));
        proof {
            assert(r@ =~= "refs/heads"@ + push_to@.skip(8));
        }
        r
    } else if kw_prefix(push_to.as_str(), "refs/drafts") {
        let k = push_to.as_str().unicode_len();
        let r = "refs/heads".to_owned().concat(push_to.as_str().substring_char(11, k));
        proof {
            assert(r@ =~= "refs/heads"@ + push_to@.skip(11));
        }
        r
    } else {
        push_to.clone()
    };
    Ok((baseref, push_to, options))
}

fn pct_pos_exec(refname: &str) -> (r: usize)
    ensures
        r == pct_pos(refname@, 0),
        r <= refname@.len(),
{
    let n = refname.unicode_len();
    let mut pp: usize = 0;
    while pp < n
        invariant
            0 <= pp <= n,
            n == refname@.len(),
            pct_pos(refname@, 0) == pct_pos(refname@, pp as int),
        decreases n - pp,
    {
        if refname.get_char(pp) == '%' {
            return pp;
        }
        pp = pp + 1;
    }
    pp
}

/// Whether `k` is a prefix of `s`.
fn kw_prefix(s: &str, k: &str) -> (r: bool)
    ensures
        r == (s@.len() >= k@.len() && s@.subrange(0, k@.len() as int) == k@),
{
    let n = s.unicode_len();
    let kn = k.unicode_len();
    if kn > n {
        return false;
    }
    let mut i: usize = 0;
    while i < kn
        invariant
            0 <= i <= kn,
            kn == k@.len(),
            n == s@.len(),
            kn <= n,
            forall|j: int| 0 <= j < i ==> s@[j] == k@[j],
        decreases kn - i,
    {
        if s.get_char(i) != k.get_char(i) {
            proof {
                assert(s@.subrange(0, k@.len() as int)[i as int] == s@[i as int]);
            }
            return false;
        }
        i = i + 1;
    }
    proof {
        assert(s@.subrange(0, k@.len() as int) =~= k@);
    }
    true
}

} // verus!
