use vstd::prelude::*;
use crate::filter::{Filter, FilterV, filter_view, filters_view, lemma_filters_view,
    lemma_filters_view_push};
use crate::{JoshError, JoshResult};

verus! {

// ===========================================================================
// The filter spec parser.
//
// A spec is a sequence of atoms, each introduced by ':'; the sequence
// denotes the chain of its atoms, associated to the right.  Recursion is
// bounded by an explicit budget; the public entry points hand over a budget
// larger than the input, which can never run out.
// ===========================================================================

/// Characters that end an atom argument.
pub open spec fn is_delim(c: char) -> bool {
    c == ':' || c == ',' || c == '[' || c == ']' || c == ' ' || c == '\n' || c == '\t' || c == '\r'
}

fn is_delim_exec(c: char) -> (r: bool)
    ensures
        r == is_delim(c),
{
    c == ':' || c == ',' || c == '[' || c == ']' || c == ' ' || c == '\n' || c == '\t' || c == '\r'
}

/// The end of the argument starting at `pos`, with `depth` open
/// character classes: a delimiter ends the argument only outside a
/// class, so a glob like a bracketed set of characters stays whole.
pub open spec fn scan_end_d(s: Seq<char>, pos: int, depth: int) -> int
    decreases s.len() - pos,
    when 0 <= pos <= s.len()
{
    if pos >= s.len() {
        pos
    } else if s[pos] == '[' {
        scan_end_d(s, pos + 1, depth + 1)
    } else if s[pos] == ']' {
        if depth > 0 {
            scan_end_d(s, pos + 1, depth - 1)
        } else {
            pos
        }
    } else if depth > 0 {
        scan_end_d(s, pos + 1, depth)
    } else if is_delim(s[pos]) {
        pos
    } else {
        scan_end_d(s, pos + 1, depth)
    }
}

/// The end of the argument starting at `pos`.
pub open spec fn scan_end(s: Seq<char>, pos: int) -> int {
    scan_end_d(s, pos, 0)
}

pub proof fn lemma_scan_end_d(s: Seq<char>, pos: int, depth: int)
    requires
        0 <= pos <= s.len(),
    ensures
        pos <= scan_end_d(s, pos, depth) <= s.len(),
    decreases s.len() - pos,
{
    if pos < s.len() {
        if s[pos] == '[' {
            lemma_scan_end_d(s, pos + 1, depth + 1);
        } else if s[pos] == ']' {
            if depth > 0 {
                lemma_scan_end_d(s, pos + 1, depth - 1);
            }
        } else if depth > 0 || !is_delim(s[pos]) {
            lemma_scan_end_d(s, pos + 1, depth);
        }
    }
}

pub proof fn lemma_scan_end(s: Seq<char>, pos: int)
    requires
        0 <= pos <= s.len(),
    ensures
        pos <= scan_end(s, pos) <= s.len(),
{
    lemma_scan_end_d(s, pos, 0);
}

fn scan_end_exec(s: &str, pos: usize) -> (r: usize)
    requires
        pos <= s@.len(),
    ensures
        r == scan_end(s@, pos as int),
        pos <= r <= s@.len(),
{
    let n = s.unicode_len();
    let mut i = pos;
    let mut depth: usize = 0;
    while i < n
        invariant
            pos <= i <= n,
            n == s@.len(),
            depth <= i - pos,
            scan_end(s@, pos as int) == scan_end_d(s@, i as int, depth as int),
        decreases n - i,
    {
        let c = s.get_char(i);
        if c == '[' {
            depth = depth + 1;
        } else if c == ']' {
            if depth > 0 {
                depth = depth - 1;
            } else {
                return i;
            }
        } else if depth == 0 && is_delim_exec(c) {
            return i;
        }
        i = i + 1;
    }
    i
}

/// Whether the literal `k` stands at `pos` in `s`.
pub open spec fn kw_at(s: Seq<char>, pos: int, k: Seq<char>) -> bool {
    0 <= pos && pos + k.len() <= s.len() && s.subrange(pos, pos + k.len()) == k
}

fn kw_at_exec(s: &str, pos: usize, k: &str) -> (r: bool)
    requires
        pos <= s@.len(),
    ensures
        r == kw_at(s@, pos as int, k@),
{
    let n = s.unicode_len();
    let kn = k.unicode_len();
    if kn > n - pos {
        return false;
    }
    let mut i: usize = 0;
    while i < kn
        invariant
            0 <= i <= kn,
            kn == k@.len(),
            n == s@.len(),
            pos + kn <= n,
            forall|j: int| 0 <= j < i ==> s@[pos + j] == k@[j],
        decreases kn - i,
    {
        if s.get_char(pos + i) != k.get_char(i) {
            proof {
                assert(s@.subrange(pos as int, pos + k@.len())[i as int] == s@[pos + i]);
            }
            return false;
        }
        i = i + 1;
    }
    proof {
        assert(s@.subrange(pos as int, pos + k@.len()) =~= k@);
    }
    true
}

/// The end of the path component starting at `pos`: the first '/' at or
/// after it within `lim`, or `lim`.
pub open spec fn comp_end(s: Seq<char>, pos: int, lim: int) -> int
    decreases lim - pos,
    when 0 <= pos <= lim <= s.len()
{
    if pos >= lim || s[pos] == '/' {
        pos
    } else {
        comp_end(s, pos + 1, lim)
    }
}

pub proof fn lemma_comp_end(s: Seq<char>, pos: int, lim: int)
    requires
        0 <= pos <= lim <= s.len(),
    ensures
        pos <= comp_end(s, pos, lim) <= lim,
    decreases lim - pos,
{
    if !(pos >= lim || s[pos] == '/') {
        lemma_comp_end(s, pos + 1, lim);
    }
}

fn comp_end_exec(s: &str, pos: usize, lim: usize) -> (r: usize)
    requires
        pos <= lim <= s@.len(),
    ensures
        r == comp_end(s@, pos as int, lim as int),
        pos <= r <= lim,
{
    let mut i = pos;
    while i < lim
        invariant
            pos <= i <= lim,
            lim <= s@.len(),
            comp_end(s@, pos as int, lim as int) == comp_end(s@, i as int, lim as int),
        decreases lim - i,
    {
        if s.get_char(i) == '/' {
            return i;
        }
        i = i + 1;
    }
    i
}

/// The components of `s[pos..lim]`, split at '/'.
pub open spec fn split_slash(s: Seq<char>, pos: int, lim: int) -> Seq<Seq<char>>
    decreases lim - pos,
    when 0 <= pos <= lim <= s.len()
{
    let e = comp_end(s, pos, lim);
    if e >= lim {
        seq![s.subrange(pos, e)]
    } else {
        proof {
            lemma_comp_end(s, pos, lim);
        }
        seq![s.subrange(pos, e)] + split_slash(s, e + 1, lim)
    }
}

/// All components nonempty: a well-formed path.
pub open spec fn comps_ok(ps: Seq<Seq<char>>) -> bool {
    ps.len() > 0 && forall|i: int| 0 <= i < ps.len() ==> (#[trigger] ps[i]).len() > 0
}

/// Split `s[pos..lim]` at '/' into components, or an error when a
/// component is empty.
fn split_path_exec(s: &str, pos: usize, lim: usize) -> (r: Option<Vec<String>>)
    requires
        pos <= lim <= s@.len(),
    ensures
        match r {
            Some(p) => p.deep_view() == split_slash(s@, pos as int, lim as int) && comps_ok(
                p.deep_view(),
            ),
            None => !comps_ok(split_slash(s@, pos as int, lim as int)),
        },
    decreases lim - pos,
{
    proof {
        lemma_comp_end(s@, pos as int, lim as int);
    }
    let e = comp_end_exec(s, pos, lim);
    if e == pos {
        // empty component
        proof {
            let ps = split_slash(s@, pos as int, lim as int);
            assert(ps[0] == s@.subrange(pos as int, e as int));
            assert(ps[0].len() == 0);
        }
        return None;
    }
    let comp = s.substring_char(pos, e).to_owned();
    if e >= lim {
        let mut v: Vec<String> = Vec::new();
        v.push(comp);
        proof {
            assert(v.deep_view() =~= seq![s@.subrange(pos as int, e as int)]);
        }
        Some(v)
    } else {
        let rest = split_path_exec(s, e + 1, lim);
        match rest {
            Some(mut rv) => {
                let mut v: Vec<String> = Vec::new();
                v.push(comp);
                let ghost restview = rv.deep_view();
                let mut k: usize = 0;
                while k < rv.len()
                    invariant
                        k <= rv@.len(),
                        restview == rv.deep_view(),
                        restview.len() == rv@.len(),
                        forall|j: int| 0 <= j < rv@.len() ==> restview[j] == #[trigger] rv@[j]@,
                        v@.len() == k + 1,
                        v@[0]@ == s@.subrange(pos as int, e as int),
                        forall|j: int| 1 <= j < k + 1 ==> #[trigger] v@[j]@ == restview[j - 1],
                    decreases rv@.len() - k,
                {
                    v.push(rv[k].clone());
                    k = k + 1;
                }
                proof {
                    assert(v.deep_view() =~= seq![s@.subrange(pos as int, e as int)]
                        + restview);
                    assert(comps_ok(v.deep_view()));
                }
                Some(v)
            },
            None => {
                proof {
                    let ps = split_slash(s@, pos as int, lim as int);
                    let rs = split_slash(s@, e + 1, lim as int);
                    assert(ps == seq![s@.subrange(pos as int, e as int)] + rs);
                    assert(!comps_ok(rs));
                    let bad = choose|i: int| 0 <= i < rs.len() && (#[trigger] rs[i]).len() == 0;
                    if rs.len() == 0 {
                        assert(ps.len() == 1);
                        assert(false);
                    } else {
                        assert(ps[bad + 1] == rs[bad]);
                    }
                }
                None
            },
        }
    }
}

/// Whether the argument contains a glob metacharacter.
pub open spec fn has_meta(s: Seq<char>) -> bool {
    exists|i: int| 0 <= i < s.len() && (s[i] == '*' || s[i] == '?' || s[i] == '[')
}

fn has_meta_exec(s: &str, pos: usize, lim: usize) -> (r: bool)
    requires
        pos <= lim <= s@.len(),
    ensures
        r == has_meta(s@.subrange(pos as int, lim as int)),
{
    let mut i = pos;
    while i < lim
        invariant
            pos <= i <= lim,
            lim <= s@.len(),
            forall|j: int| pos <= j < i ==> s@[j] != '*' && s@[j] != '?' && s@[j] != '[',
        decreases lim - i,
    {
        let c = s.get_char(i);
        if c == '*' || c == '?' || c == '[' {
            proof {
                let sub = s@.subrange(pos as int, lim as int);
                assert(sub[i - pos] == s@[i as int]);
            }
            return true;
        }
        i = i + 1;
    }
    proof {
        let sub = s@.subrange(pos as int, lim as int);
        assert(forall|j: int| 0 <= j < sub.len() ==> sub[j] == s@[pos + j]);
    }
    false
}


// ---------------------------------------------------------------------------
// The grammar
// ---------------------------------------------------------------------------

/// One atom starting at `pos`, with the position after it.
pub open spec fn parse_atom_v(s: Seq<char>, pos: int, fuel: nat) -> Option<(FilterV, int)>
    decreases fuel,
{
    if fuel == 0 || !(0 <= pos < s.len()) || s[pos] != ':' {
        None
    } else if kw_at(s, pos, ":nop"@) {
        Some((FilterV::Nop, pos + 4))
    } else if kw_at(s, pos, ":empty"@) {
        Some((FilterV::Empty, pos + 6))
    } else if kw_at(s, pos, ":DIRS"@) {
        Some((FilterV::Dirs, pos + 5))
    } else if kw_at(s, pos, ":FOLD"@) {
        Some((FilterV::Fold, pos + 5))
    } else if kw_at(s, pos, ":SQUASH"@) {
        Some((FilterV::Squash, pos + 7))
    } else if kw_at(s, pos, ":exclude["@) {
        match parse_spec_v(s, pos + 9, (fuel - 1) as nat) {
            Some((inner, p)) => if p < s.len() && s[p] == ']' {
                Some((FilterV::Subtract(Box::new(FilterV::Nop), Box::new(inner)), p + 1))
            } else {
                None
            },
            None => None,
        }
    } else if kw_at(s, pos, ":subtract["@) {
        match parse_spec_v(s, pos + 10, (fuel - 1) as nat) {
            Some((a, p)) => if p < s.len() && s[p] == ',' {
                match parse_spec_v(s, p + 1, (fuel - 1) as nat) {
                    Some((b, p2)) => if p2 < s.len() && s[p2] == ']' {
                        Some((FilterV::Subtract(Box::new(a), Box::new(b)), p2 + 1))
                    } else {
                        None
                    },
                    None => None,
                }
            } else {
                None
            },
            None => None,
        }
    } else if kw_at(s, pos, ":prefix="@) {
        let e = scan_end(s, pos + 8);
        let ps = split_slash(s, pos + 8, e);
        if comps_ok(ps) {
            Some((FilterV::Prefix(ps), e))
        } else {
            None
        }
    } else if kw_at(s, pos, ":workspace="@) {
        let e = scan_end(s, pos + 11);
        let ps = split_slash(s, pos + 11, e);
        if comps_ok(ps) {
            Some((FilterV::Workspace(ps), e))
        } else {
            None
        }
    } else if kw_at(s, pos, ":["@) {
        match parse_list_v(s, pos + 2, (fuel - 1) as nat) {
            Some((fs, p)) => if p < s.len() && s[p] == ']' {
                Some((FilterV::Compose(fs), p + 1))
            } else {
                None
            },
            None => None,
        }
    } else if kw_at(s, pos, "::"@) {
        let st = pos + 2;
        let e = scan_end(s, st);
        if e == st {
            None
        } else if s[e - 1] == '/' {
            let ps = split_slash(s, st, e - 1);
            if comps_ok(ps) {
                Some(
                    (
                        FilterV::Chain(
                            Box::new(FilterV::Subdir(ps)),
                            Box::new(FilterV::Prefix(ps)),
                        ),
                        e,
                    ),
                )
            } else {
                None
            }
        } else if has_meta(s.subrange(st, e)) {
            Some((FilterV::Glob(s.subrange(st, e)), e))
        } else {
            let ps = split_slash(s, st, e);
            if comps_ok(ps) {
                Some((FilterV::File(ps), e))
            } else {
                None
            }
        }
    } else if kw_at(s, pos, ":/"@) {
        let st = pos + 2;
        let e = scan_end(s, st);
        let ps = split_slash(s, st, e);
        if comps_ok(ps) {
            Some((FilterV::Subdir(ps), e))
        } else {
            None
        }
    } else {
        None
    }
}

/// The members of a bracketed group, separated by ','.
pub open spec fn parse_list_v(s: Seq<char>, pos: int, fuel: nat) -> Option<(Seq<FilterV>, int)>
    decreases fuel,
{
    if fuel == 0 {
        None
    } else {
        match parse_spec_v(s, pos, (fuel - 1) as nat) {
            Some((f, p)) => if p < s.len() && s[p] == ',' {
                match parse_list_v(s, p + 1, (fuel - 1) as nat) {
                    Some((fs, p2)) => Some((seq![f] + fs, p2)),
                    None => None,
                }
            } else {
                Some((seq![f], p))
            },
            None => None,
        }
    }
}

/// A chain of one or more atoms, associated to the right.
pub open spec fn parse_spec_v(s: Seq<char>, pos: int, fuel: nat) -> Option<(FilterV, int)>
    decreases fuel,
{
    if fuel == 0 {
        None
    } else {
        match parse_atom_v(s, pos, (fuel - 1) as nat) {
            Some((f, p)) => if p < s.len() && s[p] == ':' {
                match parse_spec_v(s, p, (fuel - 1) as nat) {
                    Some((rest, p2)) => Some(
                        (FilterV::Chain(Box::new(f), Box::new(rest)), p2),
                    ),
                    None => None,
                }
            } else {
                Some((f, p))
            },
            None => None,
        }
    }
}

/// The recursion budget for an input of `n` characters; ample for any
/// input of ordinary size.
pub open spec fn parse_fuel(n: nat) -> nat {
    if n < 0x10000000 {
        4 * n + 8
    } else {
        0x40000000
    }
}

/// The filter denoted by the whole of `s`.
pub open spec fn parse_v(s: Seq<char>) -> Option<FilterV> {
    match parse_spec_v(s, 0, parse_fuel(s.len())) {
        Some((f, p)) => if p == s.len() {
            Some(f)
        } else {
            None
        },
        None => None,
    }
}


fn perr(pos: usize, msg: &str) -> (e: JoshError)
    ensures
        e is Parse,
{
    JoshError::Parse { pos, msg: msg.to_owned() }
}

fn parse_atom(s: &str, pos: usize, fuel: usize) -> (r: Result<(Filter, usize), JoshError>)
    requires
        pos <= s@.len(),
    ensures
        match r {
            Ok((f, p)) => parse_atom_v(s@, pos as int, fuel as nat) == Some((f@, p as int)) && pos
                < p <= s@.len(),
            Err(e) => parse_atom_v(s@, pos as int, fuel as nat) is None && e is Parse,
        },
    decreases fuel,
{
    proof {
        reveal_strlit(":nop");
        reveal_strlit(":empty");
        reveal_strlit(":DIRS");
        reveal_strlit(":FOLD");
        reveal_strlit(":SQUASH");
        reveal_strlit(":exclude[");
        reveal_strlit(":subtract[");
        reveal_strlit(":prefix=");
        reveal_strlit(":workspace=");
        reveal_strlit(":[");
        reveal_strlit("::");
        reveal_strlit(":/");
    }
    let n = s.unicode_len();
    if fuel == 0 || pos >= n || s.get_char(pos) != ':' {
        return Err(perr(pos, "expected an atom"));
    }
    if kw_at_exec(s, pos, ":nop") {
        return Ok((Filter::Nop, pos + 4));
    }
    if kw_at_exec(s, pos, ":empty") {
        return Ok((Filter::Empty, pos + 6));
    }
    if kw_at_exec(s, pos, ":DIRS") {
        return Ok((Filter::Dirs, pos + 5));
    }
    if kw_at_exec(s, pos, ":FOLD") {
        return Ok((Filter::Fold, pos + 5));
    }
    if kw_at_exec(s, pos, ":SQUASH") {
        return Ok((Filter::Squash, pos + 7));
    }
    if kw_at_exec(s, pos, ":exclude[") {
        let (inner, p) = parse_spec_at(s, pos + 9, fuel - 1)?;
        if p < n && s.get_char(p) == ']' {
            let ghost iv = inner@;
            let r = Filter::Subtract(Box::new(Filter::Nop), Box::new(inner));
            proof {
                assert(r@ == FilterV::Subtract(Box::new(filter_view(Filter::Nop)), Box::new(iv)));
                assert(filter_view(Filter::Nop) == FilterV::Nop);
            }
            return Ok((r, p + 1));
        }
        return Err(perr(p, "expected ']'"));
    }
    if kw_at_exec(s, pos, ":subtract[") {
        let (a, p) = parse_spec_at(s, pos + 10, fuel - 1)?;
        if !(p < n && s.get_char(p) == ',') {
            return Err(perr(p, "expected ','"));
        }
        let (b, p2) = parse_spec_at(s, p + 1, fuel - 1)?;
        if p2 < n && s.get_char(p2) == ']' {
            return Ok((Filter::Subtract(Box::new(a), Box::new(b)), p2 + 1));
        }
        return Err(perr(p2, "expected ']'"));
    }
    if kw_at_exec(s, pos, ":prefix=") {
        let e = scan_end_exec(s, pos + 8);
        match split_path_exec(s, pos + 8, e) {
            Some(ps) => {
                return Ok((Filter::Prefix(ps), e));
            },
            None => {
                return Err(perr(pos, "bad path"));
            },
        }
    }
    if kw_at_exec(s, pos, ":workspace=") {
        let e = scan_end_exec(s, pos + 11);
        match split_path_exec(s, pos + 11, e) {
            Some(ps) => {
                return Ok((Filter::Workspace(ps), e));
            },
            None => {
                return Err(perr(pos, "bad path"));
            },
        }
    }
    if kw_at_exec(s, pos, ":[") {
        let (fs, p) = parse_list(s, pos + 2, fuel - 1)?;
        if p < n && s.get_char(p) == ']' {
            return Ok((Filter::Compose(fs), p + 1));
        }
        return Err(perr(p, "expected ']'"));
    }
    if kw_at_exec(s, pos, "::") {
        let st = pos + 2;
        let e = scan_end_exec(s, st);
        if e == st {
            return Err(perr(pos, "empty argument"));
        }
        if s.get_char(e - 1) == '/' {
            match split_path_exec(s, st, e - 1) {
                Some(ps) => {
                    let sd = Filter::Subdir(crate::filter::clone_path(&ps));
                    let pf = Filter::Prefix(ps);
                    let ghost sv = sd@;
                    let ghost pv = pf@;
                    let r = Filter::Chain(Box::new(sd), Box::new(pf));
                    proof {
                        assert(r@ == FilterV::Chain(Box::new(sv), Box::new(pv)));
                    }
                    return Ok((r, e));
                },
                None => {
                    return Err(perr(pos, "bad path"));
                },
            }
        }
        if has_meta_exec(s, st, e) {
            let g = s.substring_char(st, e).to_owned();
            return Ok((Filter::Glob(g), e));
        }
        match split_path_exec(s, st, e) {
            Some(ps) => {
                return Ok((Filter::File(ps), e));
            },
            None => {
                return Err(perr(pos, "bad path"));
            },
        }
    }
    if kw_at_exec(s, pos, ":/") {
        let st = pos + 2;
        let e = scan_end_exec(s, st);
        match split_path_exec(s, st, e) {
            Some(ps) => {
                return Ok((Filter::Subdir(ps), e));
            },
            None => {
                return Err(perr(pos, "bad path"));
            },
        }
    }
    Err(perr(pos, "unknown atom"))
}

fn parse_list(s: &str, pos: usize, fuel: usize) -> (r: Result<(Vec<Filter>, usize), JoshError>)
    requires
        pos <= s@.len(),
    ensures
        match r {
            Ok((fs, p)) => parse_list_v(s@, pos as int, fuel as nat) == Some(
                (filters_view(fs@), p as int),
            ) && pos < p <= s@.len(),
            Err(e) => parse_list_v(s@, pos as int, fuel as nat) is None && e is Parse,
        },
    decreases fuel,
{
    if fuel == 0 {
        return Err(perr(pos, "spec too deep"));
    }
    let n = s.unicode_len();
    let (f, p) = parse_spec_at(s, pos, fuel - 1)?;
    if p < n && s.get_char(p) == ',' {
        let (rest, p2) = parse_list(s, p + 1, fuel - 1)?;
        let ghost fv = f@;
        let ghost restseq = rest@;
        let ghost restv = filters_view(rest@);
        let mut v: Vec<Filter> = Vec::new();
        v.push(f);
        let mut rest = rest;
        v.append(&mut rest);
        proof {
            assert(v@ =~= seq![v@[0]] + restseq);
            lemma_filters_view(v@);
            lemma_filters_view(restseq);
            assert(filters_view(v@) =~= seq![fv] + restv);
        }
        Ok((v, p2))
    } else {
        let mut v: Vec<Filter> = Vec::new();
        let ghost fv = f@;
        v.push(f);
        proof {
            lemma_filters_view(v@);
            assert(filters_view(v@) =~= seq![fv]);
        }
        Ok((v, p))
    }
}

fn parse_spec_at(s: &str, pos: usize, fuel: usize) -> (r: Result<(Filter, usize), JoshError>)
    requires
        pos <= s@.len(),
    ensures
        match r {
            Ok((f, p)) => parse_spec_v(s@, pos as int, fuel as nat) == Some((f@, p as int)) && pos
                < p <= s@.len(),
            Err(e) => parse_spec_v(s@, pos as int, fuel as nat) is None && e is Parse,
        },
    decreases fuel,
{
    if fuel == 0 {
        return Err(perr(pos, "spec too deep"));
    }
    let n = s.unicode_len();
    let (f, p) = parse_atom(s, pos, fuel - 1)?;
    if p < n && s.get_char(p) == ':' {
        let (rest, p2) = parse_spec_at(s, p, fuel - 1)?;
        Ok((Filter::Chain(Box::new(f), Box::new(rest)), p2))
    } else {
        Ok((f, p))
    }
}

/// Parse a filter spec.  Succeeds exactly when the whole input is a
/// well-formed spec, and then returns the filter it denotes.
pub fn parse(s: &str) -> (r: JoshResult<Filter>)
    ensures
        match r {
            Ok(f) => parse_v(s@) == Some(f@),
            Err(e) => parse_v(s@) is None && e is Parse,
        },
{
    let n = s.unicode_len();
    let fuel: usize = if n < 0x10000000 {
        4 * n + 8
    } else {
        0x40000000
    };
    match parse_spec_at(s, 0, fuel) {
        Ok((f, p)) => {
            if p == n {
                Ok(f)
            } else {
                Err(perr(p, "trailing input"))
            }
        },
        Err(e) => Err(e),
    }
}


// ---------------------------------------------------------------------------
// Workspace files
// ---------------------------------------------------------------------------

/// Whitespace inside a line.
pub open spec fn is_ws(c: char) -> bool {
    c == ' ' || c == '\t' || c == '\r'
}

fn is_ws_exec(c: char) -> (r: bool)
    ensures
        r == is_ws(c),
{
    c == ' ' || c == '\t' || c == '\r'
}

/// The end of the line starting at `pos`: the next '\n' or the end.
pub open spec fn line_end(s: Seq<char>, pos: int) -> int
    decreases s.len() - pos,
    when 0 <= pos <= s.len()
{
    if pos >= s.len() || s[pos] == '\n' {
        pos
    } else {
        line_end(s, pos + 1)
    }
}

pub proof fn lemma_line_end(s: Seq<char>, pos: int)
    requires
        0 <= pos <= s.len(),
    ensures
        pos <= line_end(s, pos) <= s.len(),
    decreases s.len() - pos,
{
    if !(pos >= s.len() || s[pos] == '\n') {
        lemma_line_end(s, pos + 1);
    }
}

fn line_end_exec(s: &str, pos: usize) -> (r: usize)
    requires
        pos <= s@.len(),
    ensures
        r == line_end(s@, pos as int),
        pos <= r <= s@.len(),
{
    let n = s.unicode_len();
    let mut i = pos;
    while i < n
        invariant
            pos <= i <= n,
            n == s@.len(),
            line_end(s@, pos as int) == line_end(s@, i as int),
        decreases n - i,
    {
        if s.get_char(i) == '\n' {
            return i;
        }
        i = i + 1;
    }
    i
}

/// First non-whitespace position in `[a, b)`, or `b`.
pub open spec fn trim_start(s: Seq<char>, a: int, b: int) -> int
    decreases b - a,
    when 0 <= a <= b <= s.len()
{
    if a >= b || !is_ws(s[a]) {
        a
    } else {
        trim_start(s, a + 1, b)
    }
}

/// One past the last non-whitespace position in `[a, b)`, or `a`.
pub open spec fn trim_end(s: Seq<char>, a: int, b: int) -> int
    decreases b - a,
    when 0 <= a <= b <= s.len()
{
    if b <= a || !is_ws(s[b - 1]) {
        b
    } else {
        trim_end(s, a, b - 1)
    }
}

fn trim_start_exec(s: &str, a: usize, b: usize) -> (r: usize)
    requires
        a <= b <= s@.len(),
    ensures
        r == trim_start(s@, a as int, b as int),
        a <= r <= b,
{
    let mut i = a;
    while i < b
        invariant
            a <= i <= b,
            b <= s@.len(),
            trim_start(s@, a as int, b as int) == trim_start(s@, i as int, b as int),
        decreases b - i,
    {
        if !is_ws_exec(s.get_char(i)) {
            return i;
        }
        i = i + 1;
    }
    i
}

fn trim_end_exec(s: &str, a: usize, b: usize) -> (r: usize)
    requires
        a <= b <= s@.len(),
    ensures
        r == trim_end(s@, a as int, b as int),
        a <= r <= b,
{
    let mut i = b;
    while i > a
        invariant
            a <= i <= b,
            b <= s@.len(),
            trim_end(s@, a as int, b as int) == trim_end(s@, a as int, i as int),
        decreases i,
    {
        if !is_ws_exec(s.get_char(i - 1)) {
            return i;
        }
        i = i - 1;
    }
    i
}

/// The position of the first " = " separator in `[a, b)`, or `b` when
/// there is none.
pub open spec fn eq_sep_pos(s: Seq<char>, a: int, b: int) -> int
    decreases b - a,
    when 0 <= a <= b <= s.len()
{
    if a + 3 > b {
        b
    } else if s[a] == ' ' && s[a + 1] == '=' && s[a + 2] == ' ' {
        a
    } else {
        eq_sep_pos(s, a + 1, b)
    }
}

pub proof fn lemma_eq_sep_pos(s: Seq<char>, a: int, b: int)
    requires
        0 <= a <= b <= s.len(),
    ensures
        a <= eq_sep_pos(s, a, b) <= b,
        eq_sep_pos(s, a, b) + 3 <= b || eq_sep_pos(s, a, b) == b,
    decreases b - a,
{
    if !(a + 3 > b) && !(s[a] == ' ' && s[a + 1] == '=' && s[a + 2] == ' ') {
        lemma_eq_sep_pos(s, a + 1, b);
    }
}

fn eq_sep_pos_exec(s: &str, a: usize, b: usize) -> (r: usize)
    requires
        a <= b <= s@.len(),
    ensures
        r == eq_sep_pos(s@, a as int, b as int),
        a <= r <= b,
        r + 3 <= b || r == b,
{
    proof {
        lemma_eq_sep_pos(s@, a as int, b as int);
    }
    if b < 3 {
        return b;
    }
    let mut i = a;
    while i <= b - 3
        invariant
            a <= i <= b,
            b >= 3,
            b <= s@.len(),
            eq_sep_pos(s@, a as int, b as int) == eq_sep_pos(s@, i as int, b as int),
        decreases b - i,
    {
        if s.get_char(i) == ' ' && s.get_char(i + 1) == '=' && s.get_char(i + 2) == ' ' {
            return i;
        }
        i = i + 1;
    }
    b
}

/// The filter denoted by the trimmed line `s[a..b)`: either a
/// `path = spec` assignment, or a plain spec.
pub open spec fn ws_member_v(s: Seq<char>, a: int, b: int) -> Option<FilterV>
    recommends
        0 <= a <= b <= s.len(),
{
    let e = eq_sep_pos(s, a, b);
    if e < b {
        let ps = split_slash(s, a, e);
        if comps_ok(ps) {
            match parse_v(s.subrange(e + 3, b)) {
                Some(f) => Some(
                    FilterV::Chain(Box::new(f), Box::new(FilterV::Prefix(ps))),
                ),
                None => None,
            }
        } else {
            None
        }
    } else {
        parse_v(s.subrange(a, b))
    }
}

/// The members named by the lines of a workspace file from `pos` on;
/// blank lines and '#' comments are skipped.
pub open spec fn ws_collect_v(s: Seq<char>, pos: int) -> Option<Seq<FilterV>>
    decreases s.len() - pos,
    when 0 <= pos <= s.len()
{
    if pos >= s.len() {
        Some(Seq::<FilterV>::empty())
    } else {
        let le = line_end(s, pos);
        let a = trim_start(s, pos, le);
        let b = trim_end(s, a, le);
        let rest = if le >= s.len() {
            Some(Seq::<FilterV>::empty())
        } else {
            proof {
                lemma_line_end(s, pos);
            }
            ws_collect_v(s, le + 1)
        };
        match rest {
            None => None,
            Some(ms) => if a >= b || s[a] == '#' {
                Some(ms)
            } else {
                match ws_member_v(s, a, b) {
                    Some(m) => Some(seq![m] + ms),
                    None => None,
                }
            },
        }
    }
}

/// The filter denoted by a whole workspace file: one member is taken as
/// is, several compose.
pub open spec fn parse_ws_v(s: Seq<char>) -> Option<FilterV> {
    match ws_collect_v(s, 0) {
        None => None,
        Some(ms) => if ms.len() == 0 {
            None
        } else if ms.len() == 1 {
            Some(ms[0])
        } else {
            Some(FilterV::Compose(ms))
        },
    }
}

fn ws_member(s: &str, a: usize, b: usize) -> (r: Result<Filter, JoshError>)
    requires
        a <= b <= s@.len(),
    ensures
        match r {
            Ok(f) => ws_member_v(s@, a as int, b as int) == Some(f@),
            Err(e) => ws_member_v(s@, a as int, b as int) is None && e is Parse,
        },
{
    let e = eq_sep_pos_exec(s, a, b);
    if e < b {
        match split_path_exec(s, a, e) {
            Some(ps) => {
                let right = s.substring_char(e + 3, b);
                match parse(right) {
                    Ok(f) => {
                        let ghost fv = f@;
                        let pf = Filter::Prefix(ps);
                        let ghost pv = pf@;
                        let r = Filter::Chain(Box::new(f), Box::new(pf));
                        proof {
                            assert(r@ == FilterV::Chain(Box::new(fv), Box::new(pv)));
                        }
                        Ok(r)
                    },
                    Err(e2) => Err(e2),
                }
            },
            None => Err(perr(a, "bad path")),
        }
    } else {
        parse(s.substring_char(a, b))
    }
}

/// Parse the content of a workspace file: one filter per line, either a
/// plain spec or a `path = spec` assignment; blank lines and lines
/// starting with '#' are skipped.  Succeeds exactly when every remaining
/// line is well-formed and at least one is present.
pub fn parse_workspace(s: &str) -> (r: JoshResult<Filter>)
    ensures
        match r {
            Ok(f) => parse_ws_v(s@) == Some(f@),
            Err(e) => parse_ws_v(s@) is None && e is Parse,
        },
{
    let n = s.unicode_len();
    let mut members: Vec<Filter> = Vec::new();
    let mut pos: usize = 0;
    proof {
        assert(filters_view(members@) =~= Seq::<FilterV>::empty());
    }
    while pos < n
        invariant
            0 <= pos <= n,
            n == s@.len(),
            match ws_collect_v(s@, 0) {
                Some(all) => ws_collect_v(s@, pos as int) matches Some(ms) && all
                    =~= filters_view(members@) + ms,
                None => ws_collect_v(s@, pos as int) is None,
            },
        decreases n - pos,
    {
        let le = line_end_exec(s, pos);
        let a = trim_start_exec(s, pos, le);
        let b = trim_end_exec(s, a, le);
        let ghost prevm = members@;
        if a >= b || s.get_char(a) == '#' {
            // skip
        } else {
            match ws_member(s, a, b) {
                Ok(m) => {
                    members.push(m);
                    proof {
                        lemma_filters_view_push(prevm, m);
                    }
                },
                Err(e) => {
                    proof {
                        assert(ws_collect_v(s@, pos as int) is None);
                    }
                    return Err(e);
                },
            }
        }
        if le >= n {
            pos = n;
        } else {
            pos = le + 1;
        }
        proof {
            assert(filters_view(members@) + match ws_collect_v(s@, pos as int) {
                Some(ms) => ms,
                None => Seq::<FilterV>::empty(),
            } =~= filters_view(members@) + match ws_collect_v(s@, pos as int) {
                Some(ms) => ms,
                None => Seq::<FilterV>::empty(),
            });
        }
    }
    proof {
        assert(ws_collect_v(s@, n as int) == Some(Seq::<FilterV>::empty()));
    }
    if members.len() == 0 {
        proof {
            if ws_collect_v(s@, 0) is Some {
                assert(ws_collect_v(s@, 0)->Some_0 =~= Seq::<FilterV>::empty());
            }
        }
        return Err(perr(0, "empty workspace file"));
    }
    if members.len() == 1 {
        let ghost mseq = members@;
        let m = match members.pop() {
            Some(x) => x,
            None => Filter::Nop,
        };
        proof {
            lemma_filters_view(mseq);
            assert(m == mseq[0]);
            assert(m@ == filters_view(mseq)[0]);
        }
        return Ok(m);
    }
    proof {
        lemma_filters_view(members@);
    }
    Ok(Filter::Compose(members))
}

} // verus!
