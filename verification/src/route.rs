use vstd::prelude::*;

verus! {

// ===========================================================================
// Browser routes: the address of a view onto a filtered repository.
// ===========================================================================

pub struct AppRoute {
    pub mode: String,
    pub repo: String,
    pub rev: String,
    pub filter: String,
    pub path: String,
    pub meta: String,
}

pub struct RouteV {
    pub mode: Seq<char>,
    pub repo: Seq<char>,
    pub rev: Seq<char>,
    pub filter: Seq<char>,
    pub path: Seq<char>,
    pub meta: Seq<char>,
}

impl View for AppRoute {
    type V = RouteV;

    open spec fn view(&self) -> RouteV {
        RouteV {
            mode: self.mode@,
            repo: self.repo@,
            rev: self.rev@,
            filter: self.filter@,
            path: self.path@,
            meta: self.meta@,
        }
    }
}

/// The index one past the last '/' in `p`, or 0 when there is none.
pub open spec fn after_last_slash(p: Seq<char>, i: int) -> int
    decreases i,
    when 0 <= i <= p.len()
{
    if i <= 0 {
        0
    } else if p[i - 1] == '/' {
        i
    } else {
        after_last_slash(p, i - 1)
    }
}

/// The parent of a path: everything before the last '/', empty when there
/// is no separator.
pub open spec fn parent_of(p: Seq<char>) -> Seq<char> {
    let i = after_last_slash(p, p.len() as int);
    if i <= 0 {
        Seq::<char>::empty()
    } else {
        p.subrange(0, i - 1)
    }
}

/// The last component of a path.
pub open spec fn basename_of(p: Seq<char>) -> Seq<char> {
    p.subrange(after_last_slash(p, p.len() as int), p.len() as int)
}

pub proof fn lemma_after_last_slash(p: Seq<char>, i: int)
    requires
        0 <= i <= p.len(),
    ensures
        0 <= after_last_slash(p, i) <= i,
    decreases i,
{
    if i > 0 && p[i - 1] != '/' {
        lemma_after_last_slash(p, i - 1);
    }
}

fn after_last_slash_exec(p: &str) -> (r: usize)
    ensures
        r == after_last_slash(p@, p@.len() as int),
        r <= p@.len(),
{
    let n = p.unicode_len();
    let mut i = n;
    while i > 0
        invariant
            0 <= i <= n,
            n == p@.len(),
            after_last_slash(p@, n as int) == after_last_slash(p@, i as int),
        decreases i,
    {
        if p.get_char(i - 1) == '/' {
            return i;
        }
        i = i - 1;
    }
    i
}

impl AppRoute {
    /// The same route with another path.
    pub fn with_path(&self, path: &str) -> (r: Self)
        ensures
            r@ == (RouteV { path: path@, ..self@ }),
    {
        AppRoute {
            mode: self.mode.clone(),
            repo: self.repo.clone(),
            rev: self.rev.clone(),
            filter: self.filter.clone(),
            path: path.to_owned(),
            meta: self.meta.clone(),
        }
    }

    /// The route one directory up.
    pub fn path_up(&self) -> (r: Self)
        ensures
            r@ == (RouteV { path: parent_of(self@.path), ..self@ }),
    {
        let i = after_last_slash_exec(self.path.as_str());
        let newpath: String = if i == 0 {
            String::new()
        } else {
            self.path.as_str().substring_char(0, i - 1).to_owned()
        };
        AppRoute {
            mode: self.mode.clone(),
            repo: self.repo.clone(),
            rev: self.rev.clone(),
            filter: self.filter.clone(),
            path: newpath,
            meta: self.meta.clone(),
        }
    }

    /// The same route in filter-editing mode.
    pub fn edit_filter(&self) -> (r: Self)
        ensures
            r@ == (RouteV { mode: "filter"@, ..self@ }),
    {
        AppRoute {
            mode: "filter".to_owned(),
            repo: self.repo.clone(),
            rev: self.rev.clone(),
            filter: self.filter.clone(),
            path: self.path.clone(),
            meta: self.meta.clone(),
        }
    }

    /// The last component of the path.
    pub fn filename(&self) -> (r: String)
        ensures
            r@ == basename_of(self@.path),
    {
        let i = after_last_slash_exec(self.path.as_str());
        let n = self.path.as_str().unicode_len();
        self.path.as_str().substring_char(i, n).to_owned()
    }

    /// The routes of the path and all its ancestors, nearest first; the
    /// root (empty path) is not included.
    pub fn breadcrumbs(&self) -> (r: Vec<Self>)
        ensures
            crumbs_v(self@) == r.deep_view(),
    {
        let mut r: Vec<AppRoute> = Vec::new();
        let mut x = self.with_path(self.path.as_str());
        proof {
            assert(x@ == self@);
            assert(r.deep_view() =~= Seq::<RouteV>::empty());
        }
        loop
            invariant
                crumbs_v(self@) == r.deep_view() + crumbs_v(x@),
            decreases x@.path.len(),
        {
            let n = x.path.as_str().unicode_len();
            if n == 0 {
                proof {
                    assert(crumbs_v(x@) =~= Seq::<RouteV>::empty());
                    assert(r.deep_view() + crumbs_v(x@) =~= r.deep_view());
                }
                return r;
            }
            let ghost prev = r.deep_view();
            let c = x.with_path(x.path.as_str());
            proof {
                assert(c@ == x@);
            }
            r.push(c);
            let up = x.path_up();
            proof {
                assert(r.deep_view() =~= prev.push(x@));
                assert(crumbs_v(x@) == seq![x@] + crumbs_v(up@));
                assert(prev + crumbs_v(x@) =~= r.deep_view() + crumbs_v(up@));
                lemma_after_last_slash(x@.path, x@.path.len() as int);
                assert(up@.path.len() < x@.path.len());
            }
            x = up;
        }
    }

    /// The same route, browsing under another filter.
    pub fn with_filter(&self, filter: &str) -> (r: Self)
        ensures
            r@ == (RouteV { mode: "browse"@, filter: filter@, ..self@ }),
    {
        AppRoute {
            mode: "browse".to_owned(),
            repo: self.repo.clone(),
            rev: self.rev.clone(),
            filter: filter.to_owned(),
            path: self.path.clone(),
            meta: self.meta.clone(),
        }
    }

    /// The same route at another revision.
    pub fn with_rev(&self, rev: &str) -> (r: Self)
        ensures
            r@ == (RouteV { rev: rev@, ..self@ }),
    {
        AppRoute {
            mode: self.mode.clone(),
            repo: self.repo.clone(),
            rev: rev.to_owned(),
            filter: self.filter.clone(),
            path: self.path.clone(),
            meta: self.meta.clone(),
        }
    }
}

/// The route and its ancestors, nearest first, down to but excluding the
/// empty path.
pub open spec fn crumbs_v(rv: RouteV) -> Seq<RouteV>
    decreases rv.path.len(),
{
    if rv.path.len() == 0 {
        Seq::<RouteV>::empty()
    } else {
        proof {
            lemma_after_last_slash(rv.path, rv.path.len() as int);
        }
        seq![rv] + crumbs_v(RouteV { path: parent_of(rv.path), ..rv })
    }
}

impl DeepView for AppRoute {
    type V = RouteV;

    open spec fn deep_view(&self) -> RouteV {
        self.view()
    }
}

} // verus!
