use vstd::prelude::*;
use crate::tree::str_eq;

verus! {

// ===========================================================================
// Filter expressions.
//
// A filter is an operator tree, held as a plain value: equality of filters
// is structural, so two expressions that normalise to the same operator
// tree are equal.  Paths are kept as their components.
// ===========================================================================

pub enum Filter {
    Nop,
    Empty,
    Fold,
    Squash,
    Dirs,
    /// Keep only the blob at the path, placed at the same path.
    File(Vec<String>),
    /// Place the whole input below the path.
    Prefix(Vec<String>),
    /// The subtree at the path.
    Subdir(Vec<String>),
    /// Behaviour read from `<path>/workspace.josh` inside the input tree.
    Workspace(Vec<String>),
    /// Keep only blobs whose full path matches the pattern.
    Glob(String),
    /// Overlay of the outputs, later entries override earlier ones.
    Compose(Vec<Filter>),
    /// Feed the output of the first filter into the second.
    Chain(Box<Filter>, Box<Filter>),
    /// Remove from the first output what the second explains.
    Subtract(Box<Filter>, Box<Filter>),
}

pub enum FilterV {
    Nop,
    Empty,
    Fold,
    Squash,
    Dirs,
    File(Seq<Seq<char>>),
    Prefix(Seq<Seq<char>>),
    Subdir(Seq<Seq<char>>),
    Workspace(Seq<Seq<char>>),
    Glob(Seq<char>),
    Compose(Seq<FilterV>),
    Chain(Box<FilterV>, Box<FilterV>),
    Subtract(Box<FilterV>, Box<FilterV>),
}

pub open spec fn filters_view(s: Seq<Filter>) -> Seq<FilterV>
    decreases s,
{
    if s.len() == 0 {
        Seq::empty()
    } else {
        filters_view(s.drop_last()).push(filter_view(s.last()))
    }
}

pub open spec fn filter_view(f: Filter) -> FilterV
    decreases f,
{
    match f {
        Filter::Nop => FilterV::Nop,
        Filter::Empty => FilterV::Empty,
        Filter::Fold => FilterV::Fold,
        Filter::Squash => FilterV::Squash,
        Filter::Dirs => FilterV::Dirs,
        Filter::File(p) => FilterV::File(p.deep_view()),
        Filter::Prefix(p) => FilterV::Prefix(p.deep_view()),
        Filter::Subdir(p) => FilterV::Subdir(p.deep_view()),
        Filter::Workspace(p) => FilterV::Workspace(p.deep_view()),
        Filter::Glob(p) => FilterV::Glob(p@),
        Filter::Compose(fs) => FilterV::Compose(filters_view(fs@)),
        Filter::Chain(a, b) => FilterV::Chain(Box::new(filter_view(*a)), Box::new(filter_view(*b))),
        Filter::Subtract(a, b) => FilterV::Subtract(
            Box::new(filter_view(*a)),
            Box::new(filter_view(*b)),
        ),
    }
}

impl View for Filter {
    type V = FilterV;

    open spec fn view(&self) -> FilterV {
        filter_view(*self)
    }
}

pub broadcast proof fn lemma_filters_view(s: Seq<Filter>)
    ensures
        (#[trigger] filters_view(s)).len() == s.len(),
        forall|i: int| 0 <= i < s.len() ==> filters_view(s)[i] == filter_view(s[i]),
    decreases s,
{
    if s.len() > 0 {
        lemma_filters_view(s.drop_last());
    }
}

pub broadcast proof fn lemma_filters_view_push(s: Seq<Filter>, f: Filter)
    ensures
        #[trigger] filters_view(s.push(f)) == filters_view(s).push(filter_view(f)),
{
    assert(s.push(f).drop_last() =~= s);
}

// ---------------------------------------------------------------------------
// Constructors and basic tests
// ---------------------------------------------------------------------------

impl Filter {
    /// Whether this filter is the identity operator.
    pub fn is_nop(&self) -> (r: bool)
        ensures
            r == (self@ is Nop),
    {
        matches!(self, Filter::Nop)
    }
}

/// The filter that feeds the output of `first` into `second`.
pub fn chain(first: Filter, second: Filter) -> (r: Filter)
    ensures
        r@ == FilterV::Chain(Box::new(first@), Box::new(second@)),
{
    Filter::Chain(Box::new(first), Box::new(second))
}

/// The filter that overlays the output of `second` onto that of `first`.
pub fn compose(first: Filter, second: Filter) -> (r: Filter)
    ensures
        r@ == FilterV::Compose(seq![first@, second@]),
{
    let ghost f1 = first@;
    let ghost f2 = second@;
    let mut fs: Vec<Filter> = Vec::new();
    fs.push(first);
    fs.push(second);
    proof {
        broadcast use lemma_filters_view, lemma_filters_view_push;

        assert(filters_view(fs@) =~= seq![f1, f2]);
    }
    Filter::Compose(fs)
}

// ---------------------------------------------------------------------------
// Cloning and equality
// ---------------------------------------------------------------------------

pub fn clone_path(p: &Vec<String>) -> (r: Vec<String>)
    ensures
        r.deep_view() == p.deep_view(),
        r@.len() == p@.len(),
{
    let mut r: Vec<String> = Vec::new();
    let mut i: usize = 0;
    while i < p.len()
        invariant
            i <= p@.len(),
            r@.len() == i,
            forall|k: int| 0 <= k < i ==> #[trigger] r@[k]@ == p@[k]@,
        decreases p@.len() - i,
    {
        r.push(p[i].clone());
        i = i + 1;
    }
    proof {
        assert(r.deep_view() =~= p.deep_view());
    }
    r
}

pub fn clone_filter(f: &Filter) -> (r: Filter)
    ensures
        r@ == f@,
    decreases *f,
{
    match f {
        Filter::Nop => Filter::Nop,
        Filter::Empty => Filter::Empty,
        Filter::Fold => Filter::Fold,
        Filter::Squash => Filter::Squash,
        Filter::Dirs => Filter::Dirs,
        Filter::File(p) => Filter::File(clone_path(p)),
        Filter::Prefix(p) => Filter::Prefix(clone_path(p)),
        Filter::Subdir(p) => Filter::Subdir(clone_path(p)),
        Filter::Workspace(p) => Filter::Workspace(clone_path(p)),
        Filter::Glob(p) => Filter::Glob(p.clone()),
        Filter::Compose(fs) => {
            let mut r: Vec<Filter> = Vec::new();
            let mut i: usize = 0;
            proof {
                broadcast use lemma_filters_view;
            }
            while i < fs.len()
                invariant
                    *f == Filter::Compose(*fs),
                    i <= fs@.len(),
                    r@.len() == i,
                    forall|k: int|
                        0 <= k < i ==> filter_view(#[trigger] r@[k]) == filter_view(fs@[k]),
                decreases fs@.len() - i,
            {
                proof {
                    assert(f->Compose_0 == *fs);
                    assert(decreases_to!(*f => *fs));
                    assert(decreases_to!(*fs => fs@));
                    assert(decreases_to!(fs@ => fs@[i as int]));
                }
                let c = clone_filter(&fs[i]);
                r.push(c);
                i = i + 1;
            }
            proof {
                lemma_filters_view(r@);
                lemma_filters_view(fs@);
                assert(filters_view(r@) =~= filters_view(fs@));
            }
            Filter::Compose(r)
        },
        Filter::Chain(a, b) => Filter::Chain(Box::new(clone_filter(a)), Box::new(clone_filter(b))),
        Filter::Subtract(a, b) => Filter::Subtract(
            Box::new(clone_filter(a)),
            Box::new(clone_filter(b)),
        ),
    }
}

pub fn path_eq(a: &Vec<String>, b: &Vec<String>) -> (r: bool)
    ensures
        r == (a.deep_view() == b.deep_view()),
{
    if a.len() != b.len() {
        proof {
            assert(a.deep_view().len() == a@.len());
            assert(b.deep_view().len() == b@.len());
        }
        return false;
    }
    let mut i: usize = 0;
    while i < a.len()
        invariant
            i <= a@.len(),
            a@.len() == b@.len(),
            forall|k: int| 0 <= k < i ==> #[trigger] a@[k]@ == b@[k]@,
        decreases a@.len() - i,
    {
        if !str_eq(a[i].as_str(), b[i].as_str()) {
            proof {
                assert(a.deep_view()[i as int] == a@[i as int]@);
                assert(b.deep_view()[i as int] == b@[i as int]@);
            }
            return false;
        }
        i = i + 1;
    }
    proof {
        assert(a.deep_view() =~= b.deep_view());
    }
    true
}

/// Structural equality of filters.
pub fn filter_eq(a: &Filter, b: &Filter) -> (r: bool)
    ensures
        r == (a@ == b@),
    decreases *a,
{
    match (a, b) {
        (Filter::Nop, Filter::Nop) => true,
        (Filter::Empty, Filter::Empty) => true,
        (Filter::Fold, Filter::Fold) => true,
        (Filter::Squash, Filter::Squash) => true,
        (Filter::Dirs, Filter::Dirs) => true,
        (Filter::File(p), Filter::File(q)) => path_eq(p, q),
        (Filter::Prefix(p), Filter::Prefix(q)) => path_eq(p, q),
        (Filter::Subdir(p), Filter::Subdir(q)) => path_eq(p, q),
        (Filter::Workspace(p), Filter::Workspace(q)) => path_eq(p, q),
        (Filter::Glob(p), Filter::Glob(q)) => str_eq(p.as_str(), q.as_str()),
        (Filter::Compose(fs), Filter::Compose(gs)) => {
            proof {
                broadcast use lemma_filters_view;

                lemma_filters_view(fs@);
                lemma_filters_view(gs@);
            }
            if fs.len() != gs.len() {
                return false;
            }
            let mut i: usize = 0;
            while i < fs.len()
                invariant
                    *a == Filter::Compose(*fs),
                    *b == Filter::Compose(*gs),
                    i <= fs@.len(),
                    fs@.len() == gs@.len(),
                    filters_view(fs@).len() == fs@.len(),
                    filters_view(gs@).len() == gs@.len(),
                    forall|k: int|
                        0 <= k < fs@.len() ==> filters_view(fs@)[k] == filter_view(
                            #[trigger] fs@[k],
                        ),
                    forall|k: int|
                        0 <= k < gs@.len() ==> filters_view(gs@)[k] == filter_view(
                            #[trigger] gs@[k],
                        ),
                    forall|k: int|
                        0 <= k < i ==> filter_view(#[trigger] fs@[k]) == filter_view(gs@[k]),
                decreases fs@.len() - i,
            {
                proof {
                    assert(a->Compose_0 == *fs);
                    assert(decreases_to!(*a => *fs));
                    assert(decreases_to!(*fs => fs@));
                    assert(decreases_to!(fs@ => fs@[i as int]));
                }
                if !filter_eq(&fs[i], &gs[i]) {
                    return false;
                }
                i = i + 1;
            }
            proof {
                assert(filters_view(fs@) =~= filters_view(gs@));
            }
            true
        },
        (Filter::Chain(x1, y1), Filter::Chain(x2, y2)) => filter_eq(x1, x2) && filter_eq(y1, y2),
        (Filter::Subtract(x1, y1), Filter::Subtract(x2, y2)) => filter_eq(x1, x2) && filter_eq(
            y1,
            y2,
        ),
        _ => false,
    }
}


// ---------------------------------------------------------------------------
// The compact, round-trippable spec string
// ---------------------------------------------------------------------------

/// Path components joined with '/'.
pub open spec fn join_path(p: Seq<Seq<char>>) -> Seq<char>
    decreases p.len(),
{
    if p.len() == 0 {
        Seq::<char>::empty()
    } else if p.len() == 1 {
        p[0]
    } else {
        p[0] + seq!['/'] + join_path(p.skip(1))
    }
}

/// The single-line spec form of a filter.
pub open spec fn render(f: FilterV) -> Seq<char>
    decreases f,
{
    match f {
        FilterV::Nop => ":nop"@,
        FilterV::Empty => ":empty"@,
        FilterV::Dirs => ":DIRS"@,
        FilterV::Fold => ":FOLD"@,
        FilterV::Squash => ":SQUASH"@,
        FilterV::Subdir(p) => ":/"@ + join_path(p),
        FilterV::File(p) => "::"@ + join_path(p),
        FilterV::Prefix(p) => ":prefix="@ + join_path(p),
        FilterV::Workspace(p) => ":workspace="@ + join_path(p),
        FilterV::Glob(g) => "::"@ + g,
        FilterV::Chain(a, b) => render(*a) + render(*b),
        FilterV::Compose(fs) => ":["@ + render_list(fs) + "]"@,
        FilterV::Subtract(a, b) => ":subtract["@ + render(*a) + ","@ + render(*b) + "]"@,
    }
}

/// The members of a compose group, joined with ','.
pub open spec fn render_list(fs: Seq<FilterV>) -> Seq<char>
    decreases fs,
{
    if fs.len() == 0 {
        Seq::<char>::empty()
    } else if fs.len() == 1 {
        render(fs[0])
    } else {
        render(fs[0]) + ","@ + render_list(fs.skip(1))
    }
}

proof fn lemma_render_list_push(s: Seq<FilterV>, x: FilterV)
    ensures
        render_list(s.push(x)) == if s.len() == 0 {
            render(x)
        } else {
            render_list(s) + ","@ + render(x)
        },
    decreases s.len(),
{
    if s.len() == 0 {
        assert(s.push(x)[0] == x);
    } else if s.len() == 1 {
        assert(s.push(x).skip(1) =~= seq![x]);
        assert(s.push(x)[0] == s[0]);
        lemma_render_list_push(Seq::empty(), x);
        assert(seq![x][0] == x);
        assert(render_list(seq![x]) == render(x));
    } else {
        assert(s.push(x).skip(1) =~= s.skip(1).push(x));
        assert(s.push(x)[0] == s[0]);
        lemma_render_list_push(s.skip(1), x);
        assert(render_list(s) + ","@ + render(x) =~= render(s[0]) + ","@ + (render_list(s.skip(1))
            + ","@ + render(x)));
    }
}

/// Join the components of `p` with '/'.
pub fn join_path_exec(p: &Vec<String>) -> (r: String)
    ensures
        r@ == join_path(p.deep_view()),
{
    let mut r = String::new();
    let mut i: usize = 0;
    proof {
        assert(p.deep_view().len() == p@.len());
    }
    if p.len() == 0 {
        return r;
    }
    r = p[0].clone();
    i = 1;
    proof {
        assert(p.deep_view().skip(0) =~= p.deep_view());
        lemma_join_tail(p.deep_view(), 0);
        assert(p.deep_view()[0] == p@[0]@);
        assert(r@ == p.deep_view()[0]);
    }
    while i < p.len()
        invariant
            1 <= i <= p@.len(),
            p.deep_view().len() == p@.len(),
            forall|k: int| 0 <= k < p@.len() ==> p.deep_view()[k] == #[trigger] p@[k]@,
            join_path(p.deep_view()) == r@ + tail_path(p.deep_view(), i as int),
        decreases p@.len() - i,
    {
        let ghost prevr = r@;
        r.append("/");
        r.append(p[i].as_str());
        proof {
            reveal_strlit("/");
            assert("/"@ =~= seq!['/']);
            assert(tail_path(p.deep_view(), i as int) == seq!['/'] + p.deep_view()[i as int]
                + tail_path(p.deep_view(), i + 1));
            assert(r@ =~= prevr + seq!['/'] + p.deep_view()[i as int]);
            assert(prevr + tail_path(p.deep_view(), i as int) =~= r@ + tail_path(
                p.deep_view(),
                i + 1,
            ));
        }
        i = i + 1;
    }
    proof {
        assert(tail_path(p.deep_view(), p@.len() as int) =~= Seq::<char>::empty());
        assert(join_path(p.deep_view()) =~= r@);
    }
    r
}

/// What remains of a joined path after the first `i` components.
pub open spec fn tail_path(p: Seq<Seq<char>>, i: int) -> Seq<char>
    decreases p.len() - i,
    when 0 <= i <= p.len()
{
    if i >= p.len() {
        Seq::<char>::empty()
    } else {
        seq!['/'] + p[i] + tail_path(p, i + 1)
    }
}

proof fn lemma_join_tail(p: Seq<Seq<char>>, i: int)
    requires
        0 <= i < p.len(),
    ensures
        join_path(p.skip(i)) == p[i] + tail_path(p, i + 1),
    decreases p.len() - i,
{
    if i + 1 < p.len() {
        lemma_join_tail(p, i + 1);
        assert(p.skip(i)[0] == p[i]);
        assert(p.skip(i).skip(1) =~= p.skip(i + 1));
        assert(p[i] + tail_path(p, i + 1) =~= p[i] + (seq!['/'] + p[i + 1] + tail_path(p, i + 2)));
        assert(p[i] + seq!['/'] + join_path(p.skip(i + 1)) =~= p[i] + (seq!['/'] + (p[i + 1]
            + tail_path(p, i + 2))));
    } else {
        assert(p.skip(i).len() == 1);
        assert(p.skip(i)[0] == p[i]);
        assert(tail_path(p, i + 1) =~= Seq::<char>::empty());
        assert(p[i] + tail_path(p, i + 1) =~= p[i]);
    }
}


/// The compact, single-line, round-trippable string form of a filter.
pub fn spec_str(f: &Filter) -> (r: String)
    ensures
        r@ == render(f@),
    decreases *f,
{
    match f {
        Filter::Nop => ":nop".to_owned(),
        Filter::Empty => ":empty".to_owned(),
        Filter::Dirs => ":DIRS".to_owned(),
        Filter::Fold => ":FOLD".to_owned(),
        Filter::Squash => ":SQUASH".to_owned(),
        Filter::Subdir(p) => ":/".to_owned().concat(join_path_exec(p).as_str()),
        Filter::File(p) => "::".to_owned().concat(join_path_exec(p).as_str()),
        Filter::Prefix(p) => ":prefix=".to_owned().concat(join_path_exec(p).as_str()),
        Filter::Workspace(p) => ":workspace=".to_owned().concat(join_path_exec(p).as_str()),
        Filter::Glob(g) => "::".to_owned().concat(g.as_str()),
        Filter::Chain(a, b) => spec_str(a).concat(spec_str(b).as_str()),
        Filter::Subtract(a, b) => {
            let mut r = ":subtract[".to_owned();
            r.append(spec_str(a).as_str());
            r.append(",");
            r.append(spec_str(b).as_str());
            r.append("]");
            proof {
                assert(r@ =~= render(f@));
            }
            r
        },
        Filter::Compose(fs) => {
            let mut r = ":[".to_owned();
            let mut i: usize = 0;
            proof {
                broadcast use lemma_filters_view;

                lemma_filters_view(fs@);
            }
            let ghost fsv = filters_view(fs@);
            while i < fs.len()
                invariant
                    *f == Filter::Compose(*fs),
                    i <= fs@.len(),
                    fsv == filters_view(fs@),
                    fsv.len() == fs@.len(),
                    forall|k: int| 0 <= k < fs@.len() ==> fsv[k] == filter_view(#[trigger] fs@[k]),
                    r@ == ":["@ + render_list(fsv.take(i as int)),
                decreases fs@.len() - i,
            {
                proof {
                    assert(f->Compose_0 == *fs);
                    assert(decreases_to!(*f => *fs));
                    assert(decreases_to!(*fs => fs@));
                    assert(decreases_to!(fs@ => fs@[i as int]));
                }
                if i > 0 {
                    r.append(",");
                }
                let part = spec_str(&fs[i]);
                r.append(part.as_str());
                proof {
                    lemma_render_list_push(fsv.take(i as int), fsv[i as int]);
                    assert(fsv.take(i + 1) =~= fsv.take(i as int).push(fsv[i as int]));
                    if i > 0 {
                        assert(r@ =~= ":["@ + (render_list(fsv.take(i as int)) + ","@ + render(
                            fsv[i as int],
                        )));
                    } else {
                        assert(fsv.take(0).len() == 0);
                        assert(render_list(fsv.take(0)) =~= Seq::<char>::empty());
                        assert(r@ =~= ":["@ + render(fsv[0]));
                    }
                }
                i = i + 1;
            }
            r.append("]");
            proof {
                assert(fsv.take(fs@.len() as int) =~= fsv);
                assert(r@ =~= render(f@));
            }
            r
        },
    }
}


// ---------------------------------------------------------------------------
// The pretty, human-readable form
// ---------------------------------------------------------------------------

/// `n` spaces.
pub open spec fn spaces_v(n: nat) -> Seq<char>
    decreases n,
{
    if n == 0 {
        Seq::<char>::empty()
    } else {
        spaces_v((n - 1) as nat) + seq![' ']
    }
}

/// One member on one line: a subdirectory chained into the same prefix
/// prints in the `::dir/` shorthand, a chain ending in a prefix prints in
/// the `path = filter` assignment form, anything else prints as its spec
/// string.
pub open spec fn pretty_line_v(m: FilterV) -> Seq<char> {
    if m is Chain && *m->Chain_0 is Subdir && *m->Chain_1 is Prefix && (*m->Chain_0)->Subdir_0
        == (*m->Chain_1)->Prefix_0 {
        "::"@ + join_path((*m->Chain_0)->Subdir_0) + "/"@
    } else if m is Chain && *m->Chain_1 is Prefix {
        join_path((*m->Chain_1)->Prefix_0) + " = "@ + render(*m->Chain_0)
    } else {
        render(m)
    }
}

/// The pretty form: a compose group prints one member per line, indented;
/// anything else prints alone on an unindented line.  The filter is
/// printed as it stands, so the display forms above survive.
pub open spec fn pretty_v(f: FilterV, indent: nat) -> Seq<char> {
    match f {
        FilterV::Compose(fs) => pretty_lines_v(fs, indent, 0),
        _ => pretty_line_v(f),
    }
}

/// The members of a group, one per line.
pub open spec fn pretty_lines_v(fs: Seq<FilterV>, indent: nat, i: int) -> Seq<char>
    decreases fs.len() - i,
    when 0 <= i <= fs.len()
{
    if i >= fs.len() {
        Seq::<char>::empty()
    } else if i + 1 == fs.len() {
        spaces_v(indent) + pretty_line_v(fs[i])
    } else {
        spaces_v(indent) + pretty_line_v(fs[i]) + seq!['\n'] + pretty_lines_v(fs, indent, i + 1)
    }
}

fn spaces(n: usize) -> (r: String)
    ensures
        r@ == spaces_v(n as nat),
{
    let mut r = String::new();
    let mut i: usize = 0;
    while i < n
        invariant
            i <= n,
            r@ == spaces_v(i as nat),
        decreases n - i,
    {
        r.append(" ");
        proof {
            reveal_strlit(" ");
            assert(r@ =~= spaces_v(i as nat) + seq![' ']);
        }
        i = i + 1;
    }
    r
}

/// One member of a group, printed on a single line.
fn pretty_line(m: &Filter) -> (r: String)
    ensures
        r@ == pretty_line_v(m@),
{
    match m {
        Filter::Chain(a, b) => {
            proof {
                assert(m@ == FilterV::Chain(Box::new((**a)@), Box::new((**b)@)));
                lemma_filter_view_variants(**a);
                lemma_filter_view_variants(**b);
            }
            match (&**a, &**b) {
                (Filter::Subdir(p), Filter::Prefix(q)) => {
                    if path_eq(p, q) {
                        let r = "::".to_owned().concat(join_path_exec(p).as_str()).concat("/");
                        proof {
                            assert((**a)@ == FilterV::Subdir(p.deep_view()));
                            assert((**b)@ == FilterV::Prefix(q.deep_view()));
                            assert(r@ =~= pretty_line_v(m@));
                        }
                        return r;
                    }
                },
                _ => {},
            }
            if matches!(&**b, Filter::Prefix(_)) {
                let q: &Vec<String> = match &**b {
                    Filter::Prefix(q) => q,
                    _ => {
                        proof {
                            assert(false);
                        }
                        return String::new();
                    },
                };
                let mut r = join_path_exec(q);
                r.append(" = ");
                r.append(spec_str(a).as_str());
                proof {
                    assert((**b)@ == FilterV::Prefix(q.deep_view()));
                    assert(!(m@ is Chain && *m@->Chain_0 is Subdir && *m@->Chain_1 is Prefix
                        && (*m@->Chain_0)->Subdir_0 == (*m@->Chain_1)->Prefix_0)) by {
                        if (**a)@ is Subdir {
                            match &**a {
                                Filter::Subdir(p) => {
                                    assert((**a)@ == FilterV::Subdir(p.deep_view()));
                                },
                                _ => {},
                            }
                        }
                    }
                    assert(r@ =~= pretty_line_v(m@));
                }
                return r;
            }
            proof {
                assert(pretty_line_v(m@) == render(m@));
            }
            spec_str(m)
        },
        _ => {
            proof {
                lemma_filter_view_variants(*m);
                assert(pretty_line_v(m@) == render(m@));
            }
            spec_str(m)
        },
    }
}

/// Pretty print the filter: one member per line for a group, with the
/// given indentation; a single filter prints on one unindented line.
pub fn pretty(f: &Filter, indent: usize) -> (r: String)
    ensures
        r@ == pretty_v(f@, indent as nat),
{
    match f {
        Filter::Compose(fs) => {
            proof {
                broadcast use lemma_filters_view;

                lemma_filters_view(fs@);
            }
            let ghost fsv = filters_view(fs@);
            let mut r = String::new();
            let mut i: usize = 0;
            let n = fs.len();
            proof {
                assert(f@ == FilterV::Compose(fsv));
            }
            if n == 0 {
                proof {
                    assert(pretty_lines_v(fsv, indent as nat, 0) =~= Seq::<char>::empty());
                }
                return r;
            }
            loop
                invariant
                    *f == Filter::Compose(*fs),
                    f@ == FilterV::Compose(fsv),
                    i < n,
                    n == fs@.len(),
                    fsv == filters_view(fs@),
                    fsv.len() == n,
                    forall|k: int| 0 <= k < n ==> fsv[k] == filter_view(#[trigger] fs@[k]),
                    pretty_lines_v(fsv, indent as nat, 0) == r@ + pretty_lines_v(
                        fsv,
                        indent as nat,
                        i as int,
                    ),
                decreases n - i,
            {
                let sp = spaces(indent);
                r.append(sp.as_str());
                let part = pretty_line(&fs[i]);
                r.append(part.as_str());
                if i + 1 == n {
                    proof {
                        assert(pretty_lines_v(fsv, indent as nat, i as int) == spaces_v(
                            indent as nat,
                        ) + pretty_line_v(fsv[i as int]));
                        assert(pretty_lines_v(fsv, indent as nat, 0) =~= r@);
                    }
                    return r;
                }
                r.append("\n");
                proof {
                    reveal_strlit("\n");
                    assert("\n"@ =~= seq!['\n']);
                    assert(pretty_lines_v(fsv, indent as nat, i as int) == spaces_v(indent as nat)
                        + pretty_line_v(fsv[i as int]) + seq!['\n'] + pretty_lines_v(
                        fsv,
                        indent as nat,
                        i + 1,
                    ));
                }
                i = i + 1;
            }
        },
        _ => {
            let r = pretty_line(f);
            proof {
                crate::filter::lemma_filter_view_variants(*f);
                assert(!(f@ is Compose));
            }
            r
        },
    }
}


/// The view maps the identity operator, and only it, to the identity.
pub proof fn lemma_filter_view_nop(g: Filter)
    ensures
        (filter_view(g) is Nop) <==> (g is Nop),
{
    lemma_filter_view_variants(g);
}

/// The view preserves the operator of a filter.
pub proof fn lemma_filter_view_variants(g: Filter)
    ensures
        (filter_view(g) is Nop) <==> (g is Nop),
        (filter_view(g) is Empty) <==> (g is Empty),
        (filter_view(g) is Fold) <==> (g is Fold),
        (filter_view(g) is Squash) <==> (g is Squash),
        (filter_view(g) is Dirs) <==> (g is Dirs),
        (filter_view(g) is File) <==> (g is File),
        (filter_view(g) is Prefix) <==> (g is Prefix),
        (filter_view(g) is Subdir) <==> (g is Subdir),
        (filter_view(g) is Workspace) <==> (g is Workspace),
        (filter_view(g) is Glob) <==> (g is Glob),
        (filter_view(g) is Compose) <==> (g is Compose),
        (filter_view(g) is Chain) <==> (g is Chain),
        (filter_view(g) is Subtract) <==> (g is Subtract),
{
    match g {
        Filter::Nop => {},
        Filter::Empty => {},
        Filter::Fold => {},
        Filter::Squash => {},
        Filter::Dirs => {},
        Filter::File(_) => {},
        Filter::Prefix(_) => {},
        Filter::Subdir(_) => {},
        Filter::Workspace(_) => {},
        Filter::Glob(_) => {},
        Filter::Compose(_) => {},
        Filter::Chain(_, _) => {},
        Filter::Subtract(_, _) => {},
    }
}

} // verus!
