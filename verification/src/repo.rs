use vstd::prelude::*;
use crate::tree::{Tree, TreeV};

verus! {

// ===========================================================================
// The commit store.
//
// Commits live in an append-only store; an id is one more than the index
// of the commit, and the null id 0 stands for "no commit".  A commit's
// parents always have smaller ids, so ascending id order is a
// reverse-topological order.
// ===========================================================================

pub type Oid = u64;

pub struct Commit {
    pub tree: Tree,
    pub parents: Vec<Oid>,
    pub author: String,
    pub committer: String,
    pub message: String,
}

pub struct CommitV {
    pub tree: TreeV,
    pub parents: Seq<Oid>,
    pub author: Seq<char>,
    pub committer: Seq<char>,
    pub message: Seq<char>,
}

pub type RepoV = Seq<CommitV>;

pub open spec fn commit_view(c: Commit) -> CommitV {
    CommitV {
        tree: c.tree@,
        parents: c.parents@,
        author: c.author@,
        committer: c.committer@,
        message: c.message@,
    }
}

pub open spec fn commits_view(s: Seq<Commit>) -> RepoV
    decreases s,
{
    if s.len() == 0 {
        Seq::empty()
    } else {
        commits_view(s.drop_last()).push(commit_view(s.last()))
    }
}

pub broadcast proof fn lemma_commits_view(s: Seq<Commit>)
    ensures
        (#[trigger] commits_view(s)).len() == s.len(),
        forall|i: int| 0 <= i < s.len() ==> commits_view(s)[i] == commit_view(s[i]),
    decreases s,
{
    if s.len() > 0 {
        lemma_commits_view(s.drop_last());
    }
}

pub broadcast proof fn lemma_commits_view_push(s: Seq<Commit>, c: Commit)
    ensures
        #[trigger] commits_view(s.push(c)) == commits_view(s).push(commit_view(c)),
{
    assert(s.push(c).drop_last() =~= s);
}

pub struct Repo {
    pub commits: Vec<Commit>,
}

impl View for Repo {
    type V = RepoV;

    open spec fn view(&self) -> RepoV {
        commits_view(self.commits@)
    }
}

/// A valid id in `rv`, or the null id.
pub open spec fn valid_oid(rv: RepoV, id: Oid) -> bool {
    id <= rv.len()
}

/// A real commit id in `rv`.
pub open spec fn is_commit(rv: RepoV, id: Oid) -> bool {
    1 <= id <= rv.len()
}

/// Every parent of every commit is an earlier commit.
pub open spec fn wf_repo(rv: RepoV) -> bool {
    forall|i: int, j: int|
        0 <= i < rv.len() && 0 <= j < rv[i].parents.len() ==> 1 <= #[trigger] rv[i].parents[j]
            <= i
}

/// The commit a valid id denotes.
pub open spec fn commit_of(rv: RepoV, id: Oid) -> CommitV
    recommends
        is_commit(rv, id),
{
    rv[id - 1]
}

/// Whether `anc` is `id` or an ancestor of `id`.
pub open spec fn reachable(rv: RepoV, id: Oid, anc: Oid) -> bool
    decreases id,
    when wf_repo(rv) && is_commit(rv, id)
{
    id == anc || exists|j: int|
        0 <= j < commit_of(rv, id).parents.len() && reachable(
            rv,
            #[trigger] commit_of(rv, id).parents[j],
            anc,
        )
}

impl Repo {
    /// A store with no commits.
    pub fn new() -> (r: Repo)
        ensures
            r@ == Seq::<CommitV>::empty(),
    {
        let r = Repo { commits: Vec::new() };
        proof {
            assert(commits_view(r.commits@) =~= Seq::<CommitV>::empty());
        }
        r
    }

    /// The number of commits in the store; also the largest valid id.
    pub fn len(&self) -> (r: usize)
        ensures
            r == self@.len(),
    {
        proof {
            lemma_commits_view(self.commits@);
        }
        self.commits.len()
    }

    /// Whether `id` denotes a commit of the store.
    pub fn has_commit(&self, id: Oid) -> (r: bool)
        ensures
            r == is_commit(self@, id),
    {
        proof {
            lemma_commits_view(self.commits@);
        }
        1 <= id && id <= self.commits.len() as u64
    }

    /// The commit `id` denotes.
    pub fn commit_at(&self, id: Oid) -> (r: &Commit)
        requires
            is_commit(self@, id),
        ensures
            commit_view(*r) == commit_of(self@, id),
    {
        proof {
            lemma_commits_view(self.commits@);
        }
        let n = self.commits.len();
        proof {
            assert(self.commits@.len() == n);
        }
        let r = &self.commits[(id - 1) as usize];
        proof {
            assert(self@[id - 1] == commit_view(self.commits@[id - 1]));
        }
        r
    }

    /// Append a commit built from the given parts; its parents must be
    /// existing commits.
    pub fn new_commit(
        &mut self,
        tree: Tree,
        parents: Vec<Oid>,
        author: String,
        committer: String,
        message: String,
    ) -> (r: Oid)
        requires
            forall|j: int| 0 <= j < parents@.len() ==> is_commit(old(self)@, #[trigger] parents@[j]),
            old(self)@.len() + 1 <= u64::MAX,
        ensures
            r == old(self)@.len() + 1,
            final(self)@ == old(self)@.push(
                CommitV {
                    tree: tree@,
                    parents: parents@,
                    author: author@,
                    committer: committer@,
                    message: message@,
                },
            ),
            wf_repo(old(self)@) ==> wf_repo(final(self)@),
    {
        proof {
            lemma_commits_view(self.commits@);
        }
        let ghost prev = self.commits@;
        let c = Commit { tree, parents, author, committer, message };
        self.commits.push(c);
        proof {
            lemma_commits_view_push(prev, c);
            lemma_commits_view(prev);
            if wf_repo(old(self)@) {
                assert forall|i: int, j: int|
                    0 <= i < final(self)@.len() && 0 <= j < final(self)@[i].parents.len() implies 1
                    <= #[trigger] final(self)@[i].parents[j] <= i by {
                    if i < old(self)@.len() {
                        assert(final(self)@[i] == old(self)@[i]);
                    } else {
                        assert(final(self)@[i].parents[j] == parents@[j]);
                    }
                }
            }
        }
        (self.commits.len()) as u64
    }
}

/// The commits of `ids` have a common ancestor; corresponds to the
/// existence of a merge base.
pub open spec fn have_common_ancestor(rv: RepoV, ids: Seq<Oid>) -> bool {
    exists|k: Oid|
        is_commit(rv, k) && forall|j: int|
            0 <= j < ids.len() ==> reachable(rv, #[trigger] ids[j], k)
}

/// The set of ancestors of `id` (including `id`), as a mark table
/// indexed by id.
pub(crate) fn ancestors(repo: &Repo, id: Oid) -> (r: Vec<bool>)
    requires
        wf_repo(repo@),
        is_commit(repo@, id),
        repo@.len() + 1 <= usize::MAX,
    ensures
        r@.len() == repo@.len() + 1,
        forall|k: Oid| 1 <= k <= repo@.len() ==> (r@[k as int] == reachable(repo@, id, k)),
        r@[0] == false,
{
    let n = repo.len();
    let mut marks: Vec<bool> = Vec::new();
    let mut z: usize = 0;
    while z <= n
        invariant
            z <= n + 1,
            n == repo@.len(),
            n + 1 <= usize::MAX,
            marks@.len() == z,
            forall|k: int| 0 <= k < z ==> marks@[k] == false,
        decreases n + 1 - z,
    {
        marks.push(false);
        z = z + 1;
    }
    let idu = id as usize;
    proof {
        assert(idu == id);
    }
    marks.set(idu, true);
    proof {
        assert(marks@[id as int]);
        assert forall|k: Oid| 1 <= k <= repo@.len() && marks@[k as int] implies reachable(
            repo@,
            id,
            k,
        ) by {
            assert(k == id);
        }
    }
    let mut i: usize = idu;
    while i >= 1
        invariant
            wf_repo(repo@),
            is_commit(repo@, id),
            repo@.len() + 1 <= usize::MAX,
            0 <= i <= id,
            id <= repo@.len(),
            n == repo@.len(),
            marks@.len() == repo@.len() + 1,
            marks@[0] == false,
            forall|k: Oid| 1 <= k <= repo@.len() && marks@[k as int] ==> reachable(repo@, id, k),
            marks@[id as int],
            forall|a: Oid, j: int|
                i < a <= repo@.len() && marks@[a as int] && 0 <= j < commit_of(
                    repo@,
                    a,
                ).parents.len() ==> marks@[#[trigger] commit_of(repo@, a).parents[j] as int],
        decreases i,
    {
        if marks[i] {
            let c = repo.commit_at(i as u64);
            let np = c.parents.len();
            let mut j: usize = 0;
            while j < np
                invariant
                    wf_repo(repo@),
                    is_commit(repo@, id),
                    is_commit(repo@, i as Oid),
                    repo@.len() + 1 <= usize::MAX,
                    1 <= i <= id,
                    id <= repo@.len(),
                    n == repo@.len(),
                    commit_view(*c) == commit_of(repo@, i as Oid),
                    np == c.parents@.len(),
                    j <= np,
                    marks@.len() == repo@.len() + 1,
                    marks@[0] == false,
                    marks@[id as int],
                    marks@[i as int],
                    forall|k: Oid|
                        1 <= k <= repo@.len() && marks@[k as int] ==> reachable(repo@, id, k),
                    forall|jj: int|
                        0 <= jj < j ==> marks@[#[trigger] commit_of(repo@, i as Oid).parents[jj] as int],
                    forall|a: Oid, jj: int|
                        i < a <= repo@.len() && marks@[a as int] && 0 <= jj < commit_of(
                            repo@,
                            a,
                        ).parents.len() ==> marks@[#[trigger] commit_of(repo@, a).parents[jj] as int],
                decreases np - j,
            {
                let p = c.parents[j];
                proof {
                    assert(commit_of(repo@, i as Oid).parents[j as int] == p);
                    assert(1 <= p < i);
                    assert(reachable(repo@, id, i as Oid));
                    assert(reachable(repo@, i as Oid, p)) by {
                        assert(reachable(repo@, p, p));
                    }
                    lemma_reachable_trans(repo@, id, i as Oid, p);
                }
                let pu = p as usize;
                proof {
                    assert(pu == p);
                }
                marks.set(pu, true);
                j = j + 1;
            }
        }
        i = i - 1;
    }
    proof {
        assert forall|k: Oid| 1 <= k <= repo@.len() && reachable(repo@, id, k) implies marks@[k as int]
            by {
            lemma_reachable_marked(repo@, marks@, id, k);
        }
    }
    marks
}

/// Transitivity of ancestry.
pub proof fn lemma_reachable_trans(rv: RepoV, a: Oid, b: Oid, c: Oid)
    requires
        wf_repo(rv),
        is_commit(rv, a),
        is_commit(rv, b),
        reachable(rv, a, b),
        reachable(rv, b, c),
    ensures
        reachable(rv, a, c),
    decreases a,
{
    if a == b {
    } else {
        let j = choose|j: int|
            0 <= j < commit_of(rv, a).parents.len() && reachable(
                rv,
                #[trigger] commit_of(rv, a).parents[j],
                b,
            );
        lemma_reachable_trans(rv, commit_of(rv, a).parents[j], b, c);
    }
}

/// An ancestor's id never exceeds the descendant's: parents point
/// strictly backwards.
pub proof fn lemma_reachable_le(rv: RepoV, id: Oid, anc: Oid)
    requires
        wf_repo(rv),
        is_commit(rv, id),
        reachable(rv, id, anc),
    ensures
        anc <= id,
    decreases id,
{
    if id != anc {
        let j = choose|j: int|
            0 <= j < commit_of(rv, id).parents.len() && reachable(
                rv,
                #[trigger] commit_of(rv, id).parents[j],
                anc,
            );
        lemma_reachable_le(rv, commit_of(rv, id).parents[j], anc);
    }
}

/// A commit's record does not change when the store grows.
pub proof fn lemma_commit_stable(a: RepoV, b: RepoV, id: Oid)
    requires
        a.is_prefix_of(b),
        is_commit(a, id),
    ensures
        commit_of(b, id) == commit_of(a, id),
{
    assert(b[id - 1] == a.subrange(0, a.len() as int)[id - 1]);
}

/// A set containing `id` and closed under parents contains every
/// ancestor of `id`.
pub proof fn lemma_reachable_marked(rv: RepoV, marks: Seq<bool>, id: Oid, k: Oid)
    requires
        wf_repo(rv),
        is_commit(rv, id),
        marks.len() == rv.len() + 1,
        marks[id as int],
        forall|a: Oid, j: int|
            1 <= a <= rv.len() && marks[a as int] && 0 <= j < commit_of(rv, a).parents.len()
                ==> marks[#[trigger] commit_of(rv, a).parents[j] as int],
        reachable(rv, id, k),
        is_commit(rv, k),
    ensures
        marks[k as int],
    decreases id,
{
    if id == k {
    } else {
        let j = choose|j: int|
            0 <= j < commit_of(rv, id).parents.len() && reachable(
                rv,
                #[trigger] commit_of(rv, id).parents[j],
                k,
            );
        lemma_reachable_marked(rv, marks, commit_of(rv, id).parents[j], k);
    }
}

/// The first `k` positions (from 1) intersected, the rest unchanged.
pub open spec fn marks_meet(o: Seq<bool>, a: Seq<bool>, k: int) -> Seq<bool> {
    Seq::new(o.len(), |m: int| if 1 <= m < k { o[m] && a[m] } else { o[m] })
}

/// Keep only the marks set on both sides; index 0 is left alone.
fn intersect_marks(common: &mut Vec<bool>, a: &Vec<bool>)
    requires
        old(common)@.len() == a@.len(),
        old(common)@.len() >= 1,
    ensures
        final(common)@ == marks_meet(old(common)@, a@, a@.len() as int),
{
    let n = a.len();
    let mut k: usize = 1;
    proof {
        assert(common@ =~= marks_meet(old(common)@, a@, 1));
    }
    while k < n
        invariant
            1 <= k <= n,
            n == a@.len(),
            old(common)@.len() == n,
            common@ == marks_meet(old(common)@, a@, k as int),
        decreases n - k,
    {
        proof {
            assert(common@.len() == n);
        }
        let both = common[k] && a[k];
        common.set(k, both);
        proof {
            assert(common@ =~= marks_meet(old(common)@, a@, k + 1));
        }
        k = k + 1;
    }
    proof {
        assert(common@ =~= marks_meet(old(common)@, a@, n as int));
    }
}

/// The ancestor marks of `id`, indexed by id: entry `k` says whether `k`
/// is `id` or one of its ancestors.
pub fn ancestors_pub(repo: &Repo, id: Oid) -> (r: Vec<bool>)
    requires
        wf_repo(repo@),
        is_commit(repo@, id),
        repo@.len() + 1 <= usize::MAX,
    ensures
        r@.len() == repo@.len() + 1,
        forall|k: Oid| 1 <= k <= repo@.len() ==> (r@[k as int] == reachable(repo@, id, k)),
        r@[0] == false,
{
    ancestors(repo, id)
}

/// Whether the given commits share an ancestor.
pub fn common_ancestor_exists(repo: &Repo, ids: &Vec<Oid>) -> (r: bool)
    requires
        wf_repo(repo@),
        forall|j: int| 0 <= j < ids@.len() ==> is_commit(repo@, #[trigger] ids@[j]),
        ids@.len() > 0,
        repo@.len() + 1 <= usize::MAX,
    ensures
        r == have_common_ancestor(repo@, ids@),
{
    let n = repo.len();
    let mut common: Vec<bool> = ancestors(repo, ids[0]);
    let mut i: usize = 1;
    proof {
        assert(forall|k: Oid|
            1 <= k <= repo@.len() ==> (common@[k as int] == forall|j: int|
                0 <= j < 1 ==> reachable(repo@, #[trigger] ids@[j], k)));
    }
    while i < ids.len()
        invariant
            wf_repo(repo@),
            n == repo@.len(),
            n + 1 <= usize::MAX,
            forall|j: int| 0 <= j < ids@.len() ==> is_commit(repo@, #[trigger] ids@[j]),
            1 <= i <= ids@.len(),
            common@.len() == n + 1,
            common@[0] == false,
            forall|k: Oid|
                1 <= k <= repo@.len() ==> (common@[k as int] == forall|j: int|
                    0 <= j < i ==> reachable(repo@, #[trigger] ids@[j], k)),
        decreases ids@.len() - i,
    {
        let a = ancestors(repo, ids[i]);
        let ghost prevc = common@;
        intersect_marks(&mut common, &a);
        proof {
            assert(common@.len() == n + 1);
            assert(common@[0] == prevc[0]);
            assert(forall|m: int| 1 <= m <= n ==> common@[m] == (prevc[m] && #[trigger] a@[m]));
        }
        i = i + 1;
    }
    let mut k: usize = 1;
    while k <= n
        invariant
            wf_repo(repo@),
            n == repo@.len(),
            n + 1 <= usize::MAX,
            1 <= k <= n + 1,
            common@.len() == n + 1,
            forall|m: Oid|
                1 <= m <= repo@.len() ==> (common@[m as int] == forall|j: int|
                    0 <= j < ids@.len() ==> reachable(repo@, #[trigger] ids@[j], m)),
            forall|m: Oid| 1 <= m < k ==> !common@[m as int],
        decreases n + 1 - k,
    {
        if common[k] {
            proof {
                assert(is_commit(repo@, k as Oid));
                assert(forall|j: int|
                    0 <= j < ids@.len() ==> reachable(repo@, #[trigger] ids@[j], k as Oid));
            }
            return true;
        }
        k = k + 1;
    }
    proof {
        if have_common_ancestor(repo@, ids@) {
            let w = choose|w: Oid|
                is_commit(repo@, w) && forall|j: int|
                    0 <= j < ids@.len() ==> reachable(repo@, #[trigger] ids@[j], w);
            assert(!common@[w as int]);
            assert(false);
        }
    }
    false
}

} // verus!
