use vstd::prelude::*;
use crate::repo::{Repo, RepoV, Oid, CommitV, commit_view, commit_of, is_commit, valid_oid,
    wf_repo, reachable, have_common_ancestor, common_ancestor_exists, lemma_commit_stable,
    lemma_reachable_marked};

use crate::tree::{Tree, TreeV, EntryV, empty, clone_tree, tree_eq, lemma_entries_view,
    overlay_v, subtract_v, get_blob_v};
use crate::cache::Transaction;
use crate::filter::{Filter, FilterV, render, spec_str, clone_filter};
use crate::opt::{optimize, opt_v};
use crate::apply::{apply, unapply, apply_v, unapply_v, ws_parse_bytes, WS_FUEL};
use crate::{JoshError, JoshResult, UnapplyFilter};

verus! {

// ===========================================================================
// Lifting tree filters to commits and histories.
//
// Commits are filtered in reverse-topological order; results are memoised
// in a transaction under the spec string of the normalised filter.  The
// recursion spine is bounded by an explicit budget; the public entry
// points hand over a budget ample for any ordinary filter and history.
// ===========================================================================

/// The recursion budget the public entry points use.
pub const WALK_FUEL: usize = 4096;

// ---------------------------------------------------------------------------
// Rewriting one commit
// ---------------------------------------------------------------------------

/// Equality of id lists.
pub fn oids_eq(a: &Vec<Oid>, b: &Vec<Oid>) -> (r: bool)
    ensures
        r == (a@ == b@),
{
    if a.len() != b.len() {
        proof {
            assert(a@.len() != b@.len());
        }
        return false;
    }
    let mut i: usize = 0;
    while i < a.len()
        invariant
            i <= a@.len(),
            a@.len() == b@.len(),
            forall|k: int| 0 <= k < i ==> a@[k] == b@[k],
        decreases a@.len() - i,
    {
        if a[i] != b[i] {
            return false;
        }
        i = i + 1;
    }
    proof {
        assert(a@ =~= b@);
    }
    true
}

/// A copy of an id list.
pub fn oids_clone(a: &Vec<Oid>) -> (r: Vec<Oid>)
    ensures
        r@ == a@,
{
    let mut r: Vec<Oid> = Vec::new();
    let mut i: usize = 0;
    while i < a.len()
        invariant
            i <= a@.len(),
            r@ == a@.take(i as int),
        decreases a@.len() - i,
    {
        r.push(a[i]);
        proof {
            assert(a@.take(i + 1) =~= a@.take(i as int).push(a@[i as int]));
        }
        i = i + 1;
    }
    proof {
        assert(a@.take(a@.len() as int) =~= a@);
    }
    r
}

/// What rewriting `base` to carry `parents` and `tree` yields: the commit
/// itself when nothing changes (so a signed commit keeps its identity),
/// else a fresh commit with the same author, committer and message.
pub open spec fn rewrite_v(rv: RepoV, base: Oid, parents: Seq<Oid>, tree: TreeV) -> (Oid, RepoV) {
    let c = commit_of(rv, base);
    if c.tree == tree && c.parents == parents {
        (base, rv)
    } else {
        (
            (rv.len() + 1) as Oid,
            rv.push(
                CommitV {
                    tree: tree,
                    parents: parents,
                    author: c.author,
                    committer: c.committer,
                    message: c.message,
                },
            ),
        )
    }
}

/// Rewrite `base` to carry the given parents and tree; everything else is
/// kept.  When nothing changes the commit is returned unchanged, which
/// preserves signed commits.
pub fn rewrite_commit(repo: &mut Repo, base: Oid, parents: &Vec<Oid>, tree: &Tree) -> (r:
    JoshResult<Oid>)
    requires
        wf_repo(old(repo)@),
        is_commit(old(repo)@, base),
        forall|j: int| 0 <= j < parents@.len() ==> is_commit(old(repo)@, #[trigger] parents@[j]),
        old(repo)@.len() + 1 <= u64::MAX,
    ensures
        wf_repo(final(repo)@),
        r matches Ok(id) && (id, final(repo)@) == rewrite_v(old(repo)@, base, parents@, tree@),
        old(repo)@.is_prefix_of(final(repo)@),
{
    let same = {
        let c = repo.commit_at(base);
        tree_eq(&c.tree, tree) && oids_eq(&c.parents, parents)
    };
    if same {
        proof {
            assert(old(repo)@.is_prefix_of(final(repo)@)) by {
                assert(final(repo)@.take(old(repo)@.len() as int) =~= old(repo)@);
            }
        }
        return Ok(base);
    }
    let (author, committer, message) = {
        let c = repo.commit_at(base);
        (c.author.clone(), c.committer.clone(), c.message.clone())
    };
    let id = repo.new_commit(clone_tree(tree), oids_clone(parents), author, committer, message);
    proof {
        assert(old(repo)@.is_prefix_of(final(repo)@)) by {
            assert(final(repo)@.take(old(repo)@.len() as int) =~= old(repo)@);
        }
    }
    Ok(id)
}

// ---------------------------------------------------------------------------
// Parent selection
// ---------------------------------------------------------------------------

/// Whether some filtered parent's tree differs from the filtered tree.
pub open spec fn affects_filtered(rv: RepoV, ftree: TreeV, fparents: Seq<Oid>) -> bool {
    exists|j: int| 0 <= j < fparents.len() && commit_of(rv, #[trigger] fparents[j]).tree != ftree
}

/// Whether every original parent carries the original's own tree.
pub open spec fn all_diffs_empty(rv: RepoV, c: Oid) -> bool {
    forall|j: int|
        0 <= j < commit_of(rv, c).parents.len() ==> commit_of(
            rv,
            #[trigger] commit_of(rv, c).parents[j],
        ).tree == commit_of(rv, c).tree
}

/// The filtered parents a rewritten commit keeps: all of them when the
/// commit affects the filter or is itself an empty change, none otherwise
/// (the commit then collapses into its predecessor).
pub open spec fn select_parents_v(rv: RepoV, c: Oid, ftree: TreeV, fparents: Seq<Oid>) -> Seq<
    Oid,
> {
    if affects_filtered(rv, ftree, fparents) || all_diffs_empty(rv, c) {
        fparents
    } else {
        Seq::<Oid>::empty()
    }
}

pub fn select_parent_commits(repo: &Repo, c: Oid, ftree: &Tree, fparents: &Vec<Oid>) -> (r: Vec<
    Oid,
>)
    requires
        wf_repo(repo@),
        is_commit(repo@, c),
        forall|j: int| 0 <= j < fparents@.len() ==> is_commit(repo@, #[trigger] fparents@[j]),
    ensures
        r@ == select_parents_v(repo@, c, ftree@, fparents@),
{
    let mut affects = false;
    let mut j: usize = 0;
    while j < fparents.len()
        invariant
            wf_repo(repo@),
            j <= fparents@.len(),
            forall|k: int| 0 <= k < fparents@.len() ==> is_commit(repo@, #[trigger] fparents@[k]),
            affects == exists|k: int|
                0 <= k < j && commit_of(repo@, #[trigger] fparents@[k]).tree != ftree@,
        decreases fparents@.len() - j,
    {
        let p = repo.commit_at(fparents[j]);
        if !tree_eq(&p.tree, ftree) {
            proof {
                assert(commit_of(repo@, fparents@[j as int]).tree != ftree@);
            }
            affects = true;
        }
        j = j + 1;
    }
    let mut empty_diffs = true;
    let np = repo.commit_at(c).parents.len();
    let mut k: usize = 0;
    while k < np
        invariant
            wf_repo(repo@),
            is_commit(repo@, c),
            k <= np,
            np == commit_of(repo@, c).parents.len(),
            empty_diffs == forall|m: int|
                0 <= m < k ==> commit_of(repo@, #[trigger] commit_of(repo@, c).parents[m]).tree
                    == commit_of(repo@, c).tree,
        decreases np - k,
    {
        let pid = repo.commit_at(c).parents[k];
        let ptree_same = {
            let cc = repo.commit_at(c);
            let pc = repo.commit_at(pid);
            tree_eq(&pc.tree, &cc.tree)
        };
        if !ptree_same {
            proof {
                assert(commit_of(repo@, commit_of(repo@, c).parents[k as int]).tree != commit_of(
                    repo@,
                    c,
                ).tree);
            }
            empty_diffs = false;
        }
        k = k + 1;
    }
    if affects || empty_diffs {
        oids_clone(fparents)
    } else {
        Vec::new()
    }
}

// ---------------------------------------------------------------------------
// Creating one filtered commit
// ---------------------------------------------------------------------------

/// The ids of `s[i..]` that are real commits (the null id dropped).
pub open spec fn nonzero_from(s: Seq<Oid>, i: int) -> Seq<Oid>
    decreases s.len() - i,
    when 0 <= i <= s.len()
{
    if i >= s.len() {
        Seq::<Oid>::empty()
    } else if s[i] == 0 {
        nonzero_from(s, i + 1)
    } else {
        seq![s[i]] + nonzero_from(s, i + 1)
    }
}

/// The ids of `s[i..]` whose commit's tree is nonempty.
pub open spec fn nonempty_tree_from(rv: RepoV, s: Seq<Oid>, i: int) -> Seq<Oid>
    decreases s.len() - i,
    when 0 <= i <= s.len()
{
    if i >= s.len() {
        Seq::<Oid>::empty()
    } else if commit_of(rv, s[i]).tree.len() == 0 {
        nonempty_tree_from(rv, s, i + 1)
    } else {
        seq![s[i]] + nonempty_tree_from(rv, s, i + 1)
    }
}

/// What creating the filtered counterpart of `c` yields, given the
/// filtered parents and the filtered tree:
/// - null parents are dropped;
/// - parents of a merge without a merge base lose their empty-tree
///   members, so a synthetic orphan branch does not travel along;
/// - a commit that does not affect the filter collapses into its first
///   surviving parent, or vanishes entirely when there is none;
/// - otherwise the commit is rewritten, keeping its identity when
///   nothing changed.
pub open spec fn cfc_v(rv: RepoV, c: Oid, fparents: Seq<Oid>, ftree: TreeV) -> (Oid, RepoV) {
    let nz = nonzero_from(fparents, 0);
    let initial_merge = nz.len() > 1 && !have_common_ancestor(rv, nz);
    let kept = if initial_merge {
        nonempty_tree_from(rv, nz, 0)
    } else {
        nz
    };
    let selected = select_parents_v(rv, c, ftree, kept);
    if selected.len() == 0 && !(commit_of(rv, c).parents.len() == 0 && commit_of(rv, c).tree.len()
        == 0) {
        if kept.len() > 0 {
            (kept[0], rv)
        } else if ftree.len() == 0 {
            (0, rv)
        } else {
            rewrite_v(rv, c, selected, ftree)
        }
    } else {
        rewrite_v(rv, c, selected, ftree)
    }
}

fn filter_nonzero(ids: &Vec<Oid>) -> (r: Vec<Oid>)
    ensures
        r@ == nonzero_from(ids@, 0),
{
    let mut r: Vec<Oid> = Vec::new();
    let mut i: usize = 0;
    proof {
        assert(r@ + nonzero_from(ids@, 0) =~= nonzero_from(ids@, 0));
    }
    while i < ids.len()
        invariant
            i <= ids@.len(),
            r@ + nonzero_from(ids@, i as int) == nonzero_from(ids@, 0),
        decreases ids@.len() - i,
    {
        let ghost prev = r@;
        if ids[i] != 0 {
            r.push(ids[i]);
            proof {
                assert(prev + nonzero_from(ids@, i as int) =~= r@ + nonzero_from(ids@, i + 1));
            }
        } else {
            proof {
                assert(nonzero_from(ids@, i as int) == nonzero_from(ids@, i + 1));
            }
        }
        i = i + 1;
    }
    proof {
        assert(nonzero_from(ids@, ids@.len() as int) =~= Seq::<Oid>::empty());
        assert(r@ =~= nonzero_from(ids@, 0));
    }
    r
}

fn filter_nonempty_tree(repo: &Repo, ids: &Vec<Oid>) -> (r: Vec<Oid>)
    requires
        wf_repo(repo@),
        forall|j: int| 0 <= j < ids@.len() ==> is_commit(repo@, #[trigger] ids@[j]),
    ensures
        r@ == nonempty_tree_from(repo@, ids@, 0),
{
    let mut r: Vec<Oid> = Vec::new();
    let mut i: usize = 0;
    proof {
        assert(r@ + nonempty_tree_from(repo@, ids@, 0) =~= nonempty_tree_from(repo@, ids@, 0));
    }
    while i < ids.len()
        invariant
            wf_repo(repo@),
            forall|j: int| 0 <= j < ids@.len() ==> is_commit(repo@, #[trigger] ids@[j]),
            i <= ids@.len(),
            r@ + nonempty_tree_from(repo@, ids@, i as int) == nonempty_tree_from(repo@, ids@, 0),
        decreases ids@.len() - i,
    {
        let ghost prev = r@;
        let keep = {
            let c = repo.commit_at(ids[i]);
            proof {
                lemma_entries_view(c.tree.entries@);
            }
            c.tree.entries.len() > 0
        };
        if keep {
            r.push(ids[i]);
            proof {
                assert(commit_of(repo@, ids@[i as int]).tree.len() != 0);
                assert(prev + nonempty_tree_from(repo@, ids@, i as int) =~= r@
                    + nonempty_tree_from(repo@, ids@, i + 1));
            }
        } else {
            proof {
                assert(commit_of(repo@, ids@[i as int]).tree.len() == 0);
                assert(nonempty_tree_from(repo@, ids@, i as int) == nonempty_tree_from(
                    repo@,
                    ids@,
                    i + 1,
                ));
            }
        }
        i = i + 1;
    }
    proof {
        assert(nonempty_tree_from(repo@, ids@, ids@.len() as int) =~= Seq::<Oid>::empty());
        assert(r@ =~= nonempty_tree_from(repo@, ids@, 0));
    }
    r
}

proof fn lemma_nonzero_valid(rv: RepoV, s: Seq<Oid>, i: int)
    requires
        0 <= i <= s.len(),
        forall|j: int| 0 <= j < s.len() ==> valid_oid(rv, #[trigger] s[j]),
    ensures
        forall|j: int|
            0 <= j < nonzero_from(s, i).len() ==> is_commit(rv, #[trigger] nonzero_from(s, i)[j]),
    decreases s.len() - i,
{
    if i < s.len() {
        lemma_nonzero_valid(rv, s, i + 1);
        assert forall|j: int| 0 <= j < nonzero_from(s, i).len() implies is_commit(
            rv,
            #[trigger] nonzero_from(s, i)[j],
        ) by {
            if s[i] != 0 {
                if j == 0 {
                    assert(nonzero_from(s, i)[0] == s[i]);
                    assert(valid_oid(rv, s[i]));
                } else {
                    assert(nonzero_from(s, i)[j] == nonzero_from(s, i + 1)[j - 1]);
                }
            } else {
                assert(nonzero_from(s, i)[j] == nonzero_from(s, i + 1)[j]);
            }
        }
    }
}

proof fn lemma_nonempty_valid(rv: RepoV, s: Seq<Oid>, i: int)
    requires
        0 <= i <= s.len(),
        forall|j: int| 0 <= j < s.len() ==> is_commit(rv, #[trigger] s[j]),
    ensures
        forall|j: int|
            0 <= j < nonempty_tree_from(rv, s, i).len() ==> is_commit(
                rv,
                #[trigger] nonempty_tree_from(rv, s, i)[j],
            ),
    decreases s.len() - i,
{
    if i < s.len() {
        lemma_nonempty_valid(rv, s, i + 1);
        assert forall|j: int| 0 <= j < nonempty_tree_from(rv, s, i).len() implies is_commit(
            rv,
            #[trigger] nonempty_tree_from(rv, s, i)[j],
        ) by {
            if commit_of(rv, s[i]).tree.len() != 0 {
                if j == 0 {
                    assert(nonempty_tree_from(rv, s, i)[0] == s[i]);
                } else {
                    assert(nonempty_tree_from(rv, s, i)[j] == nonempty_tree_from(
                        rv,
                        s,
                        i + 1,
                    )[j - 1]);
                }
            } else {
                assert(nonempty_tree_from(rv, s, i)[j] == nonempty_tree_from(rv, s, i + 1)[j]);
            }
        }
    }
}

/// Create the filtered counterpart of `c` and record it in the
/// transaction under the filter's spec string.
pub fn create_filtered_commit(
    repo: &mut Repo,
    tx: &mut Transaction,
    c: Oid,
    filtered_parent_ids: &Vec<Oid>,
    filtered_tree: &Tree,
    spec_string: &str,
) -> (r: JoshResult<Oid>)
    requires
        wf_repo(old(repo)@),
        is_commit(old(repo)@, c),
        forall|j: int|
            0 <= j < filtered_parent_ids@.len() ==> valid_oid(
                old(repo)@,
                #[trigger] filtered_parent_ids@[j],
            ),
        old(repo)@.len() + 2 <= usize::MAX,
        old(tx).wf(),
    ensures
        wf_repo(final(repo)@),
        final(tx).wf(),
        old(repo)@.is_prefix_of(final(repo)@),
        r matches Ok(id) && {
            let (sid, srv) = cfc_v(old(repo)@, c, filtered_parent_ids@, filtered_tree@);
            id == sid && final(repo)@ == srv && valid_oid(final(repo)@, id) && final(tx)@ == old(
                tx,
            )@.insert((spec_string@, c), id)
        },
        final(tx).spec_walks() == old(tx).spec_walks(),
{
    let nz = filter_nonzero(filtered_parent_ids);
    proof {
        lemma_nonzero_valid(repo@, filtered_parent_ids@, 0);
    }
    let initial_merge = if nz.len() > 1 {
        !common_ancestor_exists(repo, &nz)
    } else {
        false
    };
    let kept = if initial_merge {
        filter_nonempty_tree(repo, &nz)
    } else {
        nz
    };
    proof {
        lemma_nonempty_valid(repo@, nonzero_from(filtered_parent_ids@, 0), 0);
    }
    let selected = select_parent_commits(repo, c, filtered_tree, &kept);
    let (cp_len, ct_empty) = {
        let cc = repo.commit_at(c);
        proof {
            lemma_entries_view(cc.tree.entries@);
        }
        (cc.parents.len(), cc.tree.entries.len() == 0)
    };
    let id: Oid = if selected.len() == 0 && !(cp_len == 0 && ct_empty) {
        if kept.len() > 0 {
            kept[0]
        } else {
            proof {
                lemma_entries_view(filtered_tree.entries@);
            }
            if filtered_tree.entries.len() == 0 {
                0
            } else {
                match rewrite_commit(repo, c, &selected, filtered_tree) {
                    Ok(x) => x,
                    Err(e) => {
                        return Err(e);
                    },
                }
            }
        }
    } else {
        match rewrite_commit(repo, c, &selected, filtered_tree) {
            Ok(x) => x,
            Err(e) => {
                return Err(e);
            },
        }
    };
    tx.insert(spec_string, c, id, true);
    proof {
        assert(final(repo)@.take(old(repo)@.len() as int) =~= old(repo)@);
    }
    Ok(id)
}


// ---------------------------------------------------------------------------
// Traversal
// ---------------------------------------------------------------------------

pub proof fn lemma_prefix_trans(a: RepoV, b: RepoV, c: RepoV)
    requires
        a.is_prefix_of(b),
        b.is_prefix_of(c),
    ensures
        a.is_prefix_of(c),
{
    assert(a =~= c.subrange(0, a.len() as int));
}

/// A commit stays a commit when the store grows.
pub proof fn lemma_is_commit_grow(a: RepoV, b: RepoV, id: Oid)
    requires
        a.is_prefix_of(b),
        is_commit(a, id),
    ensures
        is_commit(b, id),
{
}

/// The buffered entries of a transaction, as a map.
pub type CacheV = Map<(Seq<char>, Oid), Oid>;

/// A usable cache entry: present, and its object (when not the null id)
/// still in the store.
pub open spec fn cached_valid(rv: RepoV, cv: CacheV, key: Seq<char>, id: Oid) -> bool {
    cv.contains_key((key, id)) && (cv[(key, id)] == 0 || is_commit(rv, cv[(key, id)]))
}

/// Whether `id` is reachable from a member of `hs`.
pub open spec fn hidden_by_list(rv: RepoV, hs: Seq<Oid>, id: Oid) -> bool {
    exists|j: int| 0 <= j < hs.len() && reachable(rv, #[trigger] hs[j], id)
}

/// The ancestors of `input` from id `i` up, ascending, that no member of
/// `hs` reaches.
pub open spec fn visible_list_v(rv: RepoV, hs: Seq<Oid>, input: Oid, i: int) -> Seq<Oid>
    decreases rv.len() + 1 - i,
    when 1 <= i <= rv.len() + 1
{
    if i > rv.len() {
        Seq::<Oid>::empty()
    } else {
        let rest = visible_list_v(rv, hs, input, i + 1);
        if reachable(rv, input, i as Oid) && !hidden_by_list(rv, hs, i as Oid) {
            seq![i as Oid] + rest
        } else {
            rest
        }
    }
}

/// The ancestors of `input` from id `i` up, ascending, that hold a usable
/// cache entry under `key`.
pub open spec fn known_v(rv: RepoV, cv: CacheV, key: Seq<char>, input: Oid, i: int) -> Seq<Oid>
    decreases rv.len() + 1 - i,
    when 1 <= i <= rv.len() + 1
{
    if i > rv.len() {
        Seq::<Oid>::empty()
    } else {
        let rest = known_v(rv, cv, key, input, i + 1);
        if reachable(rv, input, i as Oid) && cached_valid(rv, cv, key, i as Oid) {
            seq![i as Oid] + rest
        } else {
            rest
        }
    }
}

/// Whether `id` is hidden behind some cached ancestor of `input`.
pub open spec fn hidden_by_known(rv: RepoV, cv: CacheV, key: Seq<char>, input: Oid, id: Oid) -> bool {
    exists|k: Oid|
        is_commit(rv, k) && reachable(rv, input, k) && cached_valid(rv, cv, key, k) && reachable(
            rv,
            k,
            id,
        )
}

/// The commits a walk of `input` still visits, ascending from id `i`: the
/// ancestors not hidden behind a cached one.
pub open spec fn visible_v(rv: RepoV, cv: CacheV, key: Seq<char>, input: Oid, i: int) -> Seq<Oid>
    decreases rv.len() + 1 - i,
    when 1 <= i <= rv.len() + 1
{
    if i > rv.len() {
        Seq::<Oid>::empty()
    } else {
        let rest = visible_v(rv, cv, key, input, i + 1);
        if reachable(rv, input, i as Oid) && !hidden_by_known(rv, cv, key, input, i as Oid) {
            seq![i as Oid] + rest
        } else {
            rest
        }
    }
}

/// Membership in the known list is being a cached ancestor.
proof fn lemma_known_member(rv: RepoV, cv: CacheV, key: Seq<char>, input: Oid, i: int, x: Oid)
    requires
        1 <= i <= rv.len() + 1,
        rv.len() < u64::MAX,
    ensures
        (exists|j: int|
            0 <= j < known_v(rv, cv, key, input, i).len() && known_v(rv, cv, key, input, i)[j]
                == x) <==> (i <= x <= rv.len() && reachable(rv, input, x) && cached_valid(
            rv,
            cv,
            key,
            x,
        )),
    decreases rv.len() + 1 - i,
{
    if i <= rv.len() {
        lemma_known_member(rv, cv, key, input, i + 1, x);
        let rest = known_v(rv, cv, key, input, i + 1);
        let whole = known_v(rv, cv, key, input, i);
        if reachable(rv, input, i as Oid) && cached_valid(rv, cv, key, i as Oid) {
            assert(whole == seq![i as Oid] + rest);
            assert(whole[0] == i as Oid);
            assert(forall|j: int| 1 <= j < whole.len() ==> whole[j] == rest[j - 1]);
            if i <= x <= rv.len() && reachable(rv, input, x) && cached_valid(rv, cv, key, x) {
                if x == i {
                    assert(whole[0] == x);
                } else {
                    let j = choose|j: int| 0 <= j < rest.len() && rest[j] == x;
                    assert(whole[j + 1] == x);
                }
            }
            if exists|j: int| 0 <= j < whole.len() && whole[j] == x {
                let j = choose|j: int| 0 <= j < whole.len() && whole[j] == x;
                if j == 0 {
                } else {
                    assert(rest[j - 1] == x);
                }
            }
        } else {
            assert(whole == rest);
            if exists|j: int| 0 <= j < whole.len() && whole[j] == x {
                let j = choose|j: int| 0 <= j < whole.len() && whole[j] == x;
                assert(rest[j] == x);
            }
        }
    }
}

/// Hiding behind the known list is hiding behind a cached ancestor.
proof fn lemma_hidden_equiv(rv: RepoV, cv: CacheV, key: Seq<char>, input: Oid, id: Oid)
    requires
        rv.len() < u64::MAX,
    ensures
        hidden_by_list(rv, known_v(rv, cv, key, input, 1), id) == hidden_by_known(
            rv,
            cv,
            key,
            input,
            id,
        ),
{
    let ks = known_v(rv, cv, key, input, 1);
    if hidden_by_list(rv, ks, id) {
        let j = choose|j: int| 0 <= j < ks.len() && reachable(rv, #[trigger] ks[j], id);
        lemma_known_member(rv, cv, key, input, 1, ks[j]);
        assert(exists|j2: int| 0 <= j2 < ks.len() && ks[j2] == ks[j]);
        assert(is_commit(rv, ks[j]) && reachable(rv, input, ks[j]) && cached_valid(
            rv,
            cv,
            key,
            ks[j],
        ));
    }
    if hidden_by_known(rv, cv, key, input, id) {
        let k = choose|k: Oid|
            is_commit(rv, k) && reachable(rv, input, k) && cached_valid(rv, cv, key, k)
                && reachable(rv, k, id);
        lemma_known_member(rv, cv, key, input, 1, k);
        let j = choose|j: int| 0 <= j < ks.len() && ks[j] == k;
        assert(reachable(rv, ks[j], id));
    }
}

/// The walk of the known list visits exactly the uncovered ancestors.
proof fn lemma_visible_equal(rv: RepoV, cv: CacheV, key: Seq<char>, input: Oid, i: int)
    requires
        1 <= i <= rv.len() + 1,
        rv.len() < u64::MAX,
    ensures
        visible_list_v(rv, known_v(rv, cv, key, input, 1), input, i) == visible_v(
            rv,
            cv,
            key,
            input,
            i,
        ),
    decreases rv.len() + 1 - i,
{
    if i <= rv.len() {
        lemma_visible_equal(rv, cv, key, input, i + 1);
        lemma_hidden_equiv(rv, cv, key, input, i as Oid);
    }
}

/// The ancestors of `input` not reachable from any of `hidden`, in
/// ascending (reverse-topological) id order.
fn visible_ancestors(repo: &Repo, input: Oid, hidden: &Vec<Oid>) -> (r: Vec<Oid>)
    requires
        wf_repo(repo@),
        is_commit(repo@, input),
        forall|j: int| 0 <= j < hidden@.len() ==> is_commit(repo@, #[trigger] hidden@[j]),
        repo@.len() + 1 <= usize::MAX,
    ensures
        r@ == visible_list_v(repo@, hidden@, input, 1),
        forall|j: int| 0 <= j < r@.len() ==> is_commit(repo@, #[trigger] r@[j]),
{
    let n = repo.len();
    let marks = crate::repo::ancestors_pub(repo, input);
    let mut hid: Vec<bool> = Vec::new();
    let mut z: usize = 0;
    while z <= n
        invariant
            z <= n + 1,
            n == repo@.len(),
            n + 1 <= usize::MAX,
            hid@.len() == z,
            forall|k: int| 0 <= k < z ==> hid@[k] == false,
        decreases n + 1 - z,
    {
        hid.push(false);
        z = z + 1;
    }
    let mut h: usize = 0;
    while h < hidden.len()
        invariant
            wf_repo(repo@),
            n == repo@.len(),
            n + 1 <= usize::MAX,
            forall|j: int| 0 <= j < hidden@.len() ==> is_commit(repo@, #[trigger] hidden@[j]),
            h <= hidden@.len(),
            hid@.len() == n + 1,
            forall|k: Oid| 0 <= k <= n && hid@[k as int] ==> hidden_by_list(repo@, hidden@, k),
            forall|j: int| 0 <= j < h ==> hid@[#[trigger] hidden@[j] as int],
        decreases hidden@.len() - h,
    {
        let hh = hidden[h];
        hid.set(hh as usize, true);
        proof {
            assert(reachable(repo@, hh, hh));
            assert(hidden_by_list(repo@, hidden@, hh));
        }
        h = h + 1;
    }
    // propagate the hidden set downwards to all ancestors
    let mut k: usize = n;
    while k >= 1
        invariant
            wf_repo(repo@),
            n == repo@.len(),
            n + 1 <= usize::MAX,
            0 <= k <= n,
            hid@.len() == n + 1,
            forall|j: int| 0 <= j < hidden@.len() ==> is_commit(repo@, #[trigger] hidden@[j]),
            forall|m: Oid| 0 <= m <= n && hid@[m as int] ==> hidden_by_list(repo@, hidden@, m),
            forall|j: int| 0 <= j < hidden@.len() ==> hid@[#[trigger] hidden@[j] as int],
            forall|a: Oid, j: int|
                k < a <= n && hid@[a as int] && 0 <= j < commit_of(repo@, a).parents.len()
                    ==> hid@[#[trigger] commit_of(repo@, a).parents[j] as int],
        decreases k,
    {
        if hid[k] {
            let c = repo.commit_at(k as u64);
            let np = c.parents.len();
            let mut j: usize = 0;
            while j < np
                invariant
                    wf_repo(repo@),
                    n == repo@.len(),
                    n + 1 <= usize::MAX,
                    is_commit(repo@, k as Oid),
                    commit_view(*c) == commit_of(repo@, k as Oid),
                    np == c.parents@.len(),
                    1 <= k <= n,
                    j <= np,
                    hid@.len() == n + 1,
                    hid@[k as int],
                    forall|j2: int|
                        0 <= j2 < hidden@.len() ==> is_commit(repo@, #[trigger] hidden@[j2]),
                    forall|m: Oid|
                        0 <= m <= n && hid@[m as int] ==> hidden_by_list(repo@, hidden@, m),
                    forall|j2: int| 0 <= j2 < hidden@.len() ==> hid@[#[trigger] hidden@[j2] as int],
                    forall|j2: int|
                        0 <= j2 < j ==> hid@[#[trigger] commit_of(repo@, k as Oid).parents[j2] as int],
                    forall|a: Oid, j2: int|
                        k < a <= n && hid@[a as int] && 0 <= j2 < commit_of(repo@, a).parents.len()
                            ==> hid@[#[trigger] commit_of(repo@, a).parents[j2] as int],
                decreases np - j,
            {
                let p = c.parents[j];
                proof {
                    assert(commit_of(repo@, k as Oid).parents[j as int] == p);
                    assert(1 <= p <= k - 1);
                    // the parent of a hidden commit is hidden by the same root
                    let w = choose|w: int|
                        0 <= w < hidden@.len() && reachable(repo@, #[trigger] hidden@[w], k as Oid);
                    assert(reachable(repo@, k as Oid, p)) by {
                        assert(reachable(repo@, p, p));
                    }
                    crate::repo::lemma_reachable_trans(repo@, hidden@[w], k as Oid, p);
                    assert(hidden_by_list(repo@, hidden@, p));
                }
                hid.set(p as usize, true);
                j = j + 1;
            }
        }
        k = k - 1;
    }
    proof {
        // hid now holds exactly the ids some hidden root reaches
        assert forall|m: Oid| 1 <= m <= n && hidden_by_list(repo@, hidden@, m) implies hid@[
            m as int
        ] by {
            let w = choose|w: int|
                0 <= w < hidden@.len() && reachable(repo@, #[trigger] hidden@[w], m);
            lemma_reachable_marked(repo@, hid@, hidden@[w], m);
        }
    }
    let mut r: Vec<Oid> = Vec::new();
    let mut k: usize = 1;
    proof {
        assert(r@ + visible_list_v(repo@, hidden@, input, 1) =~= visible_list_v(
            repo@,
            hidden@,
            input,
            1,
        ));
    }
    while k <= n
        invariant
            wf_repo(repo@),
            is_commit(repo@, input),
            1 <= k <= n + 1,
            n == repo@.len(),
            n + 1 <= usize::MAX,
            marks@.len() == n + 1,
            hid@.len() == n + 1,
            forall|m: Oid| 1 <= m <= n ==> (marks@[m as int] == reachable(repo@, input, m)),
            forall|m: Oid| 1 <= m <= n ==> (hid@[m as int] == hidden_by_list(repo@, hidden@, m)),
            r@ + visible_list_v(repo@, hidden@, input, k as int) == visible_list_v(
                repo@,
                hidden@,
                input,
                1,
            ),
            forall|j: int| 0 <= j < r@.len() ==> is_commit(repo@, #[trigger] r@[j]),
        decreases n + 1 - k,
    {
        let ghost prev = r@;
        if marks[k] && !hid[k] {
            r.push(k as Oid);
            proof {
                assert(visible_list_v(repo@, hidden@, input, k as int) == seq![k as Oid]
                    + visible_list_v(repo@, hidden@, input, k + 1));
                assert(prev + visible_list_v(repo@, hidden@, input, k as int) =~= r@
                    + visible_list_v(repo@, hidden@, input, k + 1));
            }
        } else {
            proof {
                assert(visible_list_v(repo@, hidden@, input, k as int) == visible_list_v(
                    repo@,
                    hidden@,
                    input,
                    k + 1,
                ));
            }
        }
        k = k + 1;
    }
    proof {
        assert(visible_list_v(repo@, hidden@, input, n + 1) =~= Seq::<Oid>::empty());
        assert(r@ =~= visible_list_v(repo@, hidden@, input, 1));
    }
    r
}

/// The cached ancestors of `input` under the given filter spec, and the
/// number of commits a walk still has to visit: the ancestors not hidden
/// behind a cached one.
pub fn find_known(repo: &Repo, tx: &mut Transaction, spec_string: &str, input: Oid) -> (r: (
    Vec<Oid>,
    usize,
))
    requires
        wf_repo(repo@),
        is_commit(repo@, input),
        old(tx).wf(),
        repo@.len() + 1 <= usize::MAX,
    ensures
        final(tx).wf(),
        final(tx)@ == old(tx)@,
        r.0@ == known_v(repo@, old(tx)@, spec_string@, input, 1),
        r.1 == visible_v(repo@, old(tx)@, spec_string@, input, 1).len(),
        forall|j: int| 0 <= j < r.0@.len() ==> is_commit(repo@, #[trigger] r.0@[j]),
{
    let n = repo.len();
    let marks = crate::repo::ancestors_pub(repo, input);
    let mut known: Vec<Oid> = Vec::new();
    let mut k: usize = 1;
    proof {
        assert(known@ + known_v(repo@, old(tx)@, spec_string@, input, 1) =~= known_v(
            repo@,
            old(tx)@,
            spec_string@,
            input,
            1,
        ));
    }
    while k <= n
        invariant
            1 <= k <= n + 1,
            n == repo@.len(),
            n + 1 <= usize::MAX,
            wf_repo(repo@),
            is_commit(repo@, input),
            marks@.len() == n + 1,
            forall|m: Oid| 1 <= m <= n ==> (marks@[m as int] == reachable(repo@, input, m)),
            tx.wf(),
            tx@ == old(tx)@,
            known@ + known_v(repo@, old(tx)@, spec_string@, input, k as int) == known_v(
                repo@,
                old(tx)@,
                spec_string@,
                input,
                1,
            ),
            forall|j: int| 0 <= j < known@.len() ==> is_commit(repo@, #[trigger] known@[j]),
        decreases n + 1 - k,
    {
        let ghost prev = known@;
        let mut took = false;
        if marks[k] {
            if tx.get(spec_string, k as Oid, repo).is_some() {
                known.push(k as Oid);
                took = true;
            }
        }
        proof {
            if took {
                assert(cached_valid(repo@, old(tx)@, spec_string@, k as Oid));
                assert(known_v(repo@, old(tx)@, spec_string@, input, k as int) == seq![k as Oid]
                    + known_v(repo@, old(tx)@, spec_string@, input, k + 1));
                assert(prev + known_v(repo@, old(tx)@, spec_string@, input, k as int) =~= known@
                    + known_v(repo@, old(tx)@, spec_string@, input, k + 1));
            } else {
                assert(!(reachable(repo@, input, k as Oid) && cached_valid(
                    repo@,
                    old(tx)@,
                    spec_string@,
                    k as Oid,
                )));
                assert(known_v(repo@, old(tx)@, spec_string@, input, k as int) == known_v(
                    repo@,
                    old(tx)@,
                    spec_string@,
                    input,
                    k + 1,
                ));
            }
        }
        k = k + 1;
    }
    proof {
        assert(known_v(repo@, old(tx)@, spec_string@, input, n + 1) =~= Seq::<Oid>::empty());
        assert(known@ =~= known_v(repo@, old(tx)@, spec_string@, input, 1));
    }
    let visible = visible_ancestors(repo, input, &known);
    let n_new = visible.len();
    proof {
        assert(repo@.len() < u64::MAX) by {
            assert(usize::MAX <= u64::MAX);
        }
        lemma_visible_equal(repo@, old(tx)@, spec_string@, input, 1);
    }
    (known, n_new)
}

// ---------------------------------------------------------------------------
// Filtering commits
// ---------------------------------------------------------------------------

/// The spec string under which results for `f` are memoised: the spec of
/// its normal form.
pub open spec fn cache_key(f: FilterV) -> Seq<char> {
    render(opt_v(f))
}

/// Whether the normal form of `f` is handled before the memo table is
/// consulted.
pub open spec fn uncached_op(g: FilterV) -> bool {
    g is Nop || g is Empty || g is Chain
}

/// The filtered tree a commit gets under an already-normalised operator
/// `g`: the tree-level filter for the plain operators, the overlay of the
/// members' filtered commits for a group, the overlay of the filtered
/// parents' trees for a fold, and the commit-level difference for a
/// subtraction.
pub open spec fn acm_tree_v(
    g: FilterV,
    commit: Oid,
    ctree: TreeV,
    rv: RepoV,
    cv: CacheV,
    fuel: nat,
) -> Option<(TreeV, RepoV, CacheV)>
    decreases fuel, 2int, 0int,
{
    match g {
        FilterV::Compose(gs) => compose_tree_v(
            g,
            gs,
            0,
            commit,
            Seq::<EntryV>::empty(),
            rv,
            cv,
            fuel,
        ),
        FilterV::Fold => fold_tree_v(g, commit_of(rv, commit).parents, 0, ctree, rv, cv, fuel),
        FilterV::Subtract(a, b) => if fuel == 0 {
            None
        } else {
            match acm_v(*a, commit, rv, cv, (fuel - 1) as nat) {
                None => None,
                Some((aid, rv1, cv1)) => {
                    let af = if aid != 0 && is_commit(rv1, aid) {
                        commit_of(rv1, aid).tree
                    } else {
                        Seq::<EntryV>::empty()
                    };
                    match acm_v(*b, commit, rv1, cv1, (fuel - 1) as nat) {
                        None => None,
                        Some((bid, rv2, cv2)) => {
                            let bf = if bid != 0 && is_commit(rv2, bid) {
                                commit_of(rv2, bid).tree
                            } else {
                                Seq::<EntryV>::empty()
                            };
                            match unapply_v(*b, bf, Seq::<EntryV>::empty(), WS_FUEL as nat) {
                                Err(_) => None,
                                Ok(bu) => match apply_v(*a, bu, WS_FUEL as nat) {
                                    Err(_) => None,
                                    Ok(ba) => Some((subtract_v(af, ba), rv2, cv2)),
                                },
                            }
                        },
                    }
                },
            }
        },
        _ => match apply_v(g, ctree, WS_FUEL as nat) {
            Err(_) => None,
            Ok(t) => Some((t, rv, cv)),
        },
    }
}

/// The members of a group applied to `commit` in order, their trees
/// overlaid onto `acc`; a member whose commit vanishes contributes
/// nothing.
pub open spec fn compose_tree_v(
    g: FilterV,
    gs: Seq<FilterV>,
    k: int,
    commit: Oid,
    acc: TreeV,
    rv: RepoV,
    cv: CacheV,
    fuel: nat,
) -> Option<(TreeV, RepoV, CacheV)>
    decreases fuel, 1int, gs.len() - k,
    when 0 <= k <= gs.len()
{
    if fuel == 0 {
        None
    } else if k >= gs.len() {
        Some((acc, rv, cv))
    } else {
        match acm_v(gs[k], commit, rv, cv, (fuel - 1) as nat) {
            None => None,
            Some((cid, rv1, cv1)) => {
                let acc2 = if cid != 0 && is_commit(rv1, cid) {
                    overlay_v(acc, commit_of(rv1, cid).tree)
                } else {
                    acc
                };
                compose_tree_v(g, gs, k + 1, commit, acc2, rv1, cv1, fuel)
            },
        }
    }
}

/// The filtered parents' trees overlaid onto the commit's own tree, in
/// parent order.
pub open spec fn fold_tree_v(
    g: FilterV,
    parents: Seq<Oid>,
    k: int,
    acc: TreeV,
    rv: RepoV,
    cv: CacheV,
    fuel: nat,
) -> Option<(TreeV, RepoV, CacheV)>
    decreases fuel, 1int, parents.len() - k,
    when 0 <= k <= parents.len()
{
    if fuel == 0 {
        None
    } else if k >= parents.len() {
        Some((acc, rv, cv))
    } else {
        match walk_v(g, parents[k], rv, cv, (fuel - 1) as nat) {
            None => None,
            Some((fp, rv1, cv1)) => {
                let acc2 = if fp != 0 && is_commit(rv1, fp) {
                    overlay_v(acc, commit_of(rv1, fp).tree)
                } else {
                    acc
                };
                fold_tree_v(g, parents, k + 1, acc2, rv1, cv1, fuel)
            },
        }
    }
}

/// The parents of the filtered commit: each original parent walked under
/// the normalised filter.
pub open spec fn parents_walk_v(
    g: FilterV,
    parents: Seq<Oid>,
    k: int,
    acc: Seq<Oid>,
    rv: RepoV,
    cv: CacheV,
    fuel: nat,
) -> Option<(Seq<Oid>, RepoV, CacheV)>
    decreases fuel, 1int, parents.len() - k,
    when 0 <= k <= parents.len()
{
    if fuel == 0 {
        None
    } else if k >= parents.len() {
        Some((acc, rv, cv))
    } else {
        match walk_v(g, parents[k], rv, cv, (fuel - 1) as nat) {
            None => None,
            Some((fp, rv1, cv1)) => parents_walk_v(
                g,
                parents,
                k + 1,
                acc.push(fp),
                rv1,
                cv1,
                fuel,
            ),
        }
    }
}

/// The extra parents a workspace filter adds: for each original parent,
/// the commits its own workspace definition no longer covers.
pub open spec fn ws_extras_v(
    cw: FilterV,
    wpath: Seq<Seq<char>>,
    parents: Seq<Oid>,
    k: int,
    acc: Seq<Oid>,
    rv: RepoV,
    cv: CacheV,
    fuel: nat,
) -> Option<(Seq<Oid>, RepoV, CacheV)>
    decreases fuel, 1int, parents.len() - k,
    when 0 <= k <= parents.len()
{
    if fuel == 0 {
        None
    } else if k >= parents.len() {
        Some((acc, rv, cv))
    } else {
        let qtree = commit_of(rv, parents[k]).tree;
        let pcw = match ws_parse_bytes(get_blob_v(qtree, wpath)) {
            Some(x) => x,
            None => FilterV::Empty,
        };
        match acm_v(
            FilterV::Subtract(Box::new(cw), Box::new(pcw)),
            parents[k],
            rv,
            cv,
            (fuel - 1) as nat,
        ) {
            None => None,
            Some((extra, rv1, cv1)) => ws_extras_v(
                cw,
                wpath,
                parents,
                k + 1,
                acc.push(extra),
                rv1,
                cv1,
                fuel,
            ),
        }
    }
}

/// What `apply_to_commit` computes: the filtered id of one commit, and
/// the object store and memo table after the call.
pub open spec fn acm_v(f: FilterV, commit: Oid, rv: RepoV, cv: CacheV, fuel: nat) -> Option<
    (Oid, RepoV, CacheV),
>
    decreases fuel, 3int, 0int,
{
    let g = opt_v(f);
    match g {
        FilterV::Nop => Some((commit, rv, cv)),
        FilterV::Empty => Some((0, rv, cv)),
        FilterV::Chain(a, b) => if fuel == 0 {
            None
        } else {
            match acm_v(*a, commit, rv, cv, (fuel - 1) as nat) {
                None => None,
                Some((r1, rv1, cv1)) => if is_commit(rv1, r1) {
                    acm_v(*b, r1, rv1, cv1, (fuel - 1) as nat)
                } else {
                    Some((0, rv1, cv1))
                },
            }
        },
        FilterV::Squash => {
            let key = render(g);
            if cached_valid(rv, cv, key, commit) {
                Some((cv[(key, commit)], rv, cv))
            } else if rv.len() >= usize::MAX - 2 {
                None
            } else {
                let (id, rv1) = rewrite_v(
                    rv,
                    commit,
                    Seq::<Oid>::empty(),
                    commit_of(rv, commit).tree,
                );
                Some((id, rv1, cv.insert((key, commit), id)))
            }
        },
        _ => {
            let key = render(g);
            if cached_valid(rv, cv, key, commit) {
                Some((cv[(key, commit)], rv, cv))
            } else if fuel == 0 {
                None
            } else {
                let ctree = commit_of(rv, commit).tree;
                match acm_tree_v(g, commit, ctree, rv, cv, fuel) {
                    None => None,
                    Some((ftree, rv1, cv1)) => {
                        let parents = commit_of(rv, commit).parents;
                        match parents_walk_v(g, parents, 0, Seq::<Oid>::empty(), rv1, cv1, fuel) {
                            None => None,
                            Some((fpids, rv2, cv2)) => {
                                let withextras = if g is Workspace {
                                    let wfile = g->Workspace_0.push(crate::apply::ws_file_name());
                                    let cw = match ws_parse_bytes(get_blob_v(ctree, wfile)) {
                                        Some(x) => x,
                                        None => FilterV::Empty,
                                    };
                                    ws_extras_v(cw, wfile, parents, 0, fpids, rv2, cv2, fuel)
                                } else {
                                    Some((fpids, rv2, cv2))
                                };
                                match withextras {
                                    None => None,
                                    Some((allpids, rv3, cv3)) => if rv3.len() >= usize::MAX - 2 {
                                        None
                                    } else {
                                        let (id, rv4) = cfc_v(rv3, commit, allpids, ftree);
                                        Some((id, rv4, cv3.insert((key, commit), id)))
                                    },
                                }
                            },
                        }
                    },
                }
            }
        },
    }
}

/// Fold `apply_to_commit` over the commits a walk visits.
pub open spec fn walk_fold_v(
    f: FilterV,
    vis: Seq<Oid>,
    k: int,
    rv: RepoV,
    cv: CacheV,
    fuel: nat,
) -> Option<(RepoV, CacheV)>
    decreases fuel, 1int, vis.len() - k,
    when 0 <= k <= vis.len()
{
    if fuel == 0 {
        None
    } else if k >= vis.len() {
        Some((rv, cv))
    } else {
        match acm_v(f, vis[k], rv, cv, (fuel - 1) as nat) {
            None => None,
            Some((_, rv1, cv1)) => walk_fold_v(f, vis, k + 1, rv1, cv1, fuel),
        }
    }
}

/// What `walk2` computes: the filtered counterpart of `input` after every
/// uncovered ancestor was filtered in ascending order, and the two stores
/// after.  An id naming no commit filters to the null id.
pub open spec fn walk_v(f: FilterV, input: Oid, rv: RepoV, cv: CacheV, fuel: nat) -> Option<
    (Oid, RepoV, CacheV),
>
    decreases fuel, 4int, 0int,
{
    if !is_commit(rv, input) {
        Some((0, rv, cv))
    } else if fuel == 0 {
        None
    } else {
        let key = cache_key(f);
        if cached_valid(rv, cv, key, input) {
            Some((cv[(key, input)], rv, cv))
        } else if rv.len() >= usize::MAX - 2 {
            None
        } else {
            let vis = visible_v(rv, cv, key, input, 1);
            match walk_fold_v(f, vis, 0, rv, cv, fuel) {
                None => None,
                Some((rv1, cv1)) => acm_v(f, input, rv1, cv1, (fuel - 1) as nat),
            }
        }
    }
}

fn err_depth() -> (e: JoshError)
    ensures
        e is Parse,
{
    JoshError::Parse { pos: 0, msg: "history walk nested too deeply".to_owned() }
}

fn err_full() -> (e: JoshError)
    ensures
        e is Parse,
{
    JoshError::Parse { pos: 0, msg: "the commit store is full".to_owned() }
}

/// Calculate the filtered counterpart of one commit, recursing into its
/// ancestry as needed.  Results are memoised in the transaction; the
/// filter is normalised first, and the identity and the empty filter are
/// answered directly.  The result and the two stores afterwards are
/// exactly what `acm_v` computes of the states before.
#[verifier::rlimit(100)]
pub fn apply_to_commit(
    repo: &mut Repo,
    tx: &mut Transaction,
    f: &Filter,
    commit: Oid,
    fuel: usize,
) -> (r: JoshResult<Oid>)
    requires
        wf_repo(old(repo)@),
        is_commit(old(repo)@, commit),
        old(tx).wf(),
    ensures
        wf_repo(final(repo)@),
        final(tx).wf(),
        old(repo)@.is_prefix_of(final(repo)@),
        r matches Ok(id) ==> valid_oid(final(repo)@, id),
        opt_v(f@) is Nop ==> r == Ok::<Oid, JoshError>(commit) && final(repo)@ == old(repo)@
            && final(tx)@ == old(tx)@,
        opt_v(f@) is Empty ==> r == Ok::<Oid, JoshError>(0u64) && final(repo)@ == old(repo)@
            && final(tx)@ == old(tx)@,
        ({
            let key = (cache_key(f@), commit);
            (!uncached_op(opt_v(f@)) && old(tx)@.contains_key(key) && (old(tx)@[key] == 0
                || is_commit(old(repo)@, old(tx)@[key]))) ==> r == Ok::<Oid, JoshError>(
                old(tx)@[key],
            ) && final(repo)@ == old(repo)@ && final(tx)@ == old(tx)@
        }),
        r is Ok && !uncached_op(opt_v(f@)) ==> final(tx)@.contains_key((cache_key(f@), commit))
            && final(tx)@[(cache_key(f@), commit)] == r->Ok_0,
        r matches Err(e) ==> (e is Parse || e is FilterNotReversible),
        ({
            let m = acm_v(f@, commit, old(repo)@, old(tx)@, fuel as nat);
            match r {
                Ok(id) => m == Some((id, final(repo)@, final(tx)@)),
                Err(_) => m is None,
            }
        }),
    decreases fuel,
{
    let fo = optimize(f);
    proof {
        crate::filter::lemma_filter_view_variants(fo);
    }
    let ghost g = opt_v(f@);
    match &fo {
        Filter::Nop => Ok(commit),
        Filter::Empty => Ok(0),
        Filter::Chain(a, b) => {
            proof {
                assert((**a)@ == *g->Chain_0);
                assert((**b)@ == *g->Chain_1);
            }
            if fuel == 0 {
                return Err(err_depth());
            }
            let r1 = match apply_to_commit(repo, tx, a, commit, fuel - 1) {
                Ok(x) => x,
                Err(e) => {
                    proof {
                        assert(acm_v(f@, commit, old(repo)@, old(tx)@, fuel as nat) is None);
                    }
                    return Err(e);
                },
            };
            let ghost rv1 = repo@;
            let ghost cv1 = tx@;
            if repo.has_commit(r1) {
                let r2 = match apply_to_commit(repo, tx, b, r1, fuel - 1) {
                    Ok(x) => x,
                    Err(e) => {
                        proof {
                            assert(acm_v(f@, commit, old(repo)@, old(tx)@, fuel as nat) is None);
                        }
                        return Err(e);
                    },
                };
                proof {
                    lemma_prefix_trans(old(repo)@, rv1, final(repo)@);
                    assert(acm_v(f@, commit, old(repo)@, old(tx)@, fuel as nat) == Some(
                        (r2, repo@, tx@),
                    ));
                }
                Ok(r2)
            } else {
                proof {
                    assert(acm_v(f@, commit, old(repo)@, old(tx)@, fuel as nat) == Some(
                        (0u64, repo@, tx@),
                    ));
                }
                Ok(0)
            }
        },
        Filter::Squash => {
            let sstr = spec_str(&fo);
            proof {
                assert(sstr@ == cache_key(f@));
            }
            match tx.get(sstr.as_str(), commit, repo) {
                Some(oid) => {
                    proof {
                        assert(final(repo)@.take(old(repo)@.len() as int) =~= old(repo)@);
                        assert(cached_valid(old(repo)@, old(tx)@, render(g), commit));
                        assert(acm_v(f@, commit, old(repo)@, old(tx)@, fuel as nat) == Some(
                            (old(tx)@[(render(g), commit)], old(repo)@, old(tx)@),
                        ));
                    }
                    return Ok(oid);
                },
                None => {},
            }
            proof {
                assert(!cached_valid(old(repo)@, old(tx)@, render(g), commit));
            }
            if repo.len() >= usize::MAX - 2 {
                return Err(err_full());
            }
            let tree = clone_tree(&repo.commit_at(commit).tree);
            let none: Vec<Oid> = Vec::new();
            let id = match rewrite_commit(repo, commit, &none, &tree) {
                Ok(x) => x,
                Err(e) => {
                    return Err(e);
                },
            };
            tx.insert(sstr.as_str(), commit, id, true);
            proof {
                assert(none@ =~= Seq::<Oid>::empty());
                assert(acm_v(f@, commit, old(repo)@, old(tx)@, fuel as nat) == Some(
                    (id, repo@, tx@),
                ));
            }
            Ok(id)
        },
        _ => {
            let sstr = spec_str(&fo);
            proof {
                assert(sstr@ == cache_key(f@));
            }
            match tx.get(sstr.as_str(), commit, repo) {
                Some(oid) => {
                    proof {
                        assert(final(repo)@.take(old(repo)@.len() as int) =~= old(repo)@);
                        assert(cached_valid(old(repo)@, old(tx)@, render(g), commit));
                        assert(acm_v(f@, commit, old(repo)@, old(tx)@, fuel as nat) == Some(
                            (old(tx)@[(render(g), commit)], old(repo)@, old(tx)@),
                        ));
                    }
                    return Ok(oid);
                },
                None => {},
            }
            proof {
                assert(!cached_valid(old(repo)@, old(tx)@, render(g), commit));
            }
            if fuel == 0 {
                return Err(err_depth());
            }
            // the filtered tree, by operator
            let ctree = clone_tree(&repo.commit_at(commit).tree);
            let ghost repo0 = repo@;
            let ghost cv0 = tx@;
            let ghost ctv = ctree@;
            proof {
                assert(repo0 == old(repo)@);
                assert(cv0 == old(tx)@);
                assert(ctv == commit_of(old(repo)@, commit).tree);
            }
            let filtered_tree: Tree = match &fo {
                Filter::Compose(fs) => {
                    proof {
                        broadcast use crate::filter::lemma_filters_view;

                        crate::filter::lemma_filters_view(fs@);
                    }
                    let ghost gsv = crate::filter::filters_view(fs@);
                    proof {
                        assert(g == FilterV::Compose(gsv));
                        assert(g->Compose_0 == gsv);
                    }
                    let mut acc = empty();
                    let mut i: usize = 0;
                    while i < fs.len()
                        invariant
                            wf_repo(repo@),
                            tx.wf(),
                            is_commit(repo@, commit),
                            repo0 == old(repo)@,
                            cv0 == old(tx)@,
                            repo0.is_prefix_of(repo@),
                            g == opt_v(f@),
                            fo@ == g,
                            g == FilterV::Compose(gsv),
                            gsv.len() == fs@.len(),
                            forall|k: int|
                                0 <= k < fs@.len() ==> gsv[k] == crate::filter::filter_view(
                                    #[trigger] fs@[k],
                                ),
                            !(opt_v(f@) is Nop),
                            !(opt_v(f@) is Empty),
                            !cached_valid(old(repo)@, old(tx)@, render(g), commit),
                            ctv == commit_of(old(repo)@, commit).tree,
                            i <= gsv.len(),
                            compose_tree_v(g, gsv, i as int, commit, acc@, repo@, tx@, fuel as nat)
                                == compose_tree_v(
                                g,
                                gsv,
                                0,
                                commit,
                                Seq::<EntryV>::empty(),
                                repo0,
                                cv0,
                                fuel as nat,
                            ),
                            fuel >= 1,
                        decreases fs@.len() - i,
                    {
                        let ghost repo_a = repo@;
                        let ghost cv_a = tx@;
                        let ghost acc_a = acc@;
                        let cid = match apply_to_commit(repo, tx, &fs[i], commit, fuel - 1) {
                            Ok(x) => x,
                            Err(e) => {
                                proof {
                                    assert(acm_v(gsv[i as int], commit, repo_a, cv_a, (fuel
                                        - 1) as nat) is None);
                                    assert(compose_tree_v(g, gsv, i as int, commit, acc_a, repo_a,
                                        cv_a, fuel as nat) is None);
                                    assert(acm_tree_v(g, commit, ctv, repo0, cv0, fuel as nat)
                                        is None);
                                    assert(acm_v(f@, commit, old(repo)@, old(tx)@, fuel as nat)
                                        is None);
                                }
                                return Err(e);
                            },
                        };
                        proof {
                            lemma_prefix_trans(repo0, repo_a, repo@);
                            lemma_is_commit_grow(repo_a, repo@, commit);
                            assert(acm_v(gsv[i as int], commit, repo_a, cv_a, (fuel - 1) as nat)
                                == Some((cid, repo@, tx@)));
                        }
                        if cid != 0 && repo.has_commit(cid) {
                            let ct = clone_tree(&repo.commit_at(cid).tree);
                            acc = crate::tree::overlay(&acc, &ct);
                            proof {
                                assert(acc@ == overlay_v(acc_a, commit_of(repo@, cid).tree));
                            }
                        }
                        proof {
                            assert(compose_tree_v(g, gsv, i as int, commit, acc_a, repo_a, cv_a,
                                fuel as nat) == compose_tree_v(g, gsv, i + 1, commit, acc@, repo@,
                                tx@, fuel as nat));
                        }
                        i = i + 1;
                    }
                    proof {
                        assert(compose_tree_v(g, gsv, gsv.len() as int, commit, acc@, repo@, tx@,
                            fuel as nat) == Some((acc@, repo@, tx@)));
                        assert(acm_tree_v(g, commit, ctv, repo0, cv0, fuel as nat) == Some(
                            (acc@, repo@, tx@),
                        ));
                    }
                    acc
                },
                Filter::Fold => {
                    let np = repo.commit_at(commit).parents.len();
                    let ghost pars = commit_of(repo0, commit).parents;
                    let mut ft = clone_tree(&ctree);
                    let mut i: usize = 0;
                    while i < np
                        invariant
                            wf_repo(repo@),
                            tx.wf(),
                            is_commit(repo@, commit),
                            np == pars.len(),
                            pars == commit_of(repo0, commit).parents,
                            commit_of(repo@, commit) == commit_of(repo0, commit),
                            repo0 == old(repo)@,
                            cv0 == old(tx)@,
                            repo0.is_prefix_of(repo@),
                            g == opt_v(f@),
                            fo@ == g,
                            g is Fold,
                            !(opt_v(f@) is Nop),
                            !(opt_v(f@) is Empty),
                            !cached_valid(old(repo)@, old(tx)@, render(g), commit),
                            ctv == commit_of(old(repo)@, commit).tree,
                            i <= pars.len(),
                            fold_tree_v(g, pars, i as int, ft@, repo@, tx@, fuel as nat)
                                == fold_tree_v(g, pars, 0, ctv, repo0, cv0, fuel as nat),
                            fuel >= 1,
                        decreases np - i,
                    {
                        let ghost repo_a = repo@;
                        let ghost cv_a = tx@;
                        let ghost ft_a = ft@;
                        let p = repo.commit_at(commit).parents[i];
                        proof {
                            assert(p == pars[i as int]);
                            assert(is_commit(repo@, p));
                        }
                        let fp = match walk2(repo, tx, &fo, p, fuel - 1) {
                            Ok(x) => x,
                            Err(e) => {
                                proof {
                                    assert(walk_v(g, pars[i as int], repo_a, cv_a, (fuel
                                        - 1) as nat) is None);
                                    assert(fold_tree_v(g, pars, i as int, ft_a, repo_a, cv_a,
                                        fuel as nat) is None);
                                    assert(acm_tree_v(g, commit, ctv, repo0, cv0, fuel as nat)
                                        is None);
                                    assert(acm_v(f@, commit, old(repo)@, old(tx)@, fuel as nat)
                                        is None);
                                }
                                return Err(e);
                            },
                        };
                        proof {
                            lemma_prefix_trans(repo0, repo_a, repo@);
                            lemma_is_commit_grow(repo_a, repo@, commit);
                            lemma_commit_stable(repo_a, repo@, commit);
                            assert(walk_v(g, pars[i as int], repo_a, cv_a, (fuel - 1) as nat)
                                == Some((fp, repo@, tx@)));
                        }
                        if fp != 0 && repo.has_commit(fp) {
                            let pt = clone_tree(&repo.commit_at(fp).tree);
                            ft = crate::tree::overlay(&ft, &pt);
                            proof {
                                assert(ft@ == overlay_v(ft_a, commit_of(repo@, fp).tree));
                            }
                        }
                        proof {
                            assert(fold_tree_v(g, pars, i as int, ft_a, repo_a, cv_a, fuel as nat)
                                == fold_tree_v(g, pars, i + 1, ft@, repo@, tx@, fuel as nat));
                        }
                        i = i + 1;
                    }
                    proof {
                        assert(fold_tree_v(g, pars, pars.len() as int, ft@, repo@, tx@,
                            fuel as nat) == Some((ft@, repo@, tx@)));
                        assert(acm_tree_v(g, commit, ctv, repo0, cv0, fuel as nat) == Some(
                            (ft@, repo@, tx@),
                        ));
                    }
                    ft
                },
                Filter::Subtract(a, b) => {
                    proof {
                        assert((**a)@ == *g->Subtract_0);
                        assert((**b)@ == *g->Subtract_1);
                    }
                    let ghost repo_a = repo@;
                    let aid = match apply_to_commit(repo, tx, a, commit, fuel - 1) {
                        Ok(x) => x,
                        Err(e) => {
                            proof {
                                assert(acm_tree_v(g, commit, ctv, repo0, cv0, fuel as nat)
                                    is None);
                                assert(acm_v(f@, commit, old(repo)@, old(tx)@, fuel as nat)
                                    is None);
                            }
                            return Err(e);
                        },
                    };
                    let af = if aid != 0 && repo.has_commit(aid) {
                        clone_tree(&repo.commit_at(aid).tree)
                    } else {
                        empty()
                    };
                    let ghost repo_b = repo@;
                    let ghost cv_b = tx@;
                    proof {
                        lemma_is_commit_grow(repo_a, repo_b, commit);
                    }
                    let bid = match apply_to_commit(repo, tx, b, commit, fuel - 1) {
                        Ok(x) => x,
                        Err(e) => {
                            proof {
                                assert(acm_tree_v(g, commit, ctv, repo0, cv0, fuel as nat)
                                    is None);
                                assert(acm_v(f@, commit, old(repo)@, old(tx)@, fuel as nat)
                                    is None);
                            }
                            return Err(e);
                        },
                    };
                    let bf = if bid != 0 && repo.has_commit(bid) {
                        clone_tree(&repo.commit_at(bid).tree)
                    } else {
                        empty()
                    };
                    let e0 = empty();
                    let bu = match unapply(b, &bf, &e0) {
                        Ok(x) => x,
                        Err(e) => {
                            proof {
                                assert(unapply_v((**b)@, bf@, Seq::<EntryV>::empty(),
                                    WS_FUEL as nat) is Err);
                                assert(acm_tree_v(g, commit, ctv, repo0, cv0, fuel as nat)
                                    is None);
                                assert(acm_v(f@, commit, old(repo)@, old(tx)@, fuel as nat)
                                    is None);
                            }
                            return Err(e);
                        },
                    };
                    let ba = match apply(a, &bu) {
                        Ok(x) => x,
                        Err(e) => {
                            proof {
                                assert(apply_v((**a)@, bu@, WS_FUEL as nat) is Err);
                                assert(acm_tree_v(g, commit, ctv, repo0, cv0, fuel as nat)
                                    is None);
                                assert(acm_v(f@, commit, old(repo)@, old(tx)@, fuel as nat)
                                    is None);
                            }
                            return Err(e);
                        },
                    };
                    proof {
                        lemma_prefix_trans(repo_a, repo_b, repo@);
                    }
                    let st = crate::tree::subtract(&af, &ba);
                    proof {
                        assert(acm_tree_v(g, commit, ctv, repo0, cv0, fuel as nat) == Some(
                            (st@, repo@, tx@),
                        ));
                    }
                    st
                },
                _ => {
                    match apply(&fo, &ctree) {
                        Ok(t) => {
                            proof {
                                assert(apply_v(g, ctv, WS_FUEL as nat) == Ok::<TreeV, crate::apply::TErr>(t@));
                                assert(acm_tree_v(g, commit, ctv, repo0, cv0, fuel as nat)
                                    == Some((t@, repo@, tx@)));
                            }
                            t
                        },
                        Err(e) => {
                            proof {
                                assert(apply_v(g, ctv, WS_FUEL as nat) is Err);
                                assert(acm_tree_v(g, commit, ctv, repo0, cv0, fuel as nat)
                                    is None);
                                assert(acm_v(f@, commit, old(repo)@, old(tx)@, fuel as nat)
                                    is None);
                            }
                            return Err(e);
                        },
                    }
                },
            };
            proof {
                lemma_is_commit_grow(repo0, repo@, commit);
                assert(acm_tree_v(g, commit, ctv, repo0, cv0, fuel as nat) == Some(
                    (filtered_tree@, repo@, tx@),
                ));
            }
            // the filtered parents: every original parent walked under the
            // same filter; a workspace adds the commits its new definition
            // uncovers on each parent
            let mut fpids: Vec<Oid> = Vec::new();
            let np = repo.commit_at(commit).parents.len();
            let mut i: usize = 0;
            let ghost repo1 = repo@;
            let ghost cv1 = tx@;
            let ghost pars = commit_of(repo0, commit).parents;
            proof {
                lemma_commit_stable(repo0, repo1, commit);
                assert(np == pars.len());
            }
            while i < np
                invariant
                    wf_repo(repo@),
                    tx.wf(),
                    is_commit(repo@, commit),
                    np == pars.len(),
                    pars == commit_of(repo0, commit).parents,
                    commit_of(repo@, commit) == commit_of(repo0, commit),
                    repo0 == old(repo)@,
                    cv0 == old(tx)@,
                    old(repo)@.is_prefix_of(repo1),
                    repo1.is_prefix_of(repo@),
                    old(repo)@.is_prefix_of(repo@),
                    g == opt_v(f@),
                    fo@ == g,
                    !(opt_v(f@) is Nop),
                    !(opt_v(f@) is Empty),
                    !(opt_v(f@) is Chain),
                    !(opt_v(f@) is Squash),
                    !cached_valid(old(repo)@, old(tx)@, render(g), commit),
                    ctv == commit_of(old(repo)@, commit).tree,
                    acm_tree_v(g, commit, ctv, repo0, cv0, fuel as nat) == Some(
                        (filtered_tree@, repo1, cv1),
                    ),
                    i <= pars.len(),
                    parents_walk_v(g, pars, i as int, fpids@, repo@, tx@, fuel as nat)
                        == parents_walk_v(g, pars, 0, Seq::<Oid>::empty(), repo1, cv1, fuel as nat),
                    forall|j: int| 0 <= j < fpids@.len() ==> valid_oid(repo@, #[trigger] fpids@[j]),
                    fuel >= 1,
                decreases np - i,
            {
                let ghost repo_a = repo@;
                let ghost cv_a = tx@;
                let ghost fp_a = fpids@;
                let p = repo.commit_at(commit).parents[i];
                proof {
                    assert(p == pars[i as int]);
                    assert(is_commit(repo@, p));
                }
                let fp = match walk2(repo, tx, &fo, p, fuel - 1) {
                    Ok(x) => x,
                    Err(e) => {
                        proof {
                            assert(walk_v(g, pars[i as int], repo_a, cv_a, (fuel - 1) as nat)
                                is None);
                            assert(parents_walk_v(g, pars, i as int, fp_a, repo_a, cv_a,
                                fuel as nat) is None);
                            assert(acm_v(f@, commit, old(repo)@, old(tx)@, fuel as nat) is None);
                        }
                        return Err(e);
                    },
                };
                fpids.push(fp);
                proof {
                    lemma_prefix_trans(repo1, repo_a, repo@);
                    lemma_is_commit_grow(repo_a, repo@, commit);
                    lemma_commit_stable(repo_a, repo@, commit);
                    assert(walk_v(g, pars[i as int], repo_a, cv_a, (fuel - 1) as nat) == Some(
                        (fp, repo@, tx@),
                    ));
                    assert(parents_walk_v(g, pars, i as int, fp_a, repo_a, cv_a, fuel as nat)
                        == parents_walk_v(g, pars, i + 1, fpids@, repo@, tx@, fuel as nat));
                    assert(forall|j: int|
                        0 <= j < fpids@.len() ==> valid_oid(repo@, #[trigger] fpids@[j]));
                }
                i = i + 1;
            }
            proof {
                assert(parents_walk_v(g, pars, pars.len() as int, fpids@, repo@, tx@, fuel as nat)
                    == Some((fpids@, repo@, tx@)));
            }
            let ghost repo2 = repo@;
            let ghost cv2 = tx@;
            let ghost fpids2 = fpids@;
            if matches!(&fo, Filter::Workspace(_)) {
                let wpath: Vec<String> = match &fo {
                    Filter::Workspace(p) => crate::filter::clone_path(p),
                    _ => Vec::new(),
                };
                let mut wfile = wpath;
                wfile.push("workspace.josh".to_owned());
                proof {
                    assert(wfile.deep_view() =~= g->Workspace_0.push(crate::apply::ws_file_name()));
                }
                let cw: Filter = match crate::apply::read_ws_filter(&ctree, &wfile) {
                    Some(x) => x,
                    None => Filter::Empty,
                };
                let ghost cwv = cw@;
                proof {
                    assert(cwv == match ws_parse_bytes(
                        get_blob_v(ctv, g->Workspace_0.push(crate::apply::ws_file_name())),
                    ) {
                        Some(x) => x,
                        None => FilterV::Empty,
                    });
                }
                let np2 = repo.commit_at(commit).parents.len();
                let mut i2: usize = 0;
                proof {
                    lemma_commit_stable(repo0, repo2, commit);
                    assert(np2 == pars.len());
                }
                while i2 < np2
                    invariant
                        wf_repo(repo@),
                        tx.wf(),
                        is_commit(repo@, commit),
                        np2 == pars.len(),
                        pars == commit_of(repo0, commit).parents,
                        commit_of(repo@, commit) == commit_of(repo0, commit),
                        repo0 == old(repo)@,
                        cv0 == old(tx)@,
                        old(repo)@.is_prefix_of(repo2),
                        repo2.is_prefix_of(repo@),
                        old(repo)@.is_prefix_of(repo@),
                        g == opt_v(f@),
                        fo@ == g,
                        g is Workspace,
                        !(opt_v(f@) is Nop),
                        !(opt_v(f@) is Empty),
                        !cached_valid(old(repo)@, old(tx)@, render(g), commit),
                        ctv == commit_of(old(repo)@, commit).tree,
                        acm_tree_v(g, commit, ctv, repo0, cv0, fuel as nat) == Some(
                            (filtered_tree@, repo1, cv1),
                        ),
                        parents_walk_v(g, pars, 0, Seq::<Oid>::empty(), repo1, cv1, fuel as nat)
                            == Some((fpids2, repo2, cv2)),
                        cwv == cw@,
                        cwv == match ws_parse_bytes(
                            get_blob_v(ctv, g->Workspace_0.push(crate::apply::ws_file_name())),
                        ) {
                            Some(x) => x,
                            None => FilterV::Empty,
                        },
                        wfile.deep_view() == g->Workspace_0.push(crate::apply::ws_file_name()),
                        i2 <= pars.len(),
                        ws_extras_v(cwv, wfile.deep_view(), pars, i2 as int, fpids@, repo@, tx@,
                            fuel as nat) == ws_extras_v(cwv, wfile.deep_view(), pars, 0, fpids2,
                            repo2, cv2, fuel as nat),
                        forall|j: int|
                            0 <= j < fpids@.len() ==> valid_oid(repo@, #[trigger] fpids@[j]),
                        fuel >= 1,
                    decreases np2 - i2,
                {
                    let ghost repo_a = repo@;
                    let ghost cv_a = tx@;
                    let ghost fp_a = fpids@;
                    let q = repo.commit_at(commit).parents[i2];
                    proof {
                        assert(q == pars[i2 as int]);
                        assert(is_commit(repo@, q));
                    }
                    let qtree = clone_tree(&repo.commit_at(q).tree);
                    let pcw: Filter = match crate::apply::read_ws_filter(&qtree, &wfile) {
                        Some(x) => x,
                        None => Filter::Empty,
                    };
                    let sub = Filter::Subtract(Box::new(clone_filter(&cw)), Box::new(pcw));
                    proof {
                        assert(sub@ == FilterV::Subtract(Box::new(cwv), Box::new(pcw@)));
                        assert(qtree@ == commit_of(repo_a, q).tree);
                    }
                    let extra = match apply_to_commit(repo, tx, &sub, q, fuel - 1) {
                        Ok(x) => x,
                        Err(e) => {
                            proof {
                                assert(acm_v(sub@, q, repo_a, cv_a, (fuel - 1) as nat) is None);
                                assert(ws_extras_v(cwv, wfile.deep_view(), pars, i2 as int, fp_a,
                                    repo_a, cv_a, fuel as nat) is None);
                                assert(acm_v(f@, commit, old(repo)@, old(tx)@, fuel as nat)
                                    is None);
                            }
                            return Err(e);
                        },
                    };
                    fpids.push(extra);
                    proof {
                        lemma_prefix_trans(repo2, repo_a, repo@);
                        lemma_is_commit_grow(repo_a, repo@, commit);
                        lemma_commit_stable(repo_a, repo@, commit);
                        assert(acm_v(sub@, q, repo_a, cv_a, (fuel - 1) as nat) == Some(
                            (extra, repo@, tx@),
                        ));
                        assert(ws_extras_v(cwv, wfile.deep_view(), pars, i2 as int, fp_a, repo_a,
                            cv_a, fuel as nat) == ws_extras_v(cwv, wfile.deep_view(), pars,
                            i2 + 1, fpids@, repo@, tx@, fuel as nat));
                        assert(forall|j: int|
                            0 <= j < fpids@.len() ==> valid_oid(repo@, #[trigger] fpids@[j]));
                    }
                    i2 = i2 + 1;
                }
                proof {
                    lemma_prefix_trans(repo1, repo2, repo@);
                    assert(ws_extras_v(cwv, wfile.deep_view(), pars, pars.len() as int, fpids@,
                        repo@, tx@, fuel as nat) == Some((fpids@, repo@, tx@)));
                }
            }
            let ghost repo3 = repo@;
            let ghost cv3 = tx@;
            proof {
                if g is Workspace {
                    assert(ws_extras_v(
                        match ws_parse_bytes(
                            get_blob_v(ctv, g->Workspace_0.push(crate::apply::ws_file_name())),
                        ) {
                            Some(x) => x,
                            None => FilterV::Empty,
                        },
                        g->Workspace_0.push(crate::apply::ws_file_name()),
                        pars,
                        0,
                        fpids2,
                        repo2,
                        cv2,
                        fuel as nat,
                    ) == Some((fpids@, repo3, cv3)));
                } else {
                    assert(repo3 == repo2 && cv3 == cv2 && fpids@ == fpids2);
                }
            }
            if repo.len() >= usize::MAX - 2 {
                proof {
                    assert(acm_v(f@, commit, old(repo)@, old(tx)@, fuel as nat) is None);
                }
                return Err(err_full());
            }
            let rr = create_filtered_commit(repo, tx, commit, &fpids, &filtered_tree, sstr.as_str());
            proof {
                lemma_prefix_trans(repo0, repo1, repo@);
                lemma_prefix_trans(old(repo)@, repo0, repo@);
                match rr {
                    Ok(id) => {
                        assert((id, repo@) == cfc_v(repo3, commit, fpids@, filtered_tree@));
                        assert(tx@ == cv3.insert((render(g), commit), id));
                        assert(acm_v(f@, commit, old(repo)@, old(tx)@, fuel as nat) == Some(
                            (id, repo@, tx@),
                        ));
                    },
                    Err(_) => {},
                }
            }
            rr
        },
    }
}

/// Filter the whole history below `input` and return the filtered
/// counterpart of `input`; commits already cached are not revisited.  An
/// id that names no commit filters to the null id.  The result and the
/// two stores afterwards are exactly what `walk_v` computes of the
/// states before.
pub fn walk2(repo: &mut Repo, tx: &mut Transaction, f: &Filter, input: Oid, fuel: usize) -> (r:
    JoshResult<Oid>)
    requires
        wf_repo(old(repo)@),
        old(tx).wf(),
    ensures
        wf_repo(final(repo)@),
        final(tx).wf(),
        old(repo)@.is_prefix_of(final(repo)@),
        r matches Ok(id) ==> valid_oid(final(repo)@, id),
        !is_commit(old(repo)@, input) ==> r == Ok::<Oid, JoshError>(0u64) && final(repo)@ == old(
            repo,
        )@ && final(tx)@ == old(tx)@,
        (r is Ok && !uncached_op(opt_v(f@)) && is_commit(old(repo)@, input)) ==> (final(tx)@
            .contains_key((cache_key(f@), input)) && final(tx)@[(cache_key(f@), input)]
            == r->Ok_0),
        r matches Err(e) ==> (e is Parse || e is FilterNotReversible),
        ({
            let m = walk_v(f@, input, old(repo)@, old(tx)@, fuel as nat);
            match r {
                Ok(id) => m == Some((id, final(repo)@, final(tx)@)),
                Err(_) => m is None,
            }
        }),
    decreases fuel,
{
    if !repo.has_commit(input) {
        proof {
            assert(final(repo)@.take(old(repo)@.len() as int) =~= old(repo)@);
        }
        return Ok(0);
    }
    if fuel == 0 {
        return Err(err_depth());
    }
    let fo = optimize(f);
    let sstr = spec_str(&fo);
    proof {
        assert(sstr@ == cache_key(f@));
    }
    match tx.get(sstr.as_str(), input, repo) {
        Some(oid) => {
            proof {
                assert(final(repo)@.take(old(repo)@.len() as int) =~= old(repo)@);
                assert(cached_valid(old(repo)@, old(tx)@, cache_key(f@), input));
                assert(walk_v(f@, input, old(repo)@, old(tx)@, fuel as nat) == Some(
                    (old(tx)@[(cache_key(f@), input)], old(repo)@, old(tx)@),
                ));
            }
            return Ok(oid);
        },
        None => {},
    }
    proof {
        assert(!cached_valid(old(repo)@, old(tx)@, cache_key(f@), input));
    }
    if repo.len() >= usize::MAX - 2 {
        return Err(err_full());
    }
    let (known, _n_new) = find_known(repo, tx, sstr.as_str(), input);
    let visible = visible_ancestors(repo, input, &known);
    tx.enter_walk();
    let ghost repo0 = repo@;
    let ghost cv0 = tx@;
    let ghost visv = visible@;
    proof {
        assert(cv0 == old(tx)@);
        assert(repo0 == old(repo)@);
        assert(repo@.len() < u64::MAX) by {
            assert(usize::MAX <= u64::MAX);
        }
        lemma_visible_equal(repo@, old(tx)@, cache_key(f@), input, 1);
        assert(visv == visible_v(repo0, cv0, cache_key(f@), input, 1));
    }
    let mut i: usize = 0;
    while i < visible.len()
        invariant
            wf_repo(repo@),
            tx.wf(),
            repo0 == old(repo)@,
            cv0 == old(tx)@,
            visv == visible@,
            repo0.is_prefix_of(repo@),
            is_commit(old(repo)@, input),
            i <= visv.len(),
            fuel >= 1,
            !cached_valid(old(repo)@, old(tx)@, cache_key(f@), input),
            old(repo)@.len() < usize::MAX - 2,
            visv == visible_v(repo0, cv0, cache_key(f@), input, 1),
            walk_fold_v(f@, visv, i as int, repo@, tx@, fuel as nat) == walk_fold_v(
                f@,
                visv,
                0,
                repo0,
                cv0,
                fuel as nat,
            ),
            forall|j: int| 0 <= j < visible@.len() ==> is_commit(repo0, #[trigger] visible@[j]),
        decreases visible@.len() - i,
    {
        let ghost repo_a = repo@;
        let ghost cv_a = tx@;
        proof {
            lemma_is_commit_grow(repo0, repo@, visible@[i as int]);
        }
        match apply_to_commit(repo, tx, f, visible[i], fuel - 1) {
            Ok(x) => {
                proof {
                    assert(acm_v(f@, visv[i as int], repo_a, cv_a, (fuel - 1) as nat) == Some(
                        (x, repo@, tx@),
                    ));
                    assert(walk_fold_v(f@, visv, i as int, repo_a, cv_a, fuel as nat)
                        == walk_fold_v(f@, visv, i + 1, repo@, tx@, fuel as nat));
                }
            },
            Err(e) => {
                proof {
                    assert(acm_v(f@, visv[i as int], repo_a, cv_a, (fuel - 1) as nat) is None);
                    assert(walk_fold_v(f@, visv, i as int, repo_a, cv_a, fuel as nat) is None);
                    assert(walk_fold_v(f@, visv, 0, repo0, cv0, fuel as nat) is None);
                    assert(walk_v(f@, input, old(repo)@, old(tx)@, fuel as nat) is None);
                }
                return Err(e);
            },
        }
        proof {
            lemma_prefix_trans(repo0, repo_a, repo@);
        }
        i = i + 1;
    }
    proof {
        assert(walk_fold_v(f@, visv, visv.len() as int, repo@, tx@, fuel as nat) == Some(
            (repo@, tx@),
        ));
        lemma_is_commit_grow(repo0, repo@, input);
    }
    tx.exit_walk();
    let ghost repo_n = repo@;
    let ghost cv_n = tx@;
    let rr = apply_to_commit(repo, tx, f, input, fuel - 1);
    proof {
        lemma_prefix_trans(old(repo)@, repo0, repo@);
        assert(walk_fold_v(f@, visv, 0, repo0, cv0, fuel as nat) == Some((repo_n, cv_n)));
        match rr {
            Ok(id) => {
                assert(acm_v(f@, input, repo_n, cv_n, (fuel - 1) as nat) == Some(
                    (id, repo@, tx@),
                ));
                assert(walk_v(f@, input, old(repo)@, old(tx)@, fuel as nat) == Some(
                    (id, repo@, tx@),
                ));
            },
            Err(_) => {
                assert(acm_v(f@, input, repo_n, cv_n, (fuel - 1) as nat) is None);
                assert(walk_v(f@, input, old(repo)@, old(tx)@, fuel as nat) is None);
            },
        }
    }
    rr
}

/// Filter the whole history below `input` with a fresh transaction: the
/// result is what `walk_v` computes of the store and an empty memo table.
pub fn walk(repo: &mut Repo, f: &Filter, input: Oid) -> (r: JoshResult<Oid>)
    requires
        wf_repo(old(repo)@),
    ensures
        wf_repo(final(repo)@),
        old(repo)@.is_prefix_of(final(repo)@),
        r matches Ok(id) ==> valid_oid(final(repo)@, id),
        !is_commit(old(repo)@, input) ==> r == Ok::<Oid, JoshError>(0u64) && final(repo)@ == old(
            repo,
        )@,
        r matches Err(e) ==> (e is Parse || e is FilterNotReversible),
        ({
            let m = walk_v(
                f@,
                input,
                old(repo)@,
                Map::<(Seq<char>, Oid), Oid>::empty(),
                WALK_FUEL as nat,
            );
            match r {
                Ok(id) => m matches Some(t) && t.0 == id && t.1 == final(repo)@,
                Err(_) => m is None,
            }
        }),
{
    let mut tx = Transaction::new();
    walk2(repo, &mut tx, f, input, WALK_FUEL)
}


// ---------------------------------------------------------------------------
// Reverse lookup and inverting a filtered history
// ---------------------------------------------------------------------------

/// Recorded reverse mappings, indexed by id.
pub open spec fn bm_ok(bm: Seq<Option<Oid>>, rv: RepoV) -> bool {
    forall|j: int| 0 <= j < bm.len() ==> ((#[trigger] bm[j]) matches Some(o) ==> valid_oid(rv, o))
}

fn bm_get(bm: &Vec<Option<Oid>>, id: Oid) -> (r: Option<Oid>)
    ensures
        r == (if 0 <= id < bm@.len() {
            bm@[id as int]
        } else {
            None
        }),
{
    if id < bm.len() as u64 {
        bm[id as usize]
    } else {
        None
    }
}

/// A reverse-map entry written: the table is widened with empty slots as
/// far as needed, and the slot set.
pub open spec fn bm_put(bmv: Seq<Option<Oid>>, id: Oid, to: Oid) -> Seq<Option<Oid>> {
    let n = if bmv.len() > id + 1 {
        bmv.len() as int
    } else {
        id + 1
    };
    Seq::new(
        n as nat,
        |j: int|
            if j == id {
                Some(to)
            } else if j < bmv.len() {
                bmv[j]
            } else {
                None
            },
    )
}

fn bm_set(bm: &mut Vec<Option<Oid>>, id: Oid, to: Oid)
    requires
        id + 1 <= usize::MAX,
    ensures
        final(bm)@ == bm_put(old(bm)@, id, to),
{
    let idu = id as usize;
    let ghost oldb = bm@;
    while bm.len() <= idu
        invariant
            idu + 1 <= usize::MAX,
            oldb.len() <= bm@.len() <= idu + 1 || oldb.len() > idu,
            oldb.len() > idu ==> bm@ == oldb,
            forall|m: int| 0 <= m < oldb.len() && m < bm@.len() ==> bm@[m] == oldb[m],
            forall|m: int| oldb.len() <= m < bm@.len() ==> bm@[m] is None,
        decreases idu + 1 - bm@.len(),
    {
        bm.push(None);
    }
    bm.set(idu, Some(to));
    proof {
        assert(bm@ =~= bm_put(oldb, id, to));
    }
}

/// The scan of `find_original`: probe the ancestors of `cin` (in the
/// store `rvm` as it stood when the scan began) from id `k` downwards for
/// one whose filtered image is `filtered`; record a match in the reverse
/// map.
pub open spec fn fo_scan_v(
    f: FilterV,
    rvm: RepoV,
    cin: Oid,
    filtered: Oid,
    k: int,
    rv: RepoV,
    cv: CacheV,
    bmv: Seq<Option<Oid>>,
    fuel: nat,
) -> Option<(Oid, RepoV, CacheV, Seq<Option<Oid>>)>
    decreases k,
    when 0 <= k
{
    if k < 1 {
        Some((0, rv, cv, bmv))
    } else if reachable(rvm, cin, k as Oid) {
        match acm_v(f, k as Oid, rv, cv, fuel) {
            None => None,
            Some((a, rv1, cv1)) => if a == filtered {
                if filtered < usize::MAX {
                    Some((k as Oid, rv1, cv1, bm_put(bmv, filtered, k as Oid)))
                } else {
                    Some((k as Oid, rv1, cv1, bmv))
                }
            } else {
                fo_scan_v(f, rvm, cin, filtered, k - 1, rv1, cv1, bmv, fuel)
            },
        }
    } else {
        fo_scan_v(f, rvm, cin, filtered, k - 1, rv, cv, bmv, fuel)
    }
}

/// What `find_original` computes: the recorded or scanned original whose
/// filtered image is `filtered`; the null id when no ancestor of `cin`
/// maps to it.
pub open spec fn fo_v(
    f: FilterV,
    cin: Oid,
    filtered: Oid,
    rv: RepoV,
    cv: CacheV,
    bmv: Seq<Option<Oid>>,
    fuel: nat,
) -> Option<(Oid, RepoV, CacheV, Seq<Option<Oid>>)> {
    if cin == 0 {
        Some((0, rv, cv, bmv))
    } else if 0 <= filtered < bmv.len() && bmv[filtered as int] is Some {
        Some((bmv[filtered as int]->Some_0, rv, cv, bmv))
    } else {
        match walk_v(f, cin, rv, cv, fuel) {
            None => None,
            Some((_, rv1, cv1)) => if !is_commit(rv1, cin) {
                Some((0, rv1, cv1, bmv))
            } else if rv1.len() >= usize::MAX - 1 {
                None
            } else {
                fo_scan_v(f, rv1, cin, filtered, cin as int, rv1, cv1, bmv, fuel)
            },
        }
    }
}

/// Find an original commit among the ancestors of `contained_in` that the
/// filter maps to `filtered`; the null id when there is none.  Consults
/// and feeds the reverse map `bm`; the result and the states afterwards
/// are exactly what `fo_v` computes.
pub fn find_original(
    repo: &mut Repo,
    tx: &mut Transaction,
    bm: &mut Vec<Option<Oid>>,
    f: &Filter,
    contained_in: Oid,
    filtered: Oid,
    fuel: usize,
) -> (r: JoshResult<Oid>)
    requires
        wf_repo(old(repo)@),
        old(tx).wf(),
        bm_ok(old(bm)@, old(repo)@),
    ensures
        wf_repo(final(repo)@),
        final(tx).wf(),
        old(repo)@.is_prefix_of(final(repo)@),
        bm_ok(final(bm)@, final(repo)@),
        r matches Ok(id) ==> valid_oid(final(repo)@, id),
        contained_in == 0 ==> r == Ok::<Oid, JoshError>(0u64) && final(repo)@ == old(repo)@
            && final(tx)@ == old(tx)@ && final(bm)@ == old(bm)@,
        r matches Err(e) ==> (e is Parse || e is FilterNotReversible),
        ({
            let m = fo_v(f@, contained_in, filtered, old(repo)@, old(tx)@, old(bm)@, fuel as nat);
            match r {
                Ok(id) => m == Some((id, final(repo)@, final(tx)@, final(bm)@)),
                Err(_) => m is None,
            }
        }),
{
    if contained_in == 0 {
        proof {
            assert(final(repo)@.take(old(repo)@.len() as int) =~= old(repo)@);
        }
        return Ok(0);
    }
    match bm_get(bm, filtered) {
        Some(o) => {
            proof {
                assert(final(repo)@.take(old(repo)@.len() as int) =~= old(repo)@);
            }
            return Ok(o);
        },
        None => {},
    }
    // warm the cache for the probes below; the reverse map records only
    // filtered-to-original pairs, so the walk result itself is not stored
    match walk2(repo, tx, f, contained_in, fuel) {
        Ok(_) => {},
        Err(e) => {
            return Err(e);
        },
    }
    proof {
        assert(bm_ok(bm@, repo@));
    }
    if !repo.has_commit(contained_in) {
        return Ok(0);
    }
    if repo.len() >= usize::MAX - 1 {
        return Err(err_full());
    }
    let marks = crate::repo::ancestors_pub(repo, contained_in);
    let ghost repo1 = repo@;
    let ghost cv1 = tx@;
    let ghost bm1 = bm@;
    let mut k: usize = contained_in as usize;
    while k >= 1
        invariant
            wf_repo(repo@),
            tx.wf(),
            repo1.is_prefix_of(repo@),
            old(repo)@.is_prefix_of(repo1),
            old(repo)@.is_prefix_of(repo@),
            bm_ok(bm@, repo@),
            bm@ == bm1,
            k <= contained_in,
            contained_in <= repo1.len(),
            marks@.len() == repo1.len() + 1,
            wf_repo(repo1),
            is_commit(repo1, contained_in),
            contained_in != 0,
            bm1 == old(bm)@,
            !(0 <= filtered < old(bm)@.len() && old(bm)@[filtered as int] is Some),
            walk_v(f@, contained_in, old(repo)@, old(tx)@, fuel as nat) matches Some(t) && t.1
                == repo1 && t.2 == cv1,
            repo1.len() < usize::MAX - 1,
            forall|m: Oid|
                1 <= m <= repo1.len() ==> (marks@[m as int] == reachable(repo1, contained_in, m)),
            fo_scan_v(f@, repo1, contained_in, filtered, k as int, repo@, tx@, bm1, fuel as nat)
                == fo_scan_v(f@, repo1, contained_in, filtered, contained_in as int, repo1, cv1,
                bm1, fuel as nat),
        decreases k,
    {
        let ghost repo_a = repo@;
        let ghost cv_a = tx@;
        if marks[k] {
            proof {
                lemma_is_commit_grow(repo1, repo@, k as Oid);
            }
            let a = match apply_to_commit(repo, tx, f, k as Oid, fuel) {
                Ok(x) => x,
                Err(e) => {
                    proof {
                        assert(acm_v(f@, k as Oid, repo_a, cv_a, fuel as nat) is None);
                        assert(fo_scan_v(f@, repo1, contained_in, filtered, k as int, repo_a,
                            cv_a, bm1, fuel as nat) is None);
                    }
                    return Err(e);
                },
            };
            proof {
                lemma_prefix_trans(repo1, repo_a, repo@);
                lemma_prefix_trans(old(repo)@, repo1, repo@);
                assert(acm_v(f@, k as Oid, repo_a, cv_a, fuel as nat) == Some((a, repo@, tx@)));
                assert(bm_ok(bm@, repo@)) by {
                    assert(repo_a.is_prefix_of(repo@));
                }
            }
            if a == filtered {
                if filtered < usize::MAX as u64 {
                    bm_set(bm, filtered, k as Oid);
                    proof {
                        assert(bm@ == bm_put(bm1, filtered, k as Oid));
                        assert(bm_ok(bm@, repo@)) by {
                            assert(forall|j: int|
                                0 <= j < bm@.len() && j != filtered ==> bm@[j] == (if j
                                    < bm1.len() {
                                    bm1[j]
                                } else {
                                    None
                                }));
                        }
                    }
                }
                proof {
                    assert(fo_scan_v(f@, repo1, contained_in, filtered, k as int, repo_a, cv_a,
                        bm1, fuel as nat) == Some((k as Oid, repo@, tx@, bm@)));
                }
                return Ok(k as Oid);
            }
            proof {
                assert(fo_scan_v(f@, repo1, contained_in, filtered, k as int, repo_a, cv_a, bm1,
                    fuel as nat) == fo_scan_v(f@, repo1, contained_in, filtered, k - 1, repo@,
                    tx@, bm1, fuel as nat));
            }
        } else {
            proof {
                assert(fo_scan_v(f@, repo1, contained_in, filtered, k as int, repo@, tx@, bm1,
                    fuel as nat) == fo_scan_v(f@, repo1, contained_in, filtered, k - 1, repo@,
                    tx@, bm1, fuel as nat));
            }
        }
        k = k - 1;
    }
    proof {
        lemma_prefix_trans(old(repo)@, repo1, repo@);
        assert(fo_scan_v(f@, repo1, contained_in, filtered, 0, repo@, tx@, bm1, fuel as nat)
            == Some((0u64, repo@, tx@, bm1)));
    }
    Ok(0)
}

fn trees_contain(ts: &Vec<Tree>, t: &Tree) -> (r: bool)
    ensures
        r == exists|j: int| 0 <= j < ts@.len() && (#[trigger] ts@[j])@ == t@,
{
    let mut i: usize = 0;
    while i < ts.len()
        invariant
            i <= ts@.len(),
            forall|j: int| 0 <= j < i ==> (#[trigger] ts@[j])@ != t@,
        decreases ts@.len() - i,
    {
        if tree_eq(&ts[i], t) {
            return true;
        }
        i = i + 1;
    }
    false
}

/// The views of a list of trees.
pub open spec fn seq_of_views(ts: Seq<Tree>) -> Seq<TreeV>
    decreases ts,
{
    if ts.len() == 0 {
        Seq::<TreeV>::empty()
    } else {
        seq_of_views(ts.drop_last()).push(ts.last()@)
    }
}

pub proof fn lemma_seq_of_views(ts: Seq<Tree>)
    ensures
        seq_of_views(ts).len() == ts.len(),
        forall|i: int| 0 <= i < ts.len() ==> seq_of_views(ts)[i] == (#[trigger] ts[i])@,
    decreases ts,
{
    if ts.len() > 0 {
        lemma_seq_of_views(ts.drop_last());
        assert(forall|i: int|
            0 <= i < ts.len() - 1 ==> ts.drop_last()[i] == (#[trigger] ts[i]));
        assert(seq_of_views(ts)[ts.len() - 1] == ts[ts.len() - 1]@);
    }
}

pub proof fn lemma_seq_of_views_push(ts: Seq<Tree>, t: Tree)
    ensures
        seq_of_views(ts.push(t)) == seq_of_views(ts).push(t@),
{
    assert(ts.push(t).drop_last() =~= ts);
}

/// Whether a tree already stands among the candidates.
pub open spec fn tree_among(ts: Seq<TreeV>, t: TreeV) -> bool {
    exists|i: int| 0 <= i < ts.len() && ts[i] == t
}

/// The candidate original trees of one rebuilt commit: the inverse of its
/// tree against each resolved original parent's tree, deduplicated.
pub open spec fn cands_v(
    f: FilterV,
    revtree: TreeV,
    ops: Seq<Oid>,
    j: int,
    acc: Seq<TreeV>,
    rv: RepoV,
) -> Option<Seq<TreeV>>
    decreases ops.len() - j,
    when 0 <= j <= ops.len()
{
    if j >= ops.len() {
        Some(acc)
    } else {
        match unapply_v(f, revtree, commit_of(rv, ops[j]).tree, WS_FUEL as nat) {
            Err(_) => None,
            Ok(c) => cands_v(
                f,
                revtree,
                ops,
                j + 1,
                if tree_among(acc, c) {
                    acc
                } else {
                    acc.push(c)
                },
                rv,
            ),
        }
    }
}

/// The filtered parents of one rebuilt commit resolved to originals; a
/// parent no original maps to is dropped.
pub open spec fn resolve_v(
    f: FilterV,
    ufo: Oid,
    fparents: Seq<Oid>,
    j: int,
    acc: Seq<Oid>,
    bmv: Seq<Option<Oid>>,
    rv: RepoV,
    cv: CacheV,
) -> Option<(Seq<Oid>, RepoV, CacheV, Seq<Option<Oid>>)>
    decreases fparents.len() - j,
    when 0 <= j <= fparents.len()
{
    if j >= fparents.len() {
        Some((acc, rv, cv, bmv))
    } else {
        match fo_v(f, ufo, fparents[j], rv, cv, bmv, WALK_FUEL as nat) {
            None => None,
            Some((o, rv1, cv1, bm1)) => resolve_v(
                f,
                ufo,
                fparents,
                j + 1,
                if o != 0 {
                    acc.push(o)
                } else {
                    acc
                },
                bm1,
                rv1,
                cv1,
            ),
        }
    }
}

/// One pass over the commits to rebuild, ascending: resolve the parents,
/// invert the tree, reject an ambiguous merge, rewrite and record.
pub open spec fn uaf_loop_v(
    f: FilterV,
    ufo: Oid,
    vis: Seq<Oid>,
    k: int,
    ret: Oid,
    bmv: Seq<Option<Oid>>,
    rv: RepoV,
    cv: CacheV,
) -> Option<(UnapplyFilter, RepoV, CacheV)>
    decreases vis.len() - k,
    when 0 <= k <= vis.len()
{
    if k >= vis.len() {
        Some((UnapplyFilter::Done(ret), rv, cv))
    } else {
        let rev = vis[k];
        if 0 <= rev < bmv.len() && bmv[rev as int] is Some {
            uaf_loop_v(f, ufo, vis, k + 1, ret, bmv, rv, cv)
        } else {
            match resolve_v(f, ufo, commit_of(rv, rev).parents, 0, Seq::<Oid>::empty(), bmv, rv, cv) {
                None => None,
                Some((ops, rv1, cv1, bm1)) => {
                    let revtree = commit_of(rv1, rev).tree;
                    match cands_v(f, revtree, ops, 0, Seq::<TreeV>::empty(), rv1) {
                        None => None,
                        Some(cands) => if cands.len() >= 2 {
                            Some((UnapplyFilter::RejectMerge(cands.len() as usize), rv1, cv1))
                        } else {
                            let newtree = if cands.len() == 1 {
                                Ok(cands[0])
                            } else {
                                unapply_v(f, revtree, Seq::<EntryV>::empty(), WS_FUEL as nat)
                            };
                            match newtree {
                                Err(_) => None,
                                Ok(t) => if rv1.len() >= usize::MAX - 2 {
                                    None
                                } else {
                                    let (id, rv2) = rewrite_v(rv1, rev, ops, t);
                                    let bm2 = if rev < usize::MAX {
                                        bm_put(bm1, rev, id)
                                    } else {
                                        bm1
                                    };
                                    uaf_loop_v(f, ufo, vis, k + 1, id, bm2, rv2, cv1)
                                },
                            }
                        },
                    }
                },
            }
        }
    }
}

/// What `unapply_filter` computes: the rebuilt tip, or the rejection of
/// an ambiguous merge, or the missing-base answer.
pub open spec fn uaf_v(
    f: FilterV,
    ufo: Oid,
    oldf: Oid,
    newf: Oid,
    rv: RepoV,
    cv: CacheV,
) -> Option<(UnapplyFilter, RepoV, CacheV)> {
    if ufo == 0 {
        Some((UnapplyFilter::BranchDoesNotExist, rv, cv))
    } else if !is_commit(rv, newf) {
        Some((UnapplyFilter::Done(0), rv, cv))
    } else if rv.len() >= usize::MAX - 1 {
        None
    } else {
        let hid: Seq<Oid> = if is_commit(rv, oldf) {
            seq![oldf]
        } else {
            Seq::<Oid>::empty()
        };
        let vis = visible_list_v(rv, hid, newf, 1);
        match fo_v(f, ufo, newf, rv, cv, Seq::<Option<Oid>>::empty(), WALK_FUEL as nat) {
            None => None,
            Some((ret0, rv1, cv1, bm1)) => uaf_loop_v(f, ufo, vis, 0, ret0, bm1, rv1, cv1),
        }
    }
}

/// Rebuild, on top of the original history, the commits of a filtered
/// history between `old_filtered` and `new_filtered`.  Each rebuilt
/// commit's tree is the inverse of its filtered tree against its resolved
/// original parent; a filtered merge whose sides disagree on that inverse
/// is rejected with the number of distinct candidates.  The outcome and
/// the stores afterwards are exactly what `uaf_v` computes.
#[verifier::rlimit(60)]
pub fn unapply_filter(
    repo: &mut Repo,
    tx: &mut Transaction,
    f: &Filter,
    unfiltered_old: Oid,
    old_filtered: Oid,
    new_filtered: Oid,
) -> (r: JoshResult<UnapplyFilter>)
    requires
        wf_repo(old(repo)@),
        old(tx).wf(),
    ensures
        wf_repo(final(repo)@),
        final(tx).wf(),
        old(repo)@.is_prefix_of(final(repo)@),
        unfiltered_old == 0 ==> r == Ok::<UnapplyFilter, JoshError>(
            UnapplyFilter::BranchDoesNotExist,
        ),
        r matches Ok(u) ==> ((u is Done) ==> valid_oid(final(repo)@, u->Done_0)),
        r matches Ok(u) ==> ((u is RejectMerge) ==> u->RejectMerge_0 >= 2),
        r matches Err(e) ==> (e is Parse || e is FilterNotReversible),
        ({
            let m = uaf_v(f@, unfiltered_old, old_filtered, new_filtered, old(repo)@, old(tx)@);
            match r {
                Ok(u) => m == Some((u, final(repo)@, final(tx)@)),
                Err(_) => m is None,
            }
        }),
{
    if unfiltered_old == 0 {
        proof {
            assert(final(repo)@.take(old(repo)@.len() as int) =~= old(repo)@);
        }
        return Ok(UnapplyFilter::BranchDoesNotExist);
    }
    if !repo.has_commit(new_filtered) {
        proof {
            assert(final(repo)@.take(old(repo)@.len() as int) =~= old(repo)@);
        }
        return Ok(UnapplyFilter::Done(0));
    }
    if repo.len() >= usize::MAX - 1 {
        return Err(err_full());
    }
    let mut hidden: Vec<Oid> = Vec::new();
    if repo.has_commit(old_filtered) {
        hidden.push(old_filtered);
    }
    proof {
        assert(hidden@ =~= (if is_commit(old(repo)@, old_filtered) {
            seq![old_filtered]
        } else {
            Seq::<Oid>::empty()
        }));
    }
    let visible = visible_ancestors(repo, new_filtered, &hidden);
    let ghost visv = visible@;
    let mut bm: Vec<Option<Oid>> = Vec::new();
    let ghost repo0 = repo@;
    let mut ret: Oid = match find_original(repo, tx, &mut bm, f, unfiltered_old, new_filtered,
        WALK_FUEL) {
        Ok(x) => x,
        Err(e) => {
            proof {
                assert(fo_v(f@, unfiltered_old, new_filtered, old(repo)@, old(tx)@,
                    Seq::<Option<Oid>>::empty(), WALK_FUEL as nat) is None);
            }
            return Err(e);
        },
    };
    let ghost ret0 = ret;
    let ghost rv1 = repo@;
    let ghost cv1 = tx@;
    let ghost bm1 = bm@;
    proof {
        assert(fo_v(f@, unfiltered_old, new_filtered, old(repo)@, old(tx)@,
            Seq::<Option<Oid>>::empty(), WALK_FUEL as nat) == Some((ret0, rv1, cv1, bm1)));
    }
    let mut i: usize = 0;
    while i < visible.len()
        invariant
            wf_repo(repo@),
            tx.wf(),
            repo0 == old(repo)@,
            repo0.is_prefix_of(repo@),
            bm_ok(bm@, repo@),
            valid_oid(repo@, ret),
            unfiltered_old != 0,
            is_commit(old(repo)@, new_filtered),
            old(repo)@.len() < usize::MAX - 1,
            visv == visible@,
            visv == visible_list_v(
                old(repo)@,
                if is_commit(old(repo)@, old_filtered) {
                    seq![old_filtered]
                } else {
                    Seq::<Oid>::empty()
                },
                new_filtered,
                1,
            ),
            fo_v(f@, unfiltered_old, new_filtered, old(repo)@, old(tx)@,
                Seq::<Option<Oid>>::empty(), WALK_FUEL as nat) == Some((ret0, rv1, cv1, bm1)),
            i <= visv.len(),
            uaf_loop_v(f@, unfiltered_old, visv, i as int, ret, bm@, repo@, tx@) == uaf_loop_v(
                f@,
                unfiltered_old,
                visv,
                0,
                ret0,
                bm1,
                rv1,
                cv1,
            ),
            forall|j: int| 0 <= j < visible@.len() ==> is_commit(repo0, #[trigger] visible@[j]),
        decreases visible@.len() - i,
    {
        let rev = visible[i];
        let ghost rv_s = repo@;
        let ghost cv_s = tx@;
        let ghost bm_s = bm@;
        let ghost ret_s = ret;
        proof {
            lemma_is_commit_grow(repo0, repo@, rev);
        }
        if bm_get(&bm, rev).is_some() {
            proof {
                assert(uaf_loop_v(f@, unfiltered_old, visv, i as int, ret, bm@, repo@, tx@)
                    == uaf_loop_v(f@, unfiltered_old, visv, i + 1, ret, bm@, repo@, tx@));
            }
            i = i + 1;
            continue ;
        }
        // resolve the filtered parents to originals
        let np = repo.commit_at(rev).parents.len();
        let ghost parsrev = commit_of(rv_s, rev).parents;
        let mut oparents: Vec<Oid> = Vec::new();
        let mut j: usize = 0;
        let ghost repo_b = repo@;
        while j < np
            invariant
                wf_repo(repo@),
                tx.wf(),
                is_commit(repo@, rev),
                np == parsrev.len(),
                parsrev == commit_of(rv_s, rev).parents,
                commit_of(repo@, rev) == commit_of(rv_s, rev),
                repo_b.is_prefix_of(repo@),
                old(repo)@.is_prefix_of(repo_b),
                old(repo)@.is_prefix_of(repo@),
                repo0 == old(repo)@,
                unfiltered_old != 0,
                is_commit(old(repo)@, new_filtered),
                old(repo)@.len() < usize::MAX - 1,
                visv == visible_list_v(
                    old(repo)@,
                    if is_commit(old(repo)@, old_filtered) {
                        seq![old_filtered]
                    } else {
                        Seq::<Oid>::empty()
                    },
                    new_filtered,
                    1,
                ),
                fo_v(f@, unfiltered_old, new_filtered, old(repo)@, old(tx)@,
                    Seq::<Option<Oid>>::empty(), WALK_FUEL as nat) == Some(
                    (ret0, rv1, cv1, bm1),
                ),
                i < visv.len(),
                visv[i as int] == rev,
                !(0 <= rev < bm_s.len() && bm_s[rev as int] is Some),
                uaf_loop_v(f@, unfiltered_old, visv, i as int, ret_s, bm_s, rv_s, cv_s)
                    == uaf_loop_v(f@, unfiltered_old, visv, 0, ret0, bm1, rv1, cv1),
                rv_s == repo_b,
                ret == ret_s,
                bm_ok(bm@, repo@),
                j <= np,
                resolve_v(f@, unfiltered_old, parsrev, j as int, oparents@, bm@, repo@, tx@)
                    == resolve_v(f@, unfiltered_old, parsrev, 0, Seq::<Oid>::empty(), bm_s, rv_s,
                    cv_s),
                forall|k2: int|
                    0 <= k2 < oparents@.len() ==> is_commit(repo@, #[trigger] oparents@[k2]),
            decreases np - j,
        {
            let x = repo.commit_at(rev).parents[j];
            proof {
                assert(x == parsrev[j as int]);
            }
            let ghost repo_c = repo@;
            let ghost cv_c = tx@;
            let ghost bm_c = bm@;
            let o = match find_original(repo, tx, &mut bm, f, unfiltered_old, x, WALK_FUEL) {
                Ok(x2) => x2,
                Err(e) => {
                    proof {
                        assert(fo_v(f@, unfiltered_old, parsrev[j as int], repo_c, cv_c, bm_c,
                            WALK_FUEL as nat) is None);
                        assert(resolve_v(f@, unfiltered_old, parsrev, j as int, oparents@, bm_c,
                            repo_c, cv_c) is None);
                        assert(uaf_loop_v(f@, unfiltered_old, visv, i as int, ret_s, bm_s, rv_s,
                            cv_s) is None);
                        assert(uaf_v(f@, unfiltered_old, old_filtered, new_filtered, old(repo)@,
                            old(tx)@) is None);
                    }
                    return Err(e);
                },
            };
            let ghost op_c = oparents@;
            if o != 0 {
                oparents.push(o);
            }
            proof {
                lemma_prefix_trans(repo_b, repo_c, repo@);
                lemma_prefix_trans(old(repo)@, repo_b, repo@);
                lemma_is_commit_grow(repo_c, repo@, rev);
                lemma_commit_stable(repo_c, repo@, rev);
                assert(fo_v(f@, unfiltered_old, parsrev[j as int], repo_c, cv_c, bm_c,
                    WALK_FUEL as nat) == Some((o, repo@, tx@, bm@)));
                assert(resolve_v(f@, unfiltered_old, parsrev, j as int, op_c, bm_c, repo_c, cv_c)
                    == resolve_v(f@, unfiltered_old, parsrev, j + 1, oparents@, bm@, repo@, tx@));
                assert(forall|k2: int|
                    0 <= k2 < oparents@.len() ==> is_commit(repo@, #[trigger] oparents@[k2]));
            }
            j = j + 1;
        }
        proof {
            assert(resolve_v(f@, unfiltered_old, parsrev, parsrev.len() as int, oparents@, bm@,
                repo@, tx@) == Some((oparents@, repo@, tx@, bm@)));
        }
        // candidate original trees, one per original parent, deduplicated
        let tree = clone_tree(&repo.commit_at(rev).tree);
        let ghost treev = tree@;
        let ghost rv_r = repo@;
        let ghost cv_r = tx@;
        let ghost bm_r = bm@;
        proof {
            assert(treev == commit_of(rv_r, rev).tree);
            assert(cands_v(f@, treev, oparents@, 0, Seq::<TreeV>::empty(), rv_r) == cands_v(
                f@,
                treev,
                oparents@,
                0,
                Seq::<TreeV>::empty(),
                rv_r,
            ));
        }
        let mut cands: Vec<Tree> = Vec::new();
        let ghost opv = oparents@;
        let mut j2: usize = 0;
        while j2 < oparents.len()
            invariant
                wf_repo(repo@),
                tx.wf(),
                old(repo)@.is_prefix_of(repo@),
                repo0 == old(repo)@,
                unfiltered_old != 0,
                repo@ == rv_r,
                tx@ == cv_r,
                bm@ == bm_r,
                opv == oparents@,
                treev == tree@,
                treev == commit_of(rv_r, rev).tree,
                is_commit(repo@, rev),
                i < visv.len(),
                visv[i as int] == rev,
                !(0 <= rev < bm_s.len() && bm_s[rev as int] is Some),
                ret == ret_s,
                is_commit(old(repo)@, new_filtered),
                old(repo)@.len() < usize::MAX - 1,
                visv == visible_list_v(
                    old(repo)@,
                    if is_commit(old(repo)@, old_filtered) {
                        seq![old_filtered]
                    } else {
                        Seq::<Oid>::empty()
                    },
                    new_filtered,
                    1,
                ),
                fo_v(f@, unfiltered_old, new_filtered, old(repo)@, old(tx)@,
                    Seq::<Option<Oid>>::empty(), WALK_FUEL as nat) == Some(
                    (ret0, rv1, cv1, bm1),
                ),
                uaf_loop_v(f@, unfiltered_old, visv, i as int, ret_s, bm_s, rv_s, cv_s)
                    == uaf_loop_v(f@, unfiltered_old, visv, 0, ret0, bm1, rv1, cv1),
                resolve_v(f@, unfiltered_old, commit_of(rv_s, rev).parents, 0,
                    Seq::<Oid>::empty(), bm_s, rv_s, cv_s) == Some((opv, rv_r, cv_r, bm_r)),
                j2 <= opv.len(),
                cands_v(f@, treev, opv, j2 as int, seq_of_views(cands@), rv_r) == cands_v(
                    f@,
                    treev,
                    opv,
                    0,
                    Seq::<TreeV>::empty(),
                    rv_r,
                ),
                forall|k2: int|
                    0 <= k2 < cands@.len() ==> seq_of_views(cands@)[k2] == (
                    #[trigger] cands@[k2])@,
                forall|k2: int|
                    0 <= k2 < oparents@.len() ==> is_commit(repo@, #[trigger] oparents@[k2]),
            decreases opv.len() - j2,
        {
            let ptree = clone_tree(&repo.commit_at(oparents[j2]).tree);
            let ghost cands_c = seq_of_views(cands@);
            let cand = match unapply(f, &tree, &ptree) {
                Ok(x) => x,
                Err(e) => {
                    proof {
                        assert(unapply_v(f@, treev, commit_of(rv_r, opv[j2 as int]).tree,
                            WS_FUEL as nat) is Err);
                        assert(cands_v(f@, treev, opv, j2 as int, cands_c, rv_r) is None);
                        assert(cands_v(f@, treev, opv, 0, Seq::<TreeV>::empty(), rv_r) is None);
                        assert(uaf_loop_v(f@, unfiltered_old, visv, i as int, ret_s, bm_s, rv_s,
                            cv_s) is None);
                        assert(uaf_v(f@, unfiltered_old, old_filtered, new_filtered, old(repo)@,
                            old(tx)@) is None);
                    }
                    return Err(e);
                },
            };
            let already = trees_contain(&cands, &cand);
            proof {
                lemma_seq_of_views(cands@);
                if already {
                    let w = choose|jw: int| 0 <= jw < cands@.len() && (#[trigger] cands@[jw])@
                        == cand@;
                    assert(cands_c[w] == cand@);
                    assert(tree_among(cands_c, cand@));
                } else {
                    assert forall|jw: int| 0 <= jw < cands_c.len() implies cands_c[jw] != cand@
                        by {
                        assert(cands_c[jw] == cands@[jw]@);
                    }
                    assert(!tree_among(cands_c, cand@));
                }
            }
            if !already {
                let ghost prevc = cands@;
                cands.push(cand);
                proof {
                    lemma_seq_of_views_push(prevc, cand);
                    assert(seq_of_views(cands@) == cands_c.push(cand@));
                }
            }
            proof {
                assert(cands_v(f@, treev, opv, j2 as int, cands_c, rv_r) == cands_v(f@, treev,
                    opv, j2 + 1, seq_of_views(cands@), rv_r));
            }
            j2 = j2 + 1;
        }
        let ghost candsv = seq_of_views(cands@);
        proof {
            lemma_seq_of_views(cands@);
            assert(cands_v(f@, treev, opv, opv.len() as int, candsv, rv_r) == Some(candsv));
            assert(cands_v(f@, treev, opv, 0, Seq::<TreeV>::empty(), rv_r) == Some(candsv));
            assert(candsv.len() == cands@.len());
        }
        let new_tree: Tree = if cands.len() == 1 {
            match cands.pop() {
                Some(x) => {
                    proof {
                        assert(x@ == candsv[0]);
                    }
                    x
                },
                None => empty(),
            }
        } else if cands.len() == 0 {
            // unrelated history: invert against nothing
            let e = empty();
            match unapply(f, &tree, &e) {
                Ok(x) => x,
                Err(er) => {
                    proof {
                        assert(unapply_v(f@, treev, Seq::<EntryV>::empty(), WS_FUEL as nat)
                            is Err);
                        assert(uaf_loop_v(f@, unfiltered_old, visv, i as int, ret_s, bm_s, rv_s,
                            cv_s) is None);
                        assert(uaf_v(f@, unfiltered_old, old_filtered, new_filtered, old(repo)@,
                            old(tx)@) is None);
                    }
                    return Err(er);
                },
            }
        } else {
            proof {
                assert(candsv.len() >= 2);
                assert(uaf_loop_v(f@, unfiltered_old, visv, i as int, ret_s, bm_s, rv_s, cv_s)
                    == Some((UnapplyFilter::RejectMerge(candsv.len() as usize), repo@, tx@)));
                assert(uaf_v(f@, unfiltered_old, old_filtered, new_filtered, old(repo)@, old(tx)@)
                    == Some((UnapplyFilter::RejectMerge(cands@.len() as usize), repo@, tx@)));
            }
            return Ok(UnapplyFilter::RejectMerge(cands.len()));
        };
        if repo.len() >= usize::MAX - 2 {
            proof {
                assert(uaf_loop_v(f@, unfiltered_old, visv, i as int, ret_s, bm_s, rv_s, cv_s)
                    is None);
                assert(uaf_v(f@, unfiltered_old, old_filtered, new_filtered, old(repo)@, old(tx)@)
                    is None);
            }
            return Err(err_full());
        }
        let ghost repo_d = repo@;
        ret = match rewrite_commit(repo, rev, &oparents, &new_tree) {
            Ok(x) => x,
            Err(e) => {
                return Err(e);
            },
        };
        if rev < usize::MAX as u64 {
            bm_set(&mut bm, rev, ret);
        }
        proof {
            lemma_prefix_trans(repo0, repo_d, repo@);
            assert(bm_ok(bm@, repo@)) by {
                if rev < usize::MAX as u64 {
                    assert(bm@ == bm_put(bm_r, rev, ret));
                    assert(forall|j3: int|
                        0 <= j3 < bm@.len() && j3 != rev ==> bm@[j3] == (if j3 < bm_r.len() {
                            bm_r[j3]
                        } else {
                            None
                        }));
                }
            }
            assert(valid_oid(repo@, ret)) by {
                assert(ret == rewrite_v(repo_d, rev, oparents@, new_tree@).0);
            }
            assert(uaf_loop_v(f@, unfiltered_old, visv, i as int, ret_s, bm_s, rv_s, cv_s)
                == uaf_loop_v(f@, unfiltered_old, visv, i + 1, ret, bm@, repo@, tx@));
        }
        i = i + 1;
    }
    proof {
        assert(uaf_loop_v(f@, unfiltered_old, visv, visv.len() as int, ret, bm@, repo@, tx@)
            == Some((UnapplyFilter::Done(ret), repo@, tx@)));
        assert(uaf_v(f@, unfiltered_old, old_filtered, new_filtered, old(repo)@, old(tx)@)
            == Some((UnapplyFilter::Done(ret), repo@, tx@)));
    }
    Ok(UnapplyFilter::Done(ret))
}

// ---------------------------------------------------------------------------
// Applying a filter to refs
// ---------------------------------------------------------------------------

/// The refs the host hands the engine: a name-to-id table.  Refs are only
/// ever created or moved, never deleted.
pub struct RefStore {
    names: Vec<String>,
    targets: Vec<Oid>,
}

/// The target registered for `name`, if any.
pub open spec fn ref_lookup(names: Seq<String>, targets: Seq<Oid>, name: Seq<char>) -> Option<
    Oid,
> {
    let i = crate::cache::find_name(names, name, 0);
    if i >= names.len() || i >= targets.len() {
        None
    } else {
        Some(targets[i])
    }
}

impl RefStore {
    pub closed spec fn wf(&self) -> bool {
        self.names@.len() == self.targets@.len()
    }

    pub closed spec fn view(&self) -> Map<Seq<char>, Oid> {
        Map::new(
            |k: Seq<char>| ref_lookup(self.names@, self.targets@, k) is Some,
            |k: Seq<char>| ref_lookup(self.names@, self.targets@, k)->Some_0,
        )
    }

    pub fn new() -> (r: RefStore)
        ensures
            r@ == Map::<Seq<char>, Oid>::empty(),
            r.wf(),
    {
        let r = RefStore { names: Vec::new(), targets: Vec::new() };
        proof {
            assert(r@ =~= Map::<Seq<char>, Oid>::empty());
        }
        r
    }

    /// The target of `name`, if the ref exists.
    pub fn get(&self, name: &str) -> (r: Option<Oid>)
        ensures
            r is Some <==> self@.contains_key(name@),
            r matches Some(v) ==> v == self@[name@],
    {
        let i = crate::cache::find_name_pub(&self.names, name);
        proof {
            crate::cache::lemma_find_name(self.names@, name@, 0);
        }
        if i < self.names.len() && i < self.targets.len() {
            Some(self.targets[i])
        } else {
            None
        }
    }

    /// Point `name` at `id`, creating the ref if needed.
    pub fn set(&mut self, name: &str, id: Oid)
        requires
            old(self).wf(),
        ensures
            final(self).wf(),
            final(self)@ == old(self)@.insert(name@, id),
    {
        let i = crate::cache::find_name_pub(&self.names, name);
        proof {
            crate::cache::lemma_find_name(self.names@, name@, 0);
        }
        let ghost oldnames = self.names@;
        let ghost oldtargets = self.targets@;
        if i < self.names.len() {
            self.targets.set(i, id);
            proof {
                assert forall|k: Seq<char>| #![auto] true implies ref_lookup(
                    self.names@,
                    self.targets@,
                    k,
                ) == (if k == name@ {
                    Some(id)
                } else {
                    ref_lookup(oldnames, oldtargets, k)
                }) by {
                    crate::cache::lemma_find_name(oldnames, k, 0);
                    if k != name@ {
                        let j = crate::cache::find_name(oldnames, k, 0);
                        if j < oldnames.len() {
                            assert(j != i);
                        }
                    }
                }
                assert(self@ =~= old(self)@.insert(name@, id));
            }
        } else {
            let nv = name.to_owned();
            let ghost nvg = nv;
            self.names.push(nv);
            self.targets.push(id);
            proof {
                assert forall|k: Seq<char>| #![auto] true implies ref_lookup(
                    self.names@,
                    self.targets@,
                    k,
                ) == (if k == name@ {
                    Some(id)
                } else {
                    ref_lookup(oldnames, oldtargets, k)
                }) by {
                    crate::cache::lemma_find_name(oldnames, k, 0);
                    crate::cache::lemma_find_name(self.names@, k, 0);
                    crate::cache::lemma_find_name_push_pub(oldnames, k, 0, nvg);
                    if k != name@ {
                        let j = crate::cache::find_name(oldnames, k, 0);
                        if j < oldnames.len() {
                            assert(self.names@[j] == oldnames[j]);
                            assert(self.targets@[j] == oldtargets[j]);
                        }
                    }
                }
                assert(self@ =~= old(self)@.insert(name@, id));
            }
        }
    }
}

/// What one ref transformation computes: resolve the source, walk it,
/// count a move, and point the target at a surviving image.
pub open spec fn transform_v(
    f: FilterV,
    refsv: Map<Seq<char>, Oid>,
    from_ref: Seq<char>,
    to_ref: Seq<char>,
    rv: RepoV,
    cv: CacheV,
) -> Option<(int, RepoV, CacheV, Map<Seq<char>, Oid>)> {
    if !refsv.contains_key(from_ref) {
        Some((0, rv, cv, refsv))
    } else {
        match walk_v(f, refsv[from_ref], rv, cv, WALK_FUEL as nat) {
            None => None,
            Some((filtered, rv1, cv1)) => {
                let previous = if refsv.contains_key(to_ref) {
                    refsv[to_ref]
                } else {
                    0
                };
                let count: int = if filtered != previous {
                    1
                } else {
                    0
                };
                let refs2 = if filtered != 0 {
                    refsv.insert(to_ref, filtered)
                } else {
                    refsv
                };
                Some((count, rv1, cv1, refs2))
            },
        }
    }
}

/// The ref pairs transformed left to right, moves counted.
pub open spec fn refs_fold_v(
    f: FilterV,
    pairs: Seq<(String, String)>,
    k: int,
    count: int,
    rv: RepoV,
    cv: CacheV,
    refsv: Map<Seq<char>, Oid>,
) -> Option<(int, RepoV, CacheV, Map<Seq<char>, Oid>)>
    decreases pairs.len() - k,
    when 0 <= k <= pairs.len()
{
    if k >= pairs.len() {
        Some((count, rv, cv, refsv))
    } else {
        match transform_v(f, refsv, pairs[k].0@, pairs[k].1@, rv, cv) {
            None => None,
            Some((c, rv1, cv1, refs1)) => refs_fold_v(f, pairs, k + 1, count + c, rv1, cv1, refs1),
        }
    }
}

/// Filter the history at `from_ref` and point `to_ref` at the outcome.
/// Counts one update when the target moves; a vanished filtered history
/// (the null id) never moves a ref, and a missing source ref does
/// nothing.
pub fn transform_commit(
    repo: &mut Repo,
    tx: &mut Transaction,
    refs: &mut RefStore,
    f: &Filter,
    from_ref: &str,
    to_ref: &str,
) -> (r: JoshResult<usize>)
    requires
        wf_repo(old(repo)@),
        old(tx).wf(),
        old(refs).wf(),
    ensures
        wf_repo(final(repo)@),
        final(tx).wf(),
        final(refs).wf(),
        old(repo)@.is_prefix_of(final(repo)@),
        r matches Ok(c) ==> c <= 1,
        r matches Err(e) ==> (e is Parse || e is FilterNotReversible),
        ({
            let m = transform_v(f@, old(refs)@, from_ref@, to_ref@, old(repo)@, old(tx)@);
            match r {
                Ok(c) => m == Some((c as int, final(repo)@, final(tx)@, final(refs)@)),
                Err(_) => m is None,
            }
        }),
{
    let original = match refs.get(from_ref) {
        Some(o) => o,
        None => {
            proof {
                assert(final(repo)@.take(old(repo)@.len() as int) =~= old(repo)@);
            }
            return Ok(0);
        },
    };
    let filtered = match walk2(repo, tx, f, original, WALK_FUEL) {
        Ok(x) => x,
        Err(e) => {
            return Err(e);
        },
    };
    let previous = match refs.get(to_ref) {
        Some(p) => p,
        None => 0,
    };
    let count: usize = if filtered != previous {
        1
    } else {
        0
    };
    if filtered != 0 {
        refs.set(to_ref, filtered);
    }
    Ok(count)
}

/// Filter the history of each `(from, to)` pair and update the `to` refs;
/// the number of refs that moved.
pub fn apply_filter_to_refs(
    repo: &mut Repo,
    tx: &mut Transaction,
    refs: &mut RefStore,
    f: &Filter,
    pairs: &Vec<(String, String)>,
) -> (r: JoshResult<usize>)
    requires
        wf_repo(old(repo)@),
        old(tx).wf(),
        old(refs).wf(),
    ensures
        wf_repo(final(repo)@),
        final(tx).wf(),
        final(refs).wf(),
        old(repo)@.is_prefix_of(final(repo)@),
        r matches Ok(c) ==> c <= pairs@.len(),
        r matches Err(e) ==> (e is Parse || e is FilterNotReversible),
        ({
            let m = refs_fold_v(f@, pairs@, 0, 0, old(repo)@, old(tx)@, old(refs)@);
            match r {
                Ok(c) => m == Some((c as int, final(repo)@, final(tx)@, final(refs)@)),
                Err(_) => m is None,
            }
        }),
{
    let mut count: usize = 0;
    let mut i: usize = 0;
    let ghost repo0 = repo@;
    while i < pairs.len()
        invariant
            wf_repo(repo@),
            tx.wf(),
            refs.wf(),
            repo0 == old(repo)@,
            repo0.is_prefix_of(repo@),
            i <= pairs@.len(),
            count <= i,
            refs_fold_v(f@, pairs@, i as int, count as int, repo@, tx@, refs@) == refs_fold_v(
                f@,
                pairs@,
                0,
                0,
                old(repo)@,
                old(tx)@,
                old(refs)@,
            ),
        decreases pairs@.len() - i,
    {
        let ghost repo_a = repo@;
        let ghost cv_a = tx@;
        let ghost refs_a = refs@;
        let ghost count_a = count as int;
        let c = match transform_commit(repo, tx, refs, f, pairs[i].0.as_str(), pairs[i].1.as_str())
        {
            Ok(x) => x,
            Err(e) => {
                proof {
                    assert(transform_v(f@, refs_a, pairs@[i as int].0@, pairs@[i as int].1@,
                        repo_a, cv_a) is None);
                    assert(refs_fold_v(f@, pairs@, i as int, count_a, repo_a, cv_a, refs_a)
                        is None);
                }
                return Err(e);
            },
        };
        proof {
            lemma_prefix_trans(repo0, repo_a, repo@);
            assert(transform_v(f@, refs_a, pairs@[i as int].0@, pairs@[i as int].1@, repo_a, cv_a)
                == Some((c as int, repo@, tx@, refs@)));
            assert(refs_fold_v(f@, pairs@, i as int, count_a, repo_a, cv_a, refs_a)
                == refs_fold_v(f@, pairs@, i + 1, count_a + c, repo@, tx@, refs@));
        }
        count = count + c;
        i = i + 1;
    }
    proof {
        assert(refs_fold_v(f@, pairs@, pairs@.len() as int, count as int, repo@, tx@, refs@)
            == Some((count as int, repo@, tx@, refs@)));
    }
    Ok(count)
}

} // verus!
