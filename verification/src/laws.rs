use vstd::prelude::*;
use crate::tree::{TreeV, EntryV, ItemV, wf_tree, get_path_v, put_path_v, lemma_get_put_path,
    overlay_v, lemma_overlay_unfold, lemma_lex_trichotomy, lemma_lex_trans};
use crate::apply::{apply_v, apply_t, unapply_t, compose_fold_v, TErr};
use crate::filter::{FilterV, render};
use crate::repo::{RepoV, Oid, commit_of, is_commit, wf_repo, have_common_ancestor};
use crate::history::{cfc_v, rewrite_v, select_parents_v, affects_filtered, all_diffs_empty,
    nonzero_from, CacheV, cached_valid, visible_v, hidden_by_known, uaf_loop_v, resolve_v,
    cands_v, bm_put};
use crate::repo::{reachable, lemma_reachable_le};
use crate::UnapplyFilter;

verus! {

// ===========================================================================
// The laws of the filter algebra.
// ===========================================================================

/// The identity filter maps every tree to itself, and its spec string is
/// ":nop".
pub proof fn law_identity(t: TreeV)
    ensures
        apply_t(FilterV::Nop, t) == Ok::<TreeV, TErr>(t),
        render(FilterV::Nop) == ":nop"@,
{
}

/// The empty filter maps every tree to the empty tree.
pub proof fn law_empty_absorbs(t: TreeV)
    ensures
        apply_t(FilterV::Empty, t) == Ok::<TreeV, TErr>(Seq::<EntryV>::empty()),
{
}

/// A chain applies its members in order, so chaining is associative.
pub proof fn law_chain_assoc(a: FilterV, b: FilterV, c: FilterV, t: TreeV, fuel: nat)
    ensures
        apply_v(
            FilterV::Chain(Box::new(FilterV::Chain(Box::new(a), Box::new(b))), Box::new(c)),
            t,
            fuel,
        ) == apply_v(
            FilterV::Chain(Box::new(a), Box::new(FilterV::Chain(Box::new(b), Box::new(c)))),
            t,
            fuel,
        ),
{
    let lhs = FilterV::Chain(Box::new(FilterV::Chain(Box::new(a), Box::new(b))), Box::new(c));
    let rhs = FilterV::Chain(Box::new(a), Box::new(FilterV::Chain(Box::new(b), Box::new(c))));
    let ab = FilterV::Chain(Box::new(a), Box::new(b));
    let bc = FilterV::Chain(Box::new(b), Box::new(c));
    match apply_v(a, t, fuel) {
        Ok(t1) => {
            assert(apply_v(rhs, t, fuel) == apply_v(bc, t1, fuel));
            match apply_v(b, t1, fuel) {
                Ok(t2) => {
                    assert(apply_v(ab, t, fuel) == Ok::<TreeV, TErr>(t2));
                    assert(apply_v(lhs, t, fuel) == apply_v(c, t2, fuel));
                    assert(apply_v(bc, t1, fuel) == apply_v(c, t2, fuel));
                },
                Err(k) => {
                    assert(apply_v(ab, t, fuel) == Err::<TreeV, TErr>(k));
                    assert(apply_v(lhs, t, fuel) == Err::<TreeV, TErr>(k));
                    assert(apply_v(bc, t1, fuel) == Err::<TreeV, TErr>(k));
                },
            }
        },
        Err(k) => {
            assert(apply_v(ab, t, fuel) == Err::<TreeV, TErr>(k));
            assert(apply_v(lhs, t, fuel) == Err::<TreeV, TErr>(k));
            assert(apply_v(rhs, t, fuel) == Err::<TreeV, TErr>(k));
        },
    }
}

/// Round trip for the identity: what the identity reconstructs, the
/// identity maps back.
pub proof fn law_roundtrip_nop(t: TreeV, parent: TreeV)
    ensures
        unapply_t(FilterV::Nop, t, parent) == Ok::<TreeV, TErr>(t),
        apply_t(FilterV::Nop, t) == Ok::<TreeV, TErr>(t),
{
}

/// Round trip for a subdirectory filter: reconstructing any filtered tree
/// onto a canonical base and filtering again yields the filtered tree.
pub proof fn law_roundtrip_subdir(p: Seq<Seq<char>>, t: TreeV, parent: TreeV)
    requires
        wf_tree(parent),
        p.len() > 0,
    ensures
        unapply_t(FilterV::Subdir(p), t, parent) matches Ok(u) && apply_t(FilterV::Subdir(p), u)
            == Ok::<TreeV, TErr>(t),
{
    let u = put_path_v(parent, p, ItemV::Dir(t));
    assert(unapply_t(FilterV::Subdir(p), t, parent) == Ok::<TreeV, TErr>(u));
    lemma_get_put_path(parent, p, ItemV::Dir(t));
    if t.len() == 0 {
        assert(get_path_v(u, p) is None);
        assert(apply_t(FilterV::Subdir(p), u) == Ok::<TreeV, TErr>(Seq::<EntryV>::empty()));
        assert(Seq::<EntryV>::empty() =~= t);
    } else {
        assert(get_path_v(u, p) == Some(ItemV::Dir(t)));
    }
}

/// Round trip for a prefix filter: a tree the filter can produce is
/// reconstructed and mapped back to itself.
pub proof fn law_roundtrip_prefix(p: Seq<Seq<char>>, s: TreeV, t: TreeV, parent: TreeV)
    requires
        p.len() > 0,
        apply_t(FilterV::Prefix(p), s) == Ok::<TreeV, TErr>(t),
    ensures
        unapply_t(FilterV::Prefix(p), t, parent) matches Ok(u) && apply_t(FilterV::Prefix(p), u)
            == Ok::<TreeV, TErr>(t),
{
    assert(t == put_path_v(Seq::<EntryV>::empty(), p, ItemV::Dir(s)));
    assert(wf_tree(Seq::<EntryV>::empty()));
    lemma_get_put_path(Seq::<EntryV>::empty(), p, ItemV::Dir(s));
    if s.len() == 0 {
        assert(get_path_v(t, p) is None);
        let u = Seq::<EntryV>::empty();
        assert(unapply_t(FilterV::Prefix(p), t, parent) == Ok::<TreeV, TErr>(u));
        assert(apply_t(FilterV::Prefix(p), u) == Ok::<TreeV, TErr>(put_path_v(u, p, ItemV::Dir(u))));
        lemma_get_put_path(Seq::<EntryV>::empty(), p, ItemV::Dir(Seq::<EntryV>::empty()));
        assert(put_path_v(u, p, ItemV::Dir(u)) =~= t) by {
            lemma_put_path_empty_dir(u, p);
            assert(s =~= Seq::<EntryV>::empty());
            assert(t == put_path_v(Seq::<EntryV>::empty(), p, ItemV::Dir(Seq::<EntryV>::empty())));
            lemma_put_path_empty_dir(Seq::<EntryV>::empty(), p);
            assert(t =~= Seq::<EntryV>::empty());
        }
    } else {
        assert(get_path_v(t, p) == Some(ItemV::Dir(s)));
        assert(unapply_t(FilterV::Prefix(p), t, parent) == Ok::<TreeV, TErr>(s));
    }
}

/// Round trip for a single-file filter: a tree the filter can produce is
/// reconstructed onto any canonical base and mapped back to itself.
pub proof fn law_roundtrip_file(p: Seq<Seq<char>>, s: TreeV, t: TreeV, parent: TreeV)
    requires
        wf_tree(parent),
        p.len() > 0,
        apply_t(FilterV::File(p), s) == Ok::<TreeV, TErr>(t),
    ensures
        unapply_t(FilterV::File(p), t, parent) matches Ok(u) && apply_t(FilterV::File(p), u)
            == Ok::<TreeV, TErr>(t),
{
    match get_path_v(s, p) {
        Some(ItemV::Blob(b)) => {
            assert(t == put_path_v(Seq::<EntryV>::empty(), p, ItemV::Blob(b)));
            assert(wf_tree(Seq::<EntryV>::empty()));
            lemma_get_put_path(Seq::<EntryV>::empty(), p, ItemV::Blob(b));
            assert(get_path_v(t, p) == Some(ItemV::Blob(b)));
            let u = put_path_v(parent, p, ItemV::Blob(b));
            assert(unapply_t(FilterV::File(p), t, parent) == Ok::<TreeV, TErr>(u));
            lemma_get_put_path(parent, p, ItemV::Blob(b));
            assert(get_path_v(u, p) == Some(ItemV::Blob(b)));
            assert(apply_t(FilterV::File(p), u) == Ok::<TreeV, TErr>(
                put_path_v(Seq::<EntryV>::empty(), p, ItemV::Blob(b)),
            ));
        },
        _ => {
            // the blob is absent: everything collapses to the empty tree
            assert(t =~= Seq::<EntryV>::empty());
            assert(get_path_v(t, p) is None) by {
                lemma_lookup_empty(t, p);
            }
            assert(unapply_t(FilterV::File(p), t, parent) == Ok::<TreeV, TErr>(
                Seq::<EntryV>::empty(),
            ));
            assert(apply_t(FilterV::File(p), Seq::<EntryV>::empty()) == Ok::<TreeV, TErr>(
                Seq::<EntryV>::empty(),
            )) by {
                lemma_lookup_empty(Seq::<EntryV>::empty(), p);
            }
        },
    }
}

/// Nothing can be found in the empty tree.
proof fn lemma_lookup_empty(t: TreeV, p: Seq<Seq<char>>)
    requires
        t.len() == 0,
        p.len() > 0,
    ensures
        get_path_v(t, p) is None,
{
    assert(crate::tree::lookup_v(t, p[0]) is None);
}

/// Writing an empty subtree along a path into the empty tree leaves the
/// empty tree.
proof fn lemma_put_path_empty_dir(u: TreeV, p: Seq<Seq<char>>)
    requires
        u == Seq::<EntryV>::empty(),
        p.len() > 0,
    ensures
        put_path_v(u, p, ItemV::Dir(Seq::<EntryV>::empty())).len() == 0,
    decreases p.len(),
{
    if p.len() == 1 {
        assert(put_path_v(u, p, ItemV::Dir(Seq::<EntryV>::empty())) == crate::tree::remove_entry_v(
            u,
            p[0],
        ));
    } else {
        lemma_put_path_empty_dir(u, p.skip(1));
        let sub = put_path_v(Seq::<EntryV>::empty(), p.skip(1), ItemV::Dir(Seq::<EntryV>::empty()));
        assert(sub.len() == 0);
        assert(put_path_v(u, p, ItemV::Dir(Seq::<EntryV>::empty())) == crate::tree::insert_entry_v(
            u,
            p[0],
            ItemV::Dir(sub),
        ));
        assert(crate::tree::is_empty_dir(ItemV::Dir(sub)));
    }
}


/// No name appears on both sides; the overlay of such trees is a plain
/// ordered union.
pub open spec fn names_disjoint(x: TreeV, y: TreeV) -> bool {
    forall|i: int, j: int| 0 <= i < x.len() && 0 <= j < y.len() ==> x[i].name != y[j].name
}

/// The overlay of trees without shared names is associative.
pub proof fn lemma_overlay_disjoint_assoc(a: TreeV, b: TreeV, c: TreeV)
    requires
        names_disjoint(a, b),
        names_disjoint(b, c),
        names_disjoint(a, c),
    ensures
        overlay_v(overlay_v(a, b), c) == overlay_v(a, overlay_v(b, c)),
    decreases a.len() + b.len() + c.len(),
{
    lemma_overlay_unfold(a, b);
    lemma_overlay_unfold(b, c);
    if a.len() == 0 {
        lemma_overlay_unfold(b, c);
        lemma_overlay_unfold(a, overlay_v(b, c));
    } else if b.len() == 0 {
        lemma_overlay_unfold(a, c);
    } else if c.len() == 0 {
        lemma_overlay_unfold(overlay_v(a, b), c);
    } else {
        let an = a[0].name;
        let bn = b[0].name;
        let cn = c[0].name;
        assert(an != bn && bn != cn && an != cn);
        if !lex_pair(an, bn) {
            lemma_lex_trichotomy(an, bn);
        }
        if !lex_pair(bn, cn) {
            lemma_lex_trichotomy(bn, cn);
        }
        if !lex_pair(an, cn) {
            lemma_lex_trichotomy(an, cn);
        }
        let ab = overlay_v(a, b);
        let bc = overlay_v(b, c);
        if crate::tree::lex_lt(an, bn) {
            assert(ab == seq![a[0]] + overlay_v(a.skip(1), b));
            if crate::tree::lex_lt(an, cn) {
                // a's head goes first on both sides
                lemma_overlay_unfold(ab, c);
                assert(ab[0] == a[0]);
                assert(ab.skip(1) =~= overlay_v(a.skip(1), b));
                assert(overlay_v(ab, c) == seq![a[0]] + overlay_v(overlay_v(a.skip(1), b), c));
                // the head of bc is b's or c's, both above an
                assert(bc.len() > 0 && (bc[0] == b[0] || bc[0] == c[0]));
                assert(crate::tree::lex_lt(an, bc[0].name));
                lemma_overlay_unfold(a, bc);
                assert(overlay_v(a, bc) == seq![a[0]] + overlay_v(a.skip(1), bc));
                sub_disjoint(a, b, c);
                lemma_overlay_disjoint_assoc(a.skip(1), b, c);
            } else {
                // c's head goes first on both sides
                assert(crate::tree::lex_lt(cn, an));
                lemma_lex_trans(cn, an, bn);
                lemma_overlay_unfold(ab, c);
                assert(ab[0] == a[0]);
                assert(overlay_v(ab, c) == seq![c[0]] + overlay_v(ab, c.skip(1)));
                assert(bc == seq![c[0]] + overlay_v(b, c.skip(1)));
                lemma_overlay_unfold(a, bc);
                assert(bc.skip(1) =~= overlay_v(b, c.skip(1)));
                assert(overlay_v(a, bc) == seq![c[0]] + overlay_v(a, overlay_v(b, c.skip(1))));
                sub_disjoint_c(a, b, c);
                lemma_overlay_disjoint_assoc(a, b, c.skip(1));
            }
        } else {
            assert(crate::tree::lex_lt(bn, an));
            assert(ab == seq![b[0]] + overlay_v(a, b.skip(1)));
            if crate::tree::lex_lt(bn, cn) {
                // b's head goes first on both sides
                lemma_overlay_unfold(ab, c);
                assert(ab[0] == b[0]);
                assert(ab.skip(1) =~= overlay_v(a, b.skip(1)));
                assert(overlay_v(ab, c) == seq![b[0]] + overlay_v(overlay_v(a, b.skip(1)), c));
                assert(bc == seq![b[0]] + overlay_v(b.skip(1), c));
                lemma_overlay_unfold(a, bc);
                assert(bc.skip(1) =~= overlay_v(b.skip(1), c));
                assert(overlay_v(a, bc) == seq![b[0]] + overlay_v(a, overlay_v(b.skip(1), c)));
                sub_disjoint_b(a, b, c);
                lemma_overlay_disjoint_assoc(a, b.skip(1), c);
            } else {
                // c's head goes first on both sides
                assert(crate::tree::lex_lt(cn, bn));
                lemma_lex_trans(cn, bn, an);
                lemma_overlay_unfold(ab, c);
                assert(ab[0] == b[0]);
                assert(overlay_v(ab, c) == seq![c[0]] + overlay_v(ab, c.skip(1)));
                assert(bc == seq![c[0]] + overlay_v(b, c.skip(1)));
                lemma_overlay_unfold(a, bc);
                assert(bc.skip(1) =~= overlay_v(b, c.skip(1)));
                assert(overlay_v(a, bc) == seq![c[0]] + overlay_v(a, overlay_v(b, c.skip(1))));
                sub_disjoint_c(a, b, c);
                lemma_overlay_disjoint_assoc(a, b, c.skip(1));
            }
        }
    }
}

/// One of two different names is below the other.
spec fn lex_pair(x: Seq<char>, y: Seq<char>) -> bool {
    crate::tree::lex_lt(x, y) || crate::tree::lex_lt(y, x)
}

proof fn sub_disjoint(a: TreeV, b: TreeV, c: TreeV)
    requires
        names_disjoint(a, b),
        names_disjoint(a, c),
        a.len() > 0,
    ensures
        names_disjoint(a.skip(1), b),
        names_disjoint(a.skip(1), c),
{
    assert(forall|i: int| 0 <= i < a.skip(1).len() ==> a.skip(1)[i] == a[i + 1]);
}

proof fn sub_disjoint_b(a: TreeV, b: TreeV, c: TreeV)
    requires
        names_disjoint(a, b),
        names_disjoint(b, c),
        b.len() > 0,
    ensures
        names_disjoint(a, b.skip(1)),
        names_disjoint(b.skip(1), c),
{
    assert(forall|i: int| 0 <= i < b.skip(1).len() ==> b.skip(1)[i] == b[i + 1]);
}

proof fn sub_disjoint_c(a: TreeV, b: TreeV, c: TreeV)
    requires
        names_disjoint(b, c),
        names_disjoint(a, c),
        c.len() > 0,
    ensures
        names_disjoint(b, c.skip(1)),
        names_disjoint(a, c.skip(1)),
{
    assert(forall|i: int| 0 <= i < c.skip(1).len() ==> c.skip(1)[i] == c[i + 1]);
}


/// Compose associativity: grouping the members of a compose group does
/// not change the result, for members whose outputs share no entry name.
/// (With a shared name the overlay merges or overrides, and the grouping
/// decides what merges with what.)
pub proof fn law_compose_assoc(
    af: FilterV,
    bf: FilterV,
    cf: FilterV,
    t: TreeV,
    fuel: nat,
    ta: TreeV,
    tb: TreeV,
    tc: TreeV,
)
    requires
        apply_v(af, t, fuel) == Ok::<TreeV, TErr>(ta),
        apply_v(bf, t, fuel) == Ok::<TreeV, TErr>(tb),
        apply_v(cf, t, fuel) == Ok::<TreeV, TErr>(tc),
        names_disjoint(ta, tb),
        names_disjoint(tb, tc),
        names_disjoint(ta, tc),
    ensures
        apply_v(
            FilterV::Compose(seq![af, FilterV::Compose(seq![bf, cf])]),
            t,
            fuel,
        ) == apply_v(FilterV::Compose(seq![af, bf, cf]), t, fuel),
{
    let e = Seq::<EntryV>::empty();
    let inner = FilterV::Compose(seq![bf, cf]);
    let nested = seq![af, inner];
    let flat = seq![af, bf, cf];
    lemma_overlay_empty_left(ta);
    lemma_overlay_empty_left(tb);

    // the inner group
    assert(seq![bf, cf][0] == bf && seq![bf, cf][1] == cf);
    assert(compose_fold_v(seq![bf, cf], t, fuel, 2, overlay_v(overlay_v(e, tb), tc)) == Ok::<TreeV, TErr>(
        overlay_v(overlay_v(e, tb), tc),
    ));
    assert(compose_fold_v(seq![bf, cf], t, fuel, 1, overlay_v(e, tb)) == Ok::<TreeV, TErr>(
        overlay_v(overlay_v(e, tb), tc),
    ));
    assert(compose_fold_v(seq![bf, cf], t, fuel, 0, e) == Ok::<TreeV, TErr>(overlay_v(overlay_v(e, tb), tc)));
    assert(apply_v(inner, t, fuel) == Ok::<TreeV, TErr>(overlay_v(tb, tc)));

    // the nested group
    assert(nested[0] == af && nested[1] == inner);
    assert(compose_fold_v(nested, t, fuel, 2, overlay_v(overlay_v(e, ta), overlay_v(tb, tc)))
        == Ok::<TreeV, TErr>(overlay_v(overlay_v(e, ta), overlay_v(tb, tc))));
    assert(compose_fold_v(nested, t, fuel, 1, overlay_v(e, ta)) == Ok::<TreeV, TErr>(
        overlay_v(overlay_v(e, ta), overlay_v(tb, tc)),
    ));
    assert(compose_fold_v(nested, t, fuel, 0, e) == Ok::<TreeV, TErr>(
        overlay_v(overlay_v(e, ta), overlay_v(tb, tc)),
    ));
    assert(apply_v(FilterV::Compose(nested), t, fuel) == Ok::<TreeV, TErr>(overlay_v(ta, overlay_v(tb, tc))));

    // the flat group
    assert(flat[0] == af && flat[1] == bf && flat[2] == cf);
    assert(compose_fold_v(flat, t, fuel, 3, overlay_v(overlay_v(overlay_v(e, ta), tb), tc))
        == Ok::<TreeV, TErr>(overlay_v(overlay_v(overlay_v(e, ta), tb), tc)));
    assert(compose_fold_v(flat, t, fuel, 2, overlay_v(overlay_v(e, ta), tb)) == Ok::<TreeV, TErr>(
        overlay_v(overlay_v(overlay_v(e, ta), tb), tc),
    ));
    assert(compose_fold_v(flat, t, fuel, 1, overlay_v(e, ta)) == Ok::<TreeV, TErr>(
        overlay_v(overlay_v(overlay_v(e, ta), tb), tc),
    ));
    assert(compose_fold_v(flat, t, fuel, 0, e) == Ok::<TreeV, TErr>(
        overlay_v(overlay_v(overlay_v(e, ta), tb), tc),
    ));
    assert(apply_v(FilterV::Compose(flat), t, fuel) == Ok::<TreeV, TErr>(
        overlay_v(overlay_v(ta, tb), tc),
    ));

    lemma_overlay_disjoint_assoc(ta, tb, tc);
}

/// An overlay onto the empty tree is the other tree.
proof fn lemma_overlay_empty_left(x: TreeV)
    ensures
        overlay_v(Seq::<EntryV>::empty(), x) == x,
{
    lemma_overlay_unfold(Seq::<EntryV>::empty(), x);
}

/// Signature preservation: a commit whose filtered tree and filtered
/// parents are its own tree and parents is passed through unchanged, so a
/// signed commit keeps its identity.  The one exception the engine makes
/// is a merge without a merge base, whose empty-tree parents are dropped;
/// the premise excludes that shape.
pub proof fn law_signature_preservation(rv: RepoV, c: Oid)
    requires
        wf_repo(rv),
        is_commit(rv, c),
        commit_of(rv, c).parents.len() > 1 ==> have_common_ancestor(rv, commit_of(rv, c).parents),
    ensures
        cfc_v(rv, c, commit_of(rv, c).parents, commit_of(rv, c).tree).0 == c,
        cfc_v(rv, c, commit_of(rv, c).parents, commit_of(rv, c).tree).1 == rv,
{
    let parents = commit_of(rv, c).parents;
    let tree = commit_of(rv, c).tree;
    lemma_nonzero_id(rv, c, parents, 0);
    assert(nonzero_from(parents, 0) =~= parents.skip(0));
    assert(parents.skip(0) =~= parents);
    let nz = nonzero_from(parents, 0);
    assert(nz == parents);
    let initial_merge = nz.len() > 1 && !have_common_ancestor(rv, nz);
    assert(!initial_merge);
    let selected = select_parents_v(rv, c, tree, parents);
    if affects_filtered(rv, tree, parents) {
        assert(selected == parents);
    } else {
        assert forall|j: int| 0 <= j < commit_of(rv, c).parents.len() implies commit_of(
            rv,
            #[trigger] commit_of(rv, c).parents[j],
        ).tree == commit_of(rv, c).tree by {
            assert(!(commit_of(rv, parents[j]).tree != tree));
        }
        assert(all_diffs_empty(rv, c));
        assert(selected == parents);
    }
    assert(rewrite_v(rv, c, selected, tree) == (c, rv));
    if selected.len() == 0 && !(commit_of(rv, c).parents.len() == 0 && commit_of(rv, c).tree.len()
        == 0) {
        assert(parents.len() == 0);
        assert(commit_of(rv, c).tree.len() != 0);
        assert(nz.len() == 0);
    }
}

/// In a canonical store the parents of a commit are all real commits, so
/// dropping null ids drops nothing.
proof fn lemma_nonzero_id(rv: RepoV, c: Oid, parents: Seq<Oid>, i: int)
    requires
        wf_repo(rv),
        is_commit(rv, c),
        parents == commit_of(rv, c).parents,
        0 <= i <= parents.len(),
    ensures
        nonzero_from(parents, i) == parents.skip(i),
    decreases parents.len() - i,
{
    if i < parents.len() {
        assert(parents[i] != 0) by {
            assert(rv[c - 1].parents[i] >= 1);
        }
        lemma_nonzero_id(rv, c, parents, i + 1);
        assert(nonzero_from(parents, i) =~= parents.skip(i)) by {
            assert(parents.skip(i) =~= seq![parents[i]] + parents.skip(i + 1));
        }
    } else {
        assert(nonzero_from(parents, i) =~= parents.skip(i));
    }
}


/// Spec round trip for the atomic filters: parsing the printed form
/// gives the filter back.
pub proof fn law_spec_roundtrip_atoms()
    ensures
        crate::parse::parse_v(render(FilterV::Nop)) == Some(FilterV::Nop),
        crate::parse::parse_v(render(FilterV::Empty)) == Some(FilterV::Empty),
        crate::parse::parse_v(render(FilterV::Dirs)) == Some(FilterV::Dirs),
        crate::parse::parse_v(render(FilterV::Fold)) == Some(FilterV::Fold),
        crate::parse::parse_v(render(FilterV::Squash)) == Some(FilterV::Squash),
{
    reveal_strlit(":nop");
    reveal_strlit(":empty");
    reveal_strlit(":DIRS");
    reveal_strlit(":FOLD");
    reveal_strlit(":SQUASH");
    let nop = ":nop"@;
    let emp = ":empty"@;
    let dir = ":DIRS"@;
    let fld = ":FOLD"@;
    let sqa = ":SQUASH"@;
    assert(crate::parse::kw_at(nop, 0, nop)) by {
        assert(nop.subrange(0, 4) =~= nop);
    }
    assert(crate::parse::parse_atom_v(nop, 0, (crate::parse::parse_fuel(4) - 1) as nat) == Some(
        (FilterV::Nop, 4int),
    ));
    lemma_atom_parses(nop, FilterV::Nop);

    assert(!crate::parse::kw_at(emp, 0, nop)) by {
        assert(emp.subrange(0, 4)[1] == emp[1]);
    }
    assert(crate::parse::kw_at(emp, 0, emp)) by {
        assert(emp.subrange(0, 6) =~= emp);
    }
    assert(crate::parse::parse_atom_v(emp, 0, (crate::parse::parse_fuel(6) - 1) as nat) == Some(
        (FilterV::Empty, 6int),
    ));
    lemma_atom_parses(emp, FilterV::Empty);

    assert(!crate::parse::kw_at(dir, 0, nop)) by {
        assert(dir.subrange(0, 4)[1] == dir[1]);
    }
    assert(!crate::parse::kw_at(dir, 0, emp));
    assert(crate::parse::kw_at(dir, 0, dir)) by {
        assert(dir.subrange(0, 5) =~= dir);
    }
    assert(crate::parse::parse_atom_v(dir, 0, (crate::parse::parse_fuel(5) - 1) as nat) == Some(
        (FilterV::Dirs, 5int),
    ));
    lemma_atom_parses(dir, FilterV::Dirs);

    assert(!crate::parse::kw_at(fld, 0, nop)) by {
        assert(fld.subrange(0, 4)[1] == fld[1]);
    }
    assert(!crate::parse::kw_at(fld, 0, emp));
    assert(!crate::parse::kw_at(fld, 0, dir)) by {
        assert(fld.subrange(0, 5)[1] == fld[1]);
    }
    assert(crate::parse::kw_at(fld, 0, fld)) by {
        assert(fld.subrange(0, 5) =~= fld);
    }
    assert(crate::parse::parse_atom_v(fld, 0, (crate::parse::parse_fuel(5) - 1) as nat) == Some(
        (FilterV::Fold, 5int),
    ));
    lemma_atom_parses(fld, FilterV::Fold);

    assert(!crate::parse::kw_at(sqa, 0, nop)) by {
        assert(sqa.subrange(0, 4)[1] == sqa[1]);
    }
    assert(!crate::parse::kw_at(sqa, 0, emp)) by {
        assert(sqa.subrange(0, 6)[1] == sqa[1]);
    }
    assert(!crate::parse::kw_at(sqa, 0, dir)) by {
        assert(sqa.subrange(0, 5)[1] == sqa[1]);
    }
    assert(!crate::parse::kw_at(sqa, 0, fld)) by {
        assert(sqa.subrange(0, 5)[1] == sqa[1]);
    }
    assert(crate::parse::kw_at(sqa, 0, sqa)) by {
        assert(sqa.subrange(0, 7) =~= sqa);
    }
    assert(crate::parse::parse_atom_v(sqa, 0, (crate::parse::parse_fuel(7) - 1) as nat) == Some(
        (FilterV::Squash, 7int),
    ));
    lemma_atom_parses(sqa, FilterV::Squash);
}

/// A keyword atom, standing alone, parses to its operator.
proof fn lemma_atom_parses(s: Seq<char>, f: FilterV)
    requires
        crate::parse::parse_atom_v(
            s,
            0,
            (crate::parse::parse_fuel(s.len()) - 1) as nat,
        ) == Some((f, s.len() as int)),
        s.len() > 0,
    ensures
        crate::parse::parse_v(s) == Some(f),
{
    let fuel = crate::parse::parse_fuel(s.len());
    assert(fuel >= 8);
    assert(crate::parse::parse_spec_v(s, 0, fuel) == Some((f, s.len() as int)));
}


/// An incremental walk visits exactly the new tip: when every proper
/// ancestor of `input` is cached and `input` itself is not, the visible
/// set of a walk is the one-element sequence of `input` — so a walk
/// after a one-commit advance applies the filter to one commit and
/// serves the rest from the cache.
pub proof fn law_incremental_walk(rv: RepoV, cv: CacheV, key: Seq<char>, input: Oid)
    requires
        wf_repo(rv),
        is_commit(rv, input),
        rv.len() < u64::MAX,
        !cached_valid(rv, cv, key, input),
        forall|k: Oid|
            1 <= k <= rv.len() && k != input && reachable(rv, input, k) ==> cached_valid(
                rv,
                cv,
                key,
                k,
            ),
    ensures
        visible_v(rv, cv, key, input, 1) == seq![input],
        visible_v(rv, cv, key, input, 1).len() == 1,
{
    lemma_incremental_tail(rv, cv, key, input, 1);
}

/// The visible suffix from `i` up under the premises above: the tip alone
/// when `i` has not passed it, nothing after.
proof fn lemma_incremental_tail(rv: RepoV, cv: CacheV, key: Seq<char>, input: Oid, i: int)
    requires
        wf_repo(rv),
        is_commit(rv, input),
        !cached_valid(rv, cv, key, input),
        rv.len() < u64::MAX,
        forall|k: Oid|
            1 <= k <= rv.len() && k != input && reachable(rv, input, k) ==> cached_valid(
                rv,
                cv,
                key,
                k,
            ),
        1 <= i <= rv.len() + 1,
    ensures
        visible_v(rv, cv, key, input, i) == if i <= input {
            seq![input]
        } else {
            Seq::<Oid>::empty()
        },
    decreases rv.len() + 1 - i,
{
    if i <= rv.len() {
        lemma_incremental_tail(rv, cv, key, input, i + 1);
        if reachable(rv, input, i as Oid) {
            lemma_reachable_le(rv, input, i as Oid);
            if i == input {
                // the tip is uncached, and nothing above it covers it
                assert(!hidden_by_known(rv, cv, key, input, input)) by {
                    if hidden_by_known(rv, cv, key, input, input) {
                        let k = choose|k: Oid|
                            is_commit(rv, k) && reachable(rv, input, k) && cached_valid(
                                rv,
                                cv,
                                key,
                                k,
                            ) && reachable(rv, k, input);
                        lemma_reachable_le(rv, input, k);
                        lemma_reachable_le(rv, k, input);
                        assert(k == input);
                    }
                }
                assert(visible_v(rv, cv, key, input, i) =~= seq![input]);
            } else {
                // a cached proper ancestor hides itself
                assert(hidden_by_known(rv, cv, key, input, i as Oid)) by {
                    assert(is_commit(rv, i as Oid));
                    assert(cached_valid(rv, cv, key, i as Oid));
                    assert(reachable(rv, i as Oid, i as Oid));
                }
            }
        }
    } else {
        assert(visible_v(rv, cv, key, input, i) =~= Seq::<Oid>::empty());
    }
}

/// A rebuilt merge whose sides disagree is rejected: when a visited
/// commit resolves to original parents whose candidate inverse trees
/// number two or more, the inversion stops with that count and no
/// rebuilt tip is produced.
pub proof fn law_reject_merge(
    f: FilterV,
    ufo: Oid,
    vis: Seq<Oid>,
    k: int,
    ret: Oid,
    bmv: Seq<Option<Oid>>,
    rv: RepoV,
    cv: CacheV,
    ops: Seq<Oid>,
    rv1: RepoV,
    cv1: CacheV,
    bm1: Seq<Option<Oid>>,
    cands: Seq<crate::tree::TreeV>,
)
    requires
        0 <= k < vis.len(),
        !(0 <= vis[k] < bmv.len() && bmv[vis[k] as int] is Some),
        resolve_v(f, ufo, crate::repo::commit_of(rv, vis[k]).parents, 0, Seq::<Oid>::empty(),
            bmv, rv, cv) == Some((ops, rv1, cv1, bm1)),
        cands_v(f, crate::repo::commit_of(rv1, vis[k]).tree, ops, 0,
            Seq::<crate::tree::TreeV>::empty(), rv1) == Some(cands),
        cands.len() >= 2,
    ensures
        uaf_loop_v(f, ufo, vis, k, ret, bmv, rv, cv) == Some(
            (UnapplyFilter::RejectMerge(cands.len() as usize), rv1, cv1),
        ),
{
}

} // verus!
