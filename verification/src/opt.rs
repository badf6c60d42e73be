use vstd::prelude::*;
use crate::filter::{Filter, FilterV, filter_view, filters_view, lemma_filters_view, clone_path,
    path_eq, clone_filter};

verus! {

// ===========================================================================
// Normalisation of filter expressions.
//
// The rewrite rules: a chain absorbs its identity and annihilating members
// and associates to the right, a subdirectory followed by the same prefix
// (and the reverse) cancels, a compose group flattens nested groups, loses
// its brackets when it has a single member, and an empty group is the empty
// filter.
// ===========================================================================

/// Size of an operator tree, for termination.
pub open spec fn fsize(f: FilterV) -> nat
    decreases f,
{
    match f {
        FilterV::Compose(fs) => 1 + lsize(fs, 0),
        FilterV::Chain(a, b) => 1 + fsize(*a) + fsize(*b),
        FilterV::Subtract(a, b) => 1 + fsize(*a) + fsize(*b),
        _ => 1,
    }
}

/// Combined size of the members of a group from index `i` on.
pub open spec fn lsize(fs: Seq<FilterV>, i: int) -> nat
    decreases fs, fs.len() - i,
    when 0 <= i <= fs.len()
{
    if i >= fs.len() {
        0
    } else {
        1 + fsize(fs[i]) + lsize(fs, i + 1)
    }
}

/// Whether a chain of exactly `a` then `h` is the identity: a
/// subdirectory followed by the same prefix, or the reverse.
pub open spec fn chain_cancels(a: FilterV, h: FilterV) -> bool {
    ||| (a matches FilterV::Subdir(p) && h matches FilterV::Prefix(q) && p == q)
    ||| (a matches FilterV::Prefix(p) && h matches FilterV::Subdir(q) && p == q)
}

/// Normalised chain of two normalised filters.
pub open spec fn chain_norm_v(a: FilterV, b: FilterV) -> FilterV
    decreases fsize(a),
{
    match a {
        FilterV::Chain(x, y) => chain_norm_v(*x, chain_norm_v(*y, b)),
        FilterV::Nop => b,
        FilterV::Empty => FilterV::Empty,
        _ => {
            if b is Empty {
                FilterV::Empty
            } else if b is Nop {
                a
            } else if chain_cancels(a, b) {
                FilterV::Nop
            } else if b is Chain && chain_cancels(a, *b->Chain_0) {
                *b->Chain_1
            } else {
                FilterV::Chain(Box::new(a), Box::new(b))
            }
        },
    }
}

/// Normalised members of a compose group from index `i` on: each member is
/// normalised, and one that became a group itself is spliced in.
pub open spec fn opt_list_v(fs: Seq<FilterV>, i: int) -> Seq<FilterV>
    decreases lsize(fs, i), 1int,
    when 0 <= i <= fs.len()
{
    if i >= fs.len() {
        Seq::<FilterV>::empty()
    } else {
        let h = opt_v(fs[i]);
        let rest = opt_list_v(fs, i + 1);
        match h {
            FilterV::Compose(gs) => gs + rest,
            _ => seq![h] + rest,
        }
    }
}

/// The normal form of a filter.
pub open spec fn opt_v(f: FilterV) -> FilterV
    decreases fsize(f), 0int,
{
    match f {
        FilterV::Chain(a, b) => chain_norm_v(opt_v(*a), opt_v(*b)),
        FilterV::Subtract(a, b) => FilterV::Subtract(Box::new(opt_v(*a)), Box::new(opt_v(*b))),
        FilterV::Compose(fs) => {
            let l = fold_prefixes_v(opt_list_v(fs, 0));
            if l.len() == 0 {
                FilterV::Empty
            } else if l.len() == 1 {
                l[0]
            } else {
                FilterV::Compose(l)
            }
        },
        _ => f,
    }
}

/// The terminal prefix of a group member in its direct shape: a bare
/// prefix, or a chain whose second half is one.
pub open spec fn member_prefix(m: FilterV) -> Option<Seq<Seq<char>>> {
    if m is Prefix {
        Some(m->Prefix_0)
    } else if m is Chain && *m->Chain_1 is Prefix {
        Some((*m->Chain_1)->Prefix_0)
    } else {
        None
    }
}

/// The member with its terminal prefix stripped; the identity for a bare
/// prefix.
pub open spec fn member_front(m: FilterV) -> FilterV {
    if m is Prefix {
        FilterV::Nop
    } else if m is Chain && *m->Chain_1 is Prefix {
        *m->Chain_0
    } else {
        m
    }
}

/// Two filters as one group, nested groups spliced.
pub open spec fn compose2_v(fa: FilterV, fb: FilterV) -> FilterV {
    let la = if fa is Compose {
        fa->Compose_0
    } else {
        seq![fa]
    };
    let lb = if fb is Compose {
        fb->Compose_0
    } else {
        seq![fb]
    };
    FilterV::Compose(la + lb)
}

/// Two members under one terminal prefix folded: their fronts composed,
/// rehung under the prefix.
pub open spec fn fold_pair_v(fa: FilterV, fb: FilterV, p: Seq<Seq<char>>) -> FilterV {
    chain_norm_v(compose2_v(fa, fb), FilterV::Prefix(p))
}

/// Adjacent group members with equal terminal prefixes folded into one.
pub open spec fn fold_prefixes_v(fs: Seq<FilterV>) -> Seq<FilterV>
    decreases fs.len(),
{
    if fs.len() < 2 {
        fs
    } else {
        let a = fs[0];
        let b = fs[1];
        if member_prefix(a) is Some && member_prefix(a) == member_prefix(b) {
            fold_prefixes_v(
                seq![
                    fold_pair_v(member_front(a), member_front(b), member_prefix(a)->Some_0),
                ] + fs.skip(2),
            )
        } else {
            seq![a] + fold_prefixes_v(fs.skip(1))
        }
    }
}

fn member_prefix_exec(m: &Filter) -> (r: Option<Vec<String>>)
    ensures
        match r {
            Some(p) => member_prefix(m@) == Some(p.deep_view()),
            None => member_prefix(m@) is None,
        },
{
    proof {
        crate::filter::lemma_filter_view_variants(*m);
    }
    match m {
        Filter::Prefix(p) => Some(clone_path(p)),
        Filter::Chain(a, b) => {
            proof {
                crate::filter::lemma_filter_view_variants(**b);
                assert(m@ == FilterV::Chain(Box::new((**a)@), Box::new((**b)@)));
            }
            match &**b {
                Filter::Prefix(p) => Some(clone_path(p)),
                _ => None,
            }
        },
        _ => None,
    }
}

fn member_front_exec(m: &Filter) -> (r: Filter)
    ensures
        r@ == member_front(m@),
{
    proof {
        crate::filter::lemma_filter_view_variants(*m);
    }
    match m {
        Filter::Prefix(_) => Filter::Nop,
        Filter::Chain(a, b) => {
            proof {
                crate::filter::lemma_filter_view_variants(**b);
                assert(m@ == FilterV::Chain(Box::new((**a)@), Box::new((**b)@)));
            }
            match &**b {
                Filter::Prefix(_) => clone_filter(a),
                _ => clone_filter(m),
            }
        },
        _ => clone_filter(m),
    }
}

fn compose2(fa: Filter, fb: Filter) -> (r: Filter)
    ensures
        r@ == compose2_v(fa@, fb@),
{
    proof {
        crate::filter::lemma_filter_view_variants(fa);
        crate::filter::lemma_filter_view_variants(fb);
    }
    let ghost fav = fa@;
    let ghost fbv = fb@;
    let mut l: Vec<Filter> = Vec::new();
    let ghost la: Seq<FilterV> = if fav is Compose {
        fav->Compose_0
    } else {
        seq![fav]
    };
    let ghost lb: Seq<FilterV> = if fbv is Compose {
        fbv->Compose_0
    } else {
        seq![fbv]
    };
    match fa {
        Filter::Compose(xs) => {
            let ghost xsv = xs@;
            let mut xs = xs;
            l.append(&mut xs);
            proof {
                lemma_filters_view(xsv);
                lemma_filters_view(l@);
                assert(filters_view(l@) =~= la);
            }
        },
        other => {
            l.push(other);
            proof {
                lemma_filters_view(l@);
                assert(filters_view(l@) =~= la);
            }
        },
    }
    let ghost mid = l@;
    match fb {
        Filter::Compose(ys) => {
            let ghost ysv = ys@;
            let mut ys = ys;
            l.append(&mut ys);
            proof {
                lemma_filters_view(ysv);
                lemma_filters_view(mid);
                lemma_filters_view(l@);
                assert(filters_view(l@) =~= la + lb);
            }
        },
        other => {
            l.push(other);
            proof {
                lemma_filters_view(mid);
                lemma_filters_view(l@);
                assert(filters_view(l@) =~= la + lb);
            }
        },
    }
    Filter::Compose(l)
}

fn fold_pair(fa: Filter, fb: Filter, p: Vec<String>) -> (r: Filter)
    ensures
        r@ == fold_pair_v(fa@, fb@, p.deep_view()),
{
    let front = compose2(fa, fb);
    chain_norm(front, Filter::Prefix(p))
}

fn fold_prefixes(v: Vec<Filter>) -> (r: Vec<Filter>)
    ensures
        filters_view(r@) == fold_prefixes_v(filters_view(v@)),
    decreases v@.len(),
{
    proof {
        lemma_filters_view(v@);
    }
    let ghost vv = filters_view(v@);
    if v.len() < 2 {
        return v;
    }
    let mut v = v;
    let rest2: Vec<Filter> = v.split_off(2);
    proof {
        lemma_filters_view(rest2@);
        lemma_filters_view(v@);
        assert(forall|k: int|
            0 <= k < rest2@.len() ==> #[trigger] filters_view(rest2@)[k] == vv[k + 2]);
        assert(filters_view(rest2@) =~= vv.skip(2));
    }
    let b = match v.pop() {
        Some(x) => x,
        None => Filter::Nop,
    };
    let a = match v.pop() {
        Some(x) => x,
        None => Filter::Nop,
    };
    proof {
        assert(a@ == vv[0]);
        assert(b@ == vv[1]);
    }
    let pa = member_prefix_exec(&a);
    let pb = member_prefix_exec(&b);
    let fold_them = match (&pa, &pb) {
        (Some(x), Some(y)) => path_eq(x, y),
        _ => false,
    };
    if fold_them {
        let p = match pa {
            Some(x) => x,
            None => Vec::new(),
        };
        let fa = member_front_exec(&a);
        let fb = member_front_exec(&b);
        let folded = fold_pair(fa, fb, p);
        let ghost foldedv = folded@;
        let mut nv: Vec<Filter> = Vec::new();
        nv.push(folded);
        let mut rest2 = rest2;
        nv.append(&mut rest2);
        proof {
            lemma_filters_view(nv@);
            assert(filters_view(nv@) =~= seq![foldedv] + vv.skip(2));
        }
        let r = fold_prefixes(nv);
        proof {
            assert(fold_prefixes_v(vv) == fold_prefixes_v(seq![foldedv] + vv.skip(2)));
        }
        r
    } else {
        let ghost av = a@;
        let mut nv: Vec<Filter> = Vec::new();
        nv.push(b);
        let mut rest2 = rest2;
        nv.append(&mut rest2);
        proof {
            lemma_filters_view(nv@);
            assert(filters_view(nv@) =~= vv.skip(1));
        }
        let tail = fold_prefixes(nv);
        let ghost tailseq = tail@;
        let ghost tailv = filters_view(tail@);
        let mut out: Vec<Filter> = Vec::new();
        out.push(a);
        let mut tail = tail;
        out.append(&mut tail);
        proof {
            lemma_filters_view(tailseq);
            lemma_filters_view(out@);
            assert(filters_view(out@) =~= seq![av] + tailv);
            assert(fold_prefixes_v(vv) == seq![vv[0]] + fold_prefixes_v(vv.skip(1)));
        }
        out
    }
}

fn chain_norm(a: Filter, b: Filter) -> (r: Filter)
    ensures
        r@ == chain_norm_v(a@, b@),
    decreases a,
{
    match a {
        Filter::Chain(x, y) => {
            let inner = chain_norm(*y, b);
            chain_norm(*x, inner)
        },
        Filter::Nop => b,
        Filter::Empty => Filter::Empty,
        _ => {
            if matches!(b, Filter::Empty) {
                return Filter::Empty;
            }
            if matches!(b, Filter::Nop) {
                return a;
            }
            match (&a, &b) {
                (Filter::Subdir(p), Filter::Prefix(q)) => {
                    if path_eq(p, q) {
                        return Filter::Nop;
                    }
                },
                (Filter::Prefix(p), Filter::Subdir(q)) => {
                    if path_eq(p, q) {
                        return Filter::Nop;
                    }
                },
                (Filter::Subdir(p), Filter::Chain(h, t)) => {
                    if let Filter::Prefix(q) = &**h {
                        if path_eq(p, q) {
                            proof {
                                assert(b@ == FilterV::Chain(
                                    Box::new((**h)@),
                                    Box::new((**t)@),
                                ));
                                assert(chain_cancels(a@, *b@->Chain_0));
                            }
                            return clone_filter(t);
                        }
                    }
                },
                (Filter::Prefix(p), Filter::Chain(h, t)) => {
                    if let Filter::Subdir(q) = &**h {
                        if path_eq(p, q) {
                            proof {
                                assert(b@ == FilterV::Chain(
                                    Box::new((**h)@),
                                    Box::new((**t)@),
                                ));
                                assert(chain_cancels(a@, *b@->Chain_0));
                            }
                            return clone_filter(t);
                        }
                    }
                },
                _ => {},
            }
            Filter::Chain(Box::new(a), Box::new(b))
        },
    }
}

/// Normalise a filter expression to its fixed point under the rewrite
/// rules.
pub fn optimize(f: &Filter) -> (r: Filter)
    ensures
        r@ == opt_v(f@),
    decreases *f,
{
    match f {
        Filter::Chain(a, b) => {
            let oa = optimize(a);
            let ob = optimize(b);
            chain_norm(oa, ob)
        },
        Filter::Subtract(a, b) => Filter::Subtract(
            Box::new(optimize(a)),
            Box::new(optimize(b)),
        ),
        Filter::Compose(fs) => {
            let mut acc: Vec<Filter> = Vec::new();
            let mut i: usize = 0;
            proof {
                broadcast use lemma_filters_view;

                lemma_filters_view(fs@);
            }
            let ghost fsv = filters_view(fs@);
            proof {
                assert(filters_view(acc@) + opt_list_v(fsv, 0) =~= opt_list_v(fsv, 0));
            }
            while i < fs.len()
                invariant
                    *f == Filter::Compose(*fs),
                    i <= fs@.len(),
                    fsv == filters_view(fs@),
                    fsv.len() == fs@.len(),
                    forall|k: int| 0 <= k < fs@.len() ==> fsv[k] == filter_view(#[trigger] fs@[k]),
                    filters_view(acc@) + opt_list_v(fsv, i as int) == opt_list_v(fsv, 0),
                decreases fs@.len() - i,
            {
                proof {
                    assert(f->Compose_0 == *fs);
                    assert(decreases_to!(*f => *fs));
                    assert(decreases_to!(*fs => fs@));
                    assert(decreases_to!(fs@ => fs@[i as int]));
                }
                let h = optimize(&fs[i]);
                let ghost prev = acc@;
                match h {
                    Filter::Compose(gs) => {
                        let mut j: usize = 0;
                        proof {
                            lemma_filters_view(gs@);
                            assert(opt_v(fsv[i as int]) == FilterV::Compose(filters_view(gs@)));
                            assert(filters_view(gs@).take(0) =~= Seq::<FilterV>::empty());
                            assert(filters_view(acc@) + filters_view(gs@).take(0) =~= filters_view(
                                acc@,
                            ));
                        }
                        let ghost gsv = filters_view(gs@);
                        while j < gs.len()
                            invariant
                                j <= gs@.len(),
                                gsv == filters_view(gs@),
                                gsv.len() == gs@.len(),
                                forall|k: int|
                                    0 <= k < gs@.len() ==> gsv[k] == filter_view(
                                        #[trigger] gs@[k],
                                    ),
                                filters_view(acc@) == filters_view(prev) + gsv.take(j as int),
                            decreases gs@.len() - j,
                        {
                            let ghost accprev = acc@;
                            let c = clone_filter(&gs[j]);
                            acc.push(c);
                            proof {
                                crate::filter::lemma_filters_view_push(accprev, c);
                                assert(gsv.take(j + 1) =~= gsv.take(j as int).push(
                                    gsv[j as int],
                                ));
                                assert(filters_view(acc@) =~= filters_view(prev) + gsv.take(
                                    j + 1,
                                ));
                            }
                            j = j + 1;
                        }
                        proof {
                            assert(gsv.take(gs@.len() as int) =~= gsv);
                            assert(opt_list_v(fsv, i as int) == gsv + opt_list_v(fsv, i + 1));
                            assert(filters_view(acc@) + opt_list_v(fsv, i + 1) =~= filters_view(
                                prev,
                            ) + opt_list_v(fsv, i as int));
                        }
                    },
                    _ => {
                        acc.push(h);
                        proof {
                            crate::filter::lemma_filters_view_push(prev, h);
                            assert(!(opt_v(fsv[i as int]) is Compose));
                            assert(opt_list_v(fsv, i as int) == seq![opt_v(fsv[i as int])]
                                + opt_list_v(fsv, i + 1));
                            assert(filters_view(acc@) + opt_list_v(fsv, i + 1) =~= filters_view(
                                prev,
                            ) + opt_list_v(fsv, i as int));
                        }
                    },
                }
                i = i + 1;
            }
            proof {
                assert(opt_list_v(fsv, fs@.len() as int) =~= Seq::<FilterV>::empty());
                assert(filters_view(acc@) =~= opt_list_v(fsv, 0));
            }
            let mut acc = fold_prefixes(acc);
            proof {
                lemma_filters_view(acc@);
            }
            if acc.len() == 0 {
                Filter::Empty
            } else if acc.len() == 1 {
                let ghost accv = acc@;
                let r = match acc.pop() {
                    Some(x) => x,
                    None => Filter::Empty,
                };
                proof {
                    lemma_filters_view(accv);
                    assert(r == accv[0]);
                    assert(filter_view(r) == fold_prefixes_v(opt_list_v(fsv, 0))[0]);
                }
                r
            } else {
                Filter::Compose(acc)
            }
        },
        _ => clone_filter(f),
    }
}


pub proof fn lemma_lsize_bound(fs: Seq<FilterV>, i: int, j: int)
    requires
        0 <= i <= j < fs.len(),
    ensures
        fsize(fs[j]) < lsize(fs, i),
    decreases j - i,
{
    if i < j {
        lemma_lsize_bound(fs, i + 1, j);
    }
}

} // verus!
