use vstd::prelude::*;
use crate::filter::{Filter, FilterV, filter_view, filters_view, lemma_filters_view, pretty_v,
    pretty};
use crate::opt::{fsize, lsize, lemma_lsize_bound};
use crate::parse::{parse_ws_v, parse_workspace};
use crate::tree::{Tree, TreeV, TreeItem, ItemV, EntryV, empty, clone_tree, insert, get_path,
    get_blob, get_path_v, get_blob_v, put_path_v, overlay, overlay_v, subtract, subtract_v,
    glob_keep_at, glob_keep_v, dirtree, dirtree_v, lemma_entries_view};
use crate::pattern::{glob_valid, glob_pattern_valid};
use crate::{JoshError, JoshResult};
use vstd::utf8::{valid_utf8, decode_utf8, encode_utf8};

verus! {

// ===========================================================================
// The tree-level filter transforms: apply and unapply.
//
// A workspace filter reads its own definition out of the tree it filters,
// so its meaning can refer to arbitrarily large filters; the recursion is
// bounded by a budget spent only when a workspace definition is opened.
// The budget the public entry points use admits any sensible nesting.
// ===========================================================================

/// The recursion budget for workspace definitions read from trees.
pub const WS_FUEL: usize = 64;

/// The kind of a tree-level failure: a filter with no inverse, or bad
/// input (an uncompilable glob, an unreadable workspace definition, an
/// exhausted workspace budget).
pub enum TErr {
    NotReversible,
    BadInput,
}

/// The failure kind a `JoshError` stands for.
pub open spec fn terr_of(e: JoshError) -> TErr {
    if e is FilterNotReversible {
        TErr::NotReversible
    } else {
        TErr::BadInput
    }
}

/// The name of the file holding a workspace definition.
pub open spec fn ws_file_name() -> Seq<char> {
    "workspace.josh"@
}

/// The workspace definition read from blob content: it must be UTF-8 and
/// parse as a workspace file.
pub open spec fn ws_parse_bytes(bytes: Seq<u8>) -> Option<FilterV> {
    if valid_utf8(bytes) {
        parse_ws_v(decode_utf8(bytes))
    } else {
        None
    }
}

/// What `apply` computes, with an explicit workspace budget.
pub open spec fn apply_v(f: FilterV, t: TreeV, fuel: nat) -> Result<TreeV, TErr>
    decreases fuel, fsize(f), 0int,
{
    match f {
        FilterV::Nop => Ok(t),
        FilterV::Fold => Ok(t),
        FilterV::Squash => Ok(t),
        FilterV::Empty => Ok(Seq::<EntryV>::empty()),
        FilterV::Dirs => Ok(dirtree_v(t)),
        FilterV::Glob(p) => if glob_valid(p) {
            Ok(glob_keep_v(t, p))
        } else {
            Err(TErr::BadInput)
        },
        FilterV::File(p) => match get_path_v(t, p) {
            Some(ItemV::Blob(b)) => Ok(put_path_v(Seq::empty(), p, ItemV::Blob(b))),
            _ => Ok(Seq::<EntryV>::empty()),
        },
        FilterV::Subdir(p) => match get_path_v(t, p) {
            Some(ItemV::Dir(d)) => Ok(d),
            _ => Ok(Seq::<EntryV>::empty()),
        },
        FilterV::Prefix(p) => if p.len() == 0 {
            Ok(t)
        } else {
            Ok(put_path_v(Seq::empty(), p, ItemV::Dir(t)))
        },
        FilterV::Chain(a, b) => match apply_v(*a, t, fuel) {
            Ok(t1) => apply_v(*b, t1, fuel),
            Err(k) => Err(k),
        },
        FilterV::Compose(fs) => {
            proof {
                assert(fsize(FilterV::Compose(fs)) == 1 + lsize(fs, 0));
            }
            compose_fold_v(fs, t, fuel, 0, Seq::empty())
        },
        FilterV::Subtract(a, b) => match apply_v(*a, t, fuel) {
            Ok(af) => match apply_v(*b, t, fuel) {
                Ok(bf) => match unapply_v(*b, bf, Seq::empty(), fuel) {
                    Ok(bu) => match apply_v(*a, bu, fuel) {
                        Ok(ba) => Ok(subtract_v(af, ba)),
                        Err(k) => Err(k),
                    },
                    Err(k) => Err(k),
                },
                Err(k) => Err(k),
            },
            Err(k) => Err(k),
        },
        FilterV::Workspace(p) => if fuel == 0 {
            Err(TErr::BadInput)
        } else {
            let bytes = get_blob_v(t, p.push(ws_file_name()));
            match ws_parse_bytes(bytes) {
                Some(cw) => apply_v(
                    FilterV::Compose(seq![FilterV::Subdir(p), cw]),
                    t,
                    (fuel - 1) as nat,
                ),
                None => apply_v(FilterV::Subdir(p), t, (fuel - 1) as nat),
            }
        },
    }
}

/// The overlay of the outputs of `fs[i..]` on `acc`, later members
/// overriding earlier ones.
pub open spec fn compose_fold_v(fs: Seq<FilterV>, t: TreeV, fuel: nat, i: int, acc: TreeV) -> Result<
    TreeV,
    TErr,
>
    decreases fuel, lsize(fs, 0), fs.len() - i,
    when 0 <= i <= fs.len()
{
    if i >= fs.len() {
        Ok(acc)
    } else {
        proof {
            lemma_lsize_bound(fs, 0, i);
        }
        match apply_v(fs[i], t, fuel) {
            Ok(ti) => compose_fold_v(fs, t, fuel, i + 1, overlay_v(acc, ti)),
            Err(k) => Err(k),
        }
    }
}

/// What `unapply` computes: the minimal change to `parent` that the
/// filter maps to `t`.  A failure carries its kind: a filter with no
/// inverse, or input no inverse can read (an uncompilable glob, an
/// unreadable workspace definition, an exhausted workspace budget).
pub open spec fn unapply_v(f: FilterV, t: TreeV, parent: TreeV, fuel: nat) -> Result<TreeV, TErr>
    decreases fuel, fsize(f), 0int,
{
    match f {
        FilterV::Nop => Ok(t),
        FilterV::Empty => Ok(parent),
        FilterV::Chain(a, b) => match apply_v(*a, parent, fuel) {
            Ok(p) => match unapply_v(*b, t, p, fuel) {
                Ok(x) => unapply_v(*a, x, parent, fuel),
                Err(k) => Err(k),
            },
            Err(k) => Err(k),
        },
        FilterV::File(p) => match get_path_v(t, p) {
            Some(ItemV::Blob(b)) => Ok(put_path_v(parent, p, ItemV::Blob(b))),
            _ => Ok(Seq::<EntryV>::empty()),
        },
        FilterV::Prefix(p) => match get_path_v(t, p) {
            Some(ItemV::Dir(d)) => Ok(d),
            _ => Ok(Seq::<EntryV>::empty()),
        },
        FilterV::Subdir(p) => if p.len() == 0 {
            Ok(t)
        } else {
            Ok(put_path_v(parent, p, ItemV::Dir(t)))
        },
        FilterV::Glob(p) => if glob_valid(p) {
            Ok(overlay_v(parent, glob_keep_v(t, p)))
        } else {
            Err(TErr::BadInput)
        },
        FilterV::Subtract(a, b) => if *a is Nop {
            match unapply_v(*b, t, Seq::empty(), fuel) {
                Ok(bu) => Ok(overlay_v(parent, subtract_v(t, bu))),
                Err(k) => Err(k),
            }
        } else {
            Err(TErr::NotReversible)
        },
        FilterV::Compose(fs) => {
            proof {
                assert(fsize(FilterV::Compose(fs)) == 1 + lsize(fs, 0));
            }
            unapply_compose_v(fs, fs.len() as int, t, parent, fuel)
        },
        FilterV::Workspace(p) => if fuel == 0 {
            Err(TErr::BadInput)
        } else {
            let bytes = get_blob_v(t, seq![ws_file_name()]);
            match ws_parse_bytes(bytes) {
                Some(mapped) => {
                    let content = encode_utf8(pretty_v(mapped, 0) + seq!['\n']);
                    let t2 = put_path_v(t, seq![ws_file_name()], ItemV::Blob(content));
                    unapply_v(
                        FilterV::Compose(seq![FilterV::Subdir(p), mapped]),
                        t2,
                        parent,
                        (fuel - 1) as nat,
                    )
                },
                None => Err(TErr::BadInput),
            }
        },
        _ => Err(TErr::NotReversible),
    }
}

/// Unapply the members `fs[..k]` in reverse order: each member takes from
/// `remaining` the part it explains and accumulates its inverse into
/// `result`.
pub open spec fn unapply_compose_v(
    fs: Seq<FilterV>,
    k: int,
    remaining: TreeV,
    result: TreeV,
    fuel: nat,
) -> Result<TreeV, TErr>
    decreases fuel, lsize(fs, 0), k,
    when 0 <= k <= fs.len()
{
    if k <= 0 {
        Ok(result)
    } else {
        proof {
            lemma_lsize_bound(fs, 0, k - 1);
        }
        let other = fs[k - 1];
        match unapply_v(other, remaining, Seq::empty(), fuel) {
            Err(k2) => Err(k2),
            Ok(from_empty) => if from_empty.len() == 0 {
                unapply_compose_v(fs, k - 1, remaining, result, fuel)
            } else {
                match unapply_v(other, remaining, result, fuel) {
                    Err(k2) => Err(k2),
                    Ok(result2) => match apply_v(other, from_empty, fuel) {
                        Err(k2) => Err(k2),
                        Ok(reapply) => unapply_compose_v(
                            fs,
                            k - 1,
                            subtract_v(remaining, reapply),
                            result2,
                            fuel,
                        ),
                    },
                }
            },
        }
    }
}

/// What the public `apply` computes.
pub open spec fn apply_t(f: FilterV, t: TreeV) -> Result<TreeV, TErr> {
    apply_v(f, t, WS_FUEL as nat)
}

/// What the public `unapply` computes.
pub open spec fn unapply_t(f: FilterV, t: TreeV, parent: TreeV) -> Result<TreeV, TErr> {
    unapply_v(f, t, parent, WS_FUEL as nat)
}

/// Relies on String::from_utf8: it succeeds exactly on valid UTF-8 and
/// then returns the decoded characters.
#[verifier::external_body]
pub(crate) fn utf8_to_string(b: &Vec<u8>) -> (r: Option<String>)
    ensures
        r is Some <==> valid_utf8(b@),
        r matches Some(s) ==> s@ == decode_utf8(b@),
{
    String::from_utf8(b.clone()).ok()
}


fn apply_at(f: &Filter, t: &Tree, fuel: usize) -> (r: Result<Tree, JoshError>)
    ensures
        match r {
            Ok(nt) => apply_v(f@, t@, fuel as nat) == Ok::<TreeV, TErr>(nt@),
            Err(e) => apply_v(f@, t@, fuel as nat) == Err::<TreeV, TErr>(terr_of(e)) && (e
                is Parse || e is FilterNotReversible),
        },
    decreases fuel, fsize(f@), 0int,
{
    match f {
        Filter::Nop => Ok(clone_tree(t)),
        Filter::Fold => Ok(clone_tree(t)),
        Filter::Squash => Ok(clone_tree(t)),
        Filter::Empty => Ok(empty()),
        Filter::Dirs => Ok(dirtree(t)),
        Filter::Glob(p) => {
            if glob_pattern_valid(p.as_str()) {
                let r = glob_keep_at(t, p.as_str(), "");
                proof {
                    reveal_strlit("");
                    assert(""@ =~= Seq::<char>::empty());
                    assert(r@ == glob_keep_v(t@, p@));
                }
                Ok(r)
            } else {
                Err(JoshError::Parse { pos: 0, msg: "invalid glob pattern".to_owned() })
            }
        },
        Filter::File(p) => {
            match get_path(t, p, 0) {
                Some(TreeItem::Blob(b)) => {
                    proof {
                        assert(p.deep_view().skip(0) =~= p.deep_view());
                        if p.deep_view().len() == 0 {
                            assert(get_path_v(t@, p.deep_view()) == Some(ItemV::Dir(t@)));
                        }
                    }
                    let e = empty();
                    match insert(&e, p, TreeItem::Blob(b)) {
                        Ok(nt) => Ok(nt),
                        Err(_) => {
                            proof {
                                assert(false);
                            }
                            Ok(empty())
                        },
                    }
                },
                _ => {
                    proof {
                        assert(p.deep_view().skip(0) =~= p.deep_view());
                    }
                    Ok(empty())
                },
            }
        },
        Filter::Subdir(p) => {
            proof {
                assert(p.deep_view().skip(0) =~= p.deep_view());
            }
            match get_path(t, p, 0) {
                Some(TreeItem::Dir(d)) => Ok(d),
                _ => Ok(empty()),
            }
        },
        Filter::Prefix(p) => {
            let c = clone_tree(t);
            if p.len() == 0 {
                proof {
                    assert(p.deep_view().len() == 0);
                }
                Ok(c)
            } else {
                let e = empty();
                proof {
                    assert(p.deep_view().len() == p@.len());
                }
                match insert(&e, p, TreeItem::Dir(c)) {
                    Ok(nt) => Ok(nt),
                    Err(_) => {
                        proof {
                            assert(false);
                        }
                        Ok(empty())
                    },
                }
            }
        },
        Filter::Chain(a, b) => {
            let t1 = apply_at(a, t, fuel)?;
            apply_at(b, &t1, fuel)
        },
        Filter::Compose(fs) => {
            proof {
                broadcast use lemma_filters_view;

                lemma_filters_view(fs@);
            }
            let ghost fsv = filters_view(fs@);
            let mut acc = empty();
            let mut i: usize = 0;
            proof {
                assert(fsize(f@) == 1 + lsize(fsv, 0));
            }
            while i < fs.len()
                invariant
                    *f == Filter::Compose(*fs),
                    f@ == FilterV::Compose(fsv),
                    i <= fs@.len(),
                    fsv == filters_view(fs@),
                    fsv.len() == fs@.len(),
                    forall|k: int| 0 <= k < fs@.len() ==> fsv[k] == filter_view(#[trigger] fs@[k]),
                    compose_fold_v(fsv, t@, fuel as nat, i as int, acc@) == compose_fold_v(
                        fsv,
                        t@,
                        fuel as nat,
                        0,
                        Seq::<EntryV>::empty(),
                    ),
                decreases fs@.len() - i,
            {
                proof {
                    assert(decreases_to!(*f => *fs));
                    assert(decreases_to!(*fs => fs@));
                    assert(decreases_to!(fs@ => fs@[i as int]));
                    lemma_lsize_bound(fsv, 0, i as int);
                }
                match apply_at(&fs[i], t, fuel) {
                    Ok(ti) => {
                        acc = overlay(&acc, &ti);
                    },
                    Err(e) => {
                        return Err(e);
                    },
                }
                i = i + 1;
            }
            proof {
                assert(compose_fold_v(fsv, t@, fuel as nat, fs@.len() as int, acc@)
                    == Ok::<TreeV, TErr>(acc@));
            }
            Ok(acc)
        },
        Filter::Subtract(a, b) => {
            let af = apply_at(a, t, fuel)?;
            let bf = apply_at(b, t, fuel)?;
            let e = empty();
            let bu = unapply_at(b, &bf, &e, fuel)?;
            let ba = apply_at(a, &bu, fuel)?;
            Ok(subtract(&af, &ba))
        },
        Filter::Workspace(p) => {
            if fuel == 0 {
                return Err(JoshError::Parse {
                    pos: 0,
                    msg: "workspace definitions nested too deeply".to_owned(),
                });
            }
            let mut wp = crate::filter::clone_path(p);
            wp.push("workspace.josh".to_owned());
            proof {
                assert(wp.deep_view() =~= p.deep_view().push(ws_file_name()));
            }
            let bytes = get_blob(t, &wp);
            let parsed: Option<Filter> = match utf8_to_string(&bytes) {
                Some(content) => match parse_workspace(content.as_str()) {
                    Ok(cw) => Some(cw),
                    Err(_) => None,
                },
                None => None,
            };
            match parsed {
                Some(cw) => {
                    let ghost cwv = cw@;
                    let sub = Filter::Subdir(crate::filter::clone_path(p));
                    let ghost subv = sub@;
                    let comp = crate::filter::compose(sub, cw);
                    proof {
                        assert(comp@ == FilterV::Compose(seq![subv, cwv]));
                        assert(subv == FilterV::Subdir(p.deep_view()));
                    }
                    apply_at(&comp, t, fuel - 1)
                },
                None => {
                    let sub = Filter::Subdir(crate::filter::clone_path(p));
                    proof {
                        assert(sub@ == FilterV::Subdir(p.deep_view()));
                    }
                    apply_at(&sub, t, fuel - 1)
                },
            }
        },
    }
}

fn unapply_at(f: &Filter, t: &Tree, parent: &Tree, fuel: usize) -> (r: Result<Tree, JoshError>)
    ensures
        match r {
            Ok(nt) => unapply_v(f@, t@, parent@, fuel as nat) == Ok::<TreeV, TErr>(nt@),
            Err(e) => unapply_v(f@, t@, parent@, fuel as nat) == Err::<TreeV, TErr>(terr_of(e))
                && (e is Parse || e is FilterNotReversible),
        },
    decreases fuel, fsize(f@), 0int,
{
    match f {
        Filter::Nop => Ok(clone_tree(t)),
        Filter::Empty => Ok(clone_tree(parent)),
        Filter::Chain(a, b) => {
            let p = apply_at(a, parent, fuel)?;
            let x = unapply_at(b, t, &p, fuel)?;
            unapply_at(a, &x, parent, fuel)
        },
        Filter::File(p) => {
            proof {
                assert(p.deep_view().skip(0) =~= p.deep_view());
            }
            match get_path(t, p, 0) {
                Some(TreeItem::Blob(b)) => {
                    proof {
                        if p.deep_view().len() == 0 {
                            assert(get_path_v(t@, p.deep_view()) == Some(ItemV::Dir(t@)));
                        }
                    }
                    match insert(parent, p, TreeItem::Blob(b)) {
                        Ok(nt) => Ok(nt),
                        Err(_) => {
                            proof {
                                assert(false);
                            }
                            Ok(empty())
                        },
                    }
                },
                _ => Ok(empty()),
            }
        },
        Filter::Prefix(p) => {
            proof {
                assert(p.deep_view().skip(0) =~= p.deep_view());
            }
            match get_path(t, p, 0) {
                Some(TreeItem::Dir(d)) => Ok(d),
                _ => Ok(empty()),
            }
        },
        Filter::Subdir(p) => {
            if p.len() == 0 {
                proof {
                    assert(p.deep_view().len() == 0);
                }
                Ok(clone_tree(t))
            } else {
                proof {
                    assert(p.deep_view().len() == p@.len());
                }
                match insert(parent, p, TreeItem::Dir(clone_tree(t))) {
                    Ok(nt) => Ok(nt),
                    Err(_) => {
                        proof {
                            assert(false);
                        }
                        Ok(empty())
                    },
                }
            }
        },
        Filter::Glob(p) => {
            if glob_pattern_valid(p.as_str()) {
                let kept = glob_keep_at(t, p.as_str(), "");
                proof {
                    reveal_strlit("");
                    assert(""@ =~= Seq::<char>::empty());
                    assert(kept@ == glob_keep_v(t@, p@));
                }
                Ok(overlay(parent, &kept))
            } else {
                proof {
                    assert(unapply_v(f@, t@, parent@, fuel as nat) is Err);
                }
                Err(JoshError::Parse { pos: 0, msg: "invalid glob pattern".to_owned() })
            }
        },
        Filter::Subtract(a, b) => {
            if matches!(&**a, Filter::Nop) {
                let e = empty();
                let bu = unapply_at(b, t, &e, fuel)?;
                let sub = subtract(t, &bu);
                Ok(overlay(parent, &sub))
            } else {
                proof {
                    crate::filter::lemma_filter_view_nop(**a);
                    assert(unapply_v(f@, t@, parent@, fuel as nat) is Err);
                }
                Err(JoshError::FilterNotReversible)
            }
        },
        Filter::Compose(fs) => {
            proof {
                broadcast use lemma_filters_view;

                lemma_filters_view(fs@);
            }
            let ghost fsv = filters_view(fs@);
            let mut remaining = clone_tree(t);
            let mut result = clone_tree(parent);
            let n = fs.len();
            let mut k = n;
            proof {
                assert(fsize(f@) == 1 + lsize(fsv, 0));
            }
            while k > 0
                invariant
                    *f == Filter::Compose(*fs),
                    f@ == FilterV::Compose(fsv),
                    k <= n,
                    n == fs@.len(),
                    fsv == filters_view(fs@),
                    fsv.len() == n,
                    forall|j: int| 0 <= j < n ==> fsv[j] == filter_view(#[trigger] fs@[j]),
                    unapply_compose_v(fsv, k as int, remaining@, result@, fuel as nat)
                        == unapply_compose_v(fsv, n as int, t@, parent@, fuel as nat),
                decreases k,
            {
                proof {
                    assert(decreases_to!(*f => *fs));
                    assert(decreases_to!(*fs => fs@));
                    assert(decreases_to!(fs@ => fs@[k - 1]));
                    lemma_lsize_bound(fsv, 0, k - 1);
                }
                let other = &fs[k - 1];
                let e = empty();
                let from_empty = match unapply_at(other, &remaining, &e, fuel) {
                    Ok(x) => x,
                    Err(er) => {
                        proof {
                            assert(unapply_v(f@, t@, parent@, fuel as nat) is Err);
                        }
                        return Err(er);
                    },
                };
                proof {
                    lemma_entries_view(from_empty.entries@);
                }
                if from_empty.entries.len() != 0 {
                    let result2 = match unapply_at(other, &remaining, &result, fuel) {
                        Ok(x) => x,
                        Err(er) => {
                            proof {
                                assert(unapply_v(f@, t@, parent@, fuel as nat) is Err);
                            }
                            return Err(er);
                        },
                    };
                    let reapply = match apply_at(other, &from_empty, fuel) {
                        Ok(x) => x,
                        Err(er) => {
                            proof {
                                assert(unapply_v(f@, t@, parent@, fuel as nat) is Err);
                            }
                            return Err(er);
                        },
                    };
                    remaining = subtract(&remaining, &reapply);
                    result = result2;
                }
                k = k - 1;
            }
            proof {
                assert(unapply_compose_v(fsv, 0, remaining@, result@, fuel as nat)
                    == Ok::<TreeV, TErr>(result@));
                assert(unapply_v(f@, t@, parent@, fuel as nat) == Ok::<TreeV, TErr>(result@));
            }
            Ok(result)
        },
        Filter::Workspace(p) => {
            if fuel == 0 {
                proof {
                    assert(unapply_v(f@, t@, parent@, fuel as nat) is Err);
                }
                return Err(JoshError::Parse {
                    pos: 0,
                    msg: "workspace definitions nested too deeply".to_owned(),
                });
            }
            let mut wp: Vec<String> = Vec::new();
            wp.push("workspace.josh".to_owned());
            proof {
                assert(wp.deep_view() =~= seq![ws_file_name()]);
            }
            let bytes = get_blob(t, &wp);
            let mapped = match utf8_to_string(&bytes) {
                Some(content) => match parse_workspace(content.as_str()) {
                    Ok(cw) => cw,
                    Err(e) => {
                        proof {
                            assert(unapply_v(f@, t@, parent@, fuel as nat) is Err);
                        }
                        return Err(e);
                    },
                },
                None => {
                    proof {
                        assert(unapply_v(f@, t@, parent@, fuel as nat) is Err);
                    }
                    return Err(JoshError::Parse {
                        pos: 0,
                        msg: "workspace file is not text".to_owned(),
                    });
                },
            };
            let ghost mappedv = mapped@;
            let text = pretty(&mapped, 0).concat("\n");
            let content = text.as_str().as_bytes_vec();
            proof {
                reveal_strlit("\n");
                assert("\n"@ =~= seq!['\n']);
                assert(text@ == pretty_v(mappedv, 0) + seq!['\n']);
                broadcast use vstd::string::is_ascii_spec_bytes;
            }
            let t2 = match insert(t, &wp, TreeItem::Blob(content)) {
                Ok(x) => x,
                Err(_) => {
                    proof {
                        assert(false);
                    }
                    empty()
                },
            };
            let sub = Filter::Subdir(crate::filter::clone_path(p));
            let ghost subv = sub@;
            let comp = crate::filter::compose(sub, mapped);
            proof {
                assert(comp@ == FilterV::Compose(seq![subv, mappedv]));
                assert(subv == FilterV::Subdir(p.deep_view()));
            }
            let rr = unapply_at(&comp, &t2, parent, fuel - 1);
            proof {
                let bytes_s = get_blob_v(t@, seq![ws_file_name()]);
                assert(bytes@ == bytes_s);
                assert(ws_parse_bytes(bytes_s) == Some(mappedv));
                let content_s = encode_utf8(pretty_v(mappedv, 0) + seq!['\n']);
                assert(content@ == content_s);
                let t2_s = put_path_v(t@, seq![ws_file_name()], ItemV::Blob(content_s));
                assert(t2@ == t2_s);
                assert(unapply_v(f@, t@, parent@, fuel as nat) == unapply_v(
                    comp@,
                    t2_s,
                    parent@,
                    (fuel - 1) as nat,
                ));
            }
            rr
        },
        _ => {
            proof {
                assert(unapply_v(f@, t@, parent@, fuel as nat) is Err);
            }
            Err(JoshError::FilterNotReversible)
        },
    }
}

/// Filter a single tree.
pub fn apply(f: &Filter, t: &Tree) -> (r: JoshResult<Tree>)
    ensures
        match r {
            Ok(nt) => apply_t(f@, t@) == Ok::<TreeV, TErr>(nt@),
            Err(e) => apply_t(f@, t@) == Err::<TreeV, TErr>(terr_of(e)) && (e is Parse || e
                is FilterNotReversible),
        },
{
    apply_at(f, t, WS_FUEL)
}

/// Compute the minimal change to `parent_tree` that the filter maps to
/// `tree`: `apply(f, unapply(f, tree, parent_tree)) == tree` for an
/// invertible filter and a `tree` the filter can produce.
pub fn unapply(f: &Filter, tree: &Tree, parent_tree: &Tree) -> (r: JoshResult<Tree>)
    ensures
        match r {
            Ok(nt) => unapply_t(f@, tree@, parent_tree@) == Ok::<TreeV, TErr>(nt@),
            Err(e) => unapply_t(f@, tree@, parent_tree@) == Err::<TreeV, TErr>(terr_of(e)) && (e
                is Parse || e is FilterNotReversible),
        },
{
    unapply_at(f, tree, parent_tree, WS_FUEL)
}


/// The workspace definition stored at `path` in `t`, if the blob there is
/// text and parses as a workspace file.
pub fn read_ws_filter(t: &Tree, path: &Vec<String>) -> (r: Option<Filter>)
    ensures
        match r {
            Some(f) => ws_parse_bytes(get_blob_v(t@, path.deep_view())) == Some(f@),
            None => ws_parse_bytes(get_blob_v(t@, path.deep_view())) is None,
        },
{
    let bytes = get_blob(t, path);
    match utf8_to_string(&bytes) {
        Some(content) => match parse_workspace(content.as_str()) {
            Ok(f) => Some(f),
            Err(_) => None,
        },
        None => None,
    }
}

} // verus!
