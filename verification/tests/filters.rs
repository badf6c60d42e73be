use josh::apply::{apply, unapply};
use josh::filter::{chain, compose, filter_eq, pretty, spec_str, Filter};
use josh::opt::optimize;
use josh::parse::{parse, parse_workspace};
use josh::tree::{empty, get_blob, insert, tree_eq, Tree, TreeItem};

fn path(parts: &[&str]) -> Vec<String> {
    parts.iter().map(|s| s.to_string()).collect()
}

fn with_blob(t: &Tree, parts: &[&str], content: &str) -> Tree {
    insert(t, &path(parts), TreeItem::Blob(content.as_bytes().to_vec())).unwrap()
}

fn blob_at(t: &Tree, parts: &[&str]) -> String {
    String::from_utf8(get_blob(t, &path(parts))).unwrap()
}

fn sample_tree() -> Tree {
    let t = empty();
    let t = with_blob(&t, &["a", "x"], "1");
    let t = with_blob(&t, &["a", "y"], "2");
    with_blob(&t, &["b", "z"], "3")
}

#[test]
fn nop_is_identity() {
    let t = sample_tree();
    let r = apply(&Filter::Nop, &t).unwrap();
    assert!(tree_eq(&r, &t));
    assert_eq!(spec_str(&Filter::Nop), ":nop");
}

#[test]
fn empty_absorbs() {
    let t = sample_tree();
    let r = apply(&Filter::Empty, &t).unwrap();
    assert!(tree_eq(&r, &empty()));
    let e = apply(&Filter::Subdir(path(&["a"])), &empty()).unwrap();
    assert!(tree_eq(&e, &empty()));
}

#[test]
fn subdir_apply_and_unapply() {
    // apply picks the subtree; unapply grafts it back onto the parent
    let t = sample_tree();
    let f = Filter::Subdir(path(&["a"]));
    let filtered = apply(&f, &t).unwrap();
    let expect = with_blob(&with_blob(&empty(), &["x"], "1"), &["y"], "2");
    assert!(tree_eq(&filtered, &expect));

    let parent = with_blob(&empty(), &["b", "z"], "3");
    let back = unapply(&f, &filtered, &parent).unwrap();
    assert!(tree_eq(&back, &t));
}

#[test]
fn roundtrip_invertible_filters() {
    let t = sample_tree();
    let parent = with_blob(&empty(), &["other"], "keep");
    for f in [
        Filter::Nop,
        Filter::Subdir(path(&["a"])),
        Filter::File(path(&["a", "x"])),
        Filter::Glob("*.c".to_string()),
    ] {
        let filtered = apply(&f, &t).unwrap();
        let back = unapply(&f, &filtered, &parent).unwrap();
        let again = apply(&f, &back).unwrap();
        assert!(tree_eq(&again, &filtered), "round trip failed for {}", spec_str(&f));
    }
}

#[test]
fn prefix_roundtrip() {
    let t = sample_tree();
    let f = Filter::Prefix(path(&["deep", "down"]));
    let filtered = apply(&f, &t).unwrap();
    assert_eq!(blob_at(&filtered, &["deep", "down", "a", "x"]), "1");
    let back = unapply(&f, &filtered, &empty()).unwrap();
    assert!(tree_eq(&back, &t));
}

#[test]
fn subdir_prefix_chain_normalises_to_nop() {
    let f = chain(
        Filter::Subdir(path(&["a"])),
        Filter::Prefix(path(&["a"])),
    );
    let o = optimize(&f);
    assert!(o.is_nop());
    // and the restriction semantics on the a subtree
    let t = sample_tree();
    let r = apply(&f, &t).unwrap();
    assert_eq!(blob_at(&r, &["a", "x"]), "1");
    assert_eq!(blob_at(&r, &["a", "y"]), "2");
    assert!(tree_eq(&apply(&Filter::Subdir(path(&["b"])), &r).unwrap(), &empty()));
}

#[test]
fn glob_exclude() {
    let t = empty();
    let t = with_blob(&t, &["src", "main.c"], "m");
    let t = with_blob(&t, &["src", "test.c"], "t");
    let t = with_blob(&t, &["README"], "r");
    let f = Filter::Subtract(
        Box::new(Filter::Nop),
        Box::new(Filter::Glob("**/test.c".to_string())),
    );
    let r = apply(&f, &t).unwrap();
    assert_eq!(blob_at(&r, &["src", "main.c"]), "m");
    assert_eq!(blob_at(&r, &["README"]), "r");
    assert_eq!(get_blob(&r, &path(&["src", "test.c"])), Vec::<u8>::new());
}

#[test]
fn glob_character_classes() {
    // a bracketed set is part of the pattern, not a group delimiter
    let f = parse("::*.[ch]").unwrap();
    assert!(matches!(&f, Filter::Glob(_)));
    let printed = spec_str(&f);
    assert_eq!(printed, "::*.[ch]");
    assert!(filter_eq(&parse(&printed).unwrap(), &f));
    let t = with_blob(
        &with_blob(&with_blob(&empty(), &["a.c"], "1"), &["a.h"], "2"),
        &["a.o"],
        "3",
    );
    let r = apply(&f, &t).unwrap();
    assert_eq!(blob_at(&r, &["a.c"]), "1");
    assert_eq!(blob_at(&r, &["a.h"]), "2");
    assert_eq!(get_blob(&r, &path(&["a.o"])), Vec::<u8>::new());
    // inside a group too
    let g = parse(":[::*.[ch],:/b]").unwrap();
    assert!(matches!(&g, Filter::Compose(_)));
}

#[test]
fn glob_keeps_only_matches() {
    // a glob that handed its input back unchanged would keep b.h
    let t = with_blob(&with_blob(&empty(), &["a.c"], "1"), &["b.h"], "2");
    let r = apply(&Filter::Glob("*.c".to_string()), &t).unwrap();
    assert_eq!(blob_at(&r, &["a.c"]), "1");
    assert_eq!(get_blob(&r, &path(&["b.h"])), Vec::<u8>::new());
    let bad = apply(&Filter::Glob("[".to_string()), &t);
    assert!(bad.is_err());
}

#[test]
fn workspace_filter() {
    let t = empty();
    let t = with_blob(&t, &["ws", "workspace.josh"], ":/lib");
    let t = with_blob(&t, &["lib", "a"], "x");
    let r = apply(&Filter::Workspace(path(&["ws"])), &t).unwrap();
    assert_eq!(blob_at(&r, &["a"]), "x");
    assert_eq!(blob_at(&r, &["workspace.josh"]), ":/lib");
}

#[test]
fn workspace_falls_back_to_subdir() {
    let t = with_blob(&empty(), &["ws", "inner"], "i");
    let r = apply(&Filter::Workspace(path(&["ws"])), &t).unwrap();
    assert_eq!(blob_at(&r, &["inner"]), "i");
}

#[test]
fn compose_associativity() {
    let t = sample_tree();
    let a = Filter::Subdir(path(&["a"]));
    let b = Filter::Prefix(path(&["p"]));
    let c = Filter::File(path(&["b", "z"]));
    let nested = Filter::Compose(vec![
        josh::filter::clone_filter(&a),
        Filter::Compose(vec![
            josh::filter::clone_filter(&b),
            josh::filter::clone_filter(&c),
        ]),
    ]);
    let flat = Filter::Compose(vec![a, b, c]);
    let rn = apply(&nested, &t).unwrap();
    let rf = apply(&flat, &t).unwrap();
    assert!(tree_eq(&rn, &rf));
}

#[test]
fn chain_associativity() {
    let t = sample_tree();
    let a = Filter::Prefix(path(&["p"]));
    let b = Filter::Subdir(path(&["p"]));
    let c = Filter::Prefix(path(&["q"]));
    let left = chain(
        chain(josh::filter::clone_filter(&a), josh::filter::clone_filter(&b)),
        josh::filter::clone_filter(&c),
    );
    let right = chain(a, chain(b, c));
    let rl = apply(&left, &t).unwrap();
    let rr = apply(&right, &t).unwrap();
    assert!(tree_eq(&rl, &rr));
}

#[test]
fn spec_roundtrip() {
    for s in [
        ":nop",
        ":empty",
        ":DIRS",
        ":FOLD",
        ":SQUASH",
        ":/a/b",
        "::a/b/c",
        "::*.c",
        ":prefix=p",
        ":workspace=ws",
        ":/a:prefix=b",
        ":[:/a,::*.h]",
        ":subtract[:nop,::*.c]",
        ":exclude[::*.c]",
    ] {
        let f = parse(s).unwrap();
        let f = optimize(&f);
        let printed = spec_str(&f);
        let again = optimize(&parse(&printed).unwrap());
        assert!(filter_eq(&f, &again), "spec round trip failed for {}", s);
    }
}

#[test]
fn parse_rejects_malformed_specs() {
    for s in ["", "junk", ":", ":[", ":[]", "::", ":/", ":nopx", ":subtract[:nop]"] {
        assert!(parse(s).is_err(), "parse accepted {:?}", s);
    }
}

#[test]
fn parse_exclude_and_dir_shorthand() {
    let f = parse(":exclude[::*.o]").unwrap();
    match &f {
        Filter::Subtract(a, _) => assert!(a.is_nop()),
        _ => panic!("unexpected shape"),
    }
    let g = parse("::sub/").unwrap();
    let t = sample_tree();
    let t = with_blob(&t, &["sub", "k"], "v");
    let r = apply(&g, &t).unwrap();
    assert_eq!(blob_at(&r, &["sub", "k"]), "v");
    assert_eq!(get_blob(&r, &path(&["a", "x"])), Vec::<u8>::new());
}

#[test]
fn optimize_rules() {
    let nop = Filter::Nop;
    assert!(optimize(&chain(nop, Filter::Subdir(path(&["a"])))).is_nop() == false);
    assert!(filter_eq(
        &optimize(&chain(Filter::Nop, Filter::Subdir(path(&["a"])))),
        &Filter::Subdir(path(&["a"]))
    ));
    assert!(matches!(
        optimize(&chain(Filter::Empty, Filter::Subdir(path(&["a"])))),
        Filter::Empty
    ));
    assert!(matches!(optimize(&Filter::Compose(vec![])), Filter::Empty));
    assert!(filter_eq(
        &optimize(&Filter::Compose(vec![Filter::Subdir(path(&["a"]))])),
        &Filter::Subdir(path(&["a"]))
    ));
    // nested groups flatten
    let nested = Filter::Compose(vec![
        Filter::Subdir(path(&["a"])),
        Filter::Compose(vec![Filter::Subdir(path(&["b"])), Filter::Subdir(path(&["c"]))]),
    ]);
    let flat = Filter::Compose(vec![
        Filter::Subdir(path(&["a"])),
        Filter::Subdir(path(&["b"])),
        Filter::Subdir(path(&["c"])),
    ]);
    assert!(filter_eq(&optimize(&nested), &optimize(&flat)));
}

#[test]
fn pretty_display_forms() {
    // a subdirectory rehung under the same prefix keeps the shorthand
    let f = chain(
        Filter::Subdir(path(&["a"])),
        Filter::Prefix(path(&["a"])),
    );
    assert_eq!(pretty(&f, 0), "::a/");
    // an atom prints without indentation
    assert_eq!(pretty(&Filter::Nop, 3), ":nop");
    // a chain ending in a prefix prints as an assignment inside a group
    let g = Filter::Compose(vec![chain(
        Filter::Subdir(path(&["lib"])),
        Filter::Prefix(path(&["sub"])),
    )]);
    assert_eq!(pretty(&g, 0), "sub = :/lib");
    let h = parse_workspace(&pretty(&g, 0)).unwrap();
    match &h {
        Filter::Chain(a, b) => {
            assert!(filter_eq(a, &Filter::Subdir(path(&["lib"]))));
            assert!(filter_eq(b, &Filter::Prefix(path(&["sub"]))));
        }
        _ => panic!("unexpected workspace shape"),
    }
}

#[test]
fn sibling_prefixes_fold() {
    // two members rehung under one prefix fold into a single member
    let f = parse(":[:/x:prefix=p,:/y:prefix=p]").unwrap();
    let o = optimize(&f);
    match &o {
        Filter::Chain(front, b) => {
            assert!(matches!(&**b, Filter::Prefix(_)));
            assert!(matches!(&**front, Filter::Compose(_)));
        }
        _ => panic!("expected a folded chain, got {}", spec_str(&o)),
    }
    // and the fold preserves the result
    let t = with_blob(&with_blob(&empty(), &["x", "f"], "1"), &["y", "g"], "2");
    let a = apply(&f, &t).unwrap();
    let b = apply(&o, &t).unwrap();
    assert!(tree_eq(&a, &b));
    assert_eq!(blob_at(&a, &["p", "f"]), "1");
    assert_eq!(blob_at(&a, &["p", "g"]), "2");
    // members with distinct prefixes stay apart
    let g = parse(":[:/x:prefix=p,:/y:prefix=q]").unwrap();
    assert!(matches!(optimize(&g), Filter::Compose(_)));
}

#[test]
fn pretty_and_workspace_files() {
    let f = parse(":[:/a,:/b]").unwrap();
    let p = pretty(&f, 0);
    assert_eq!(p, ":/a\n:/b");
    let g = parse_workspace(&p).unwrap();
    assert!(filter_eq(&optimize(&g), &optimize(&f)));

    let h = parse_workspace("# a comment\n\n  sub = :/lib  \n").unwrap();
    match &h {
        Filter::Chain(a, b) => {
            assert!(filter_eq(a, &Filter::Subdir(path(&["lib"]))));
            assert!(filter_eq(b, &Filter::Prefix(path(&["sub"]))));
        }
        _ => panic!("unexpected workspace shape"),
    }
    assert!(parse_workspace("").is_err());
    assert!(parse_workspace("# only a comment\n").is_err());
}

#[test]
fn dirs_and_fold_and_squash_on_trees() {
    let t = sample_tree();
    assert!(tree_eq(&apply(&Filter::Fold, &t).unwrap(), &t));
    assert!(tree_eq(&apply(&Filter::Squash, &t).unwrap(), &t));
    let d = apply(&Filter::Dirs, &t).unwrap();
    assert_eq!(blob_at(&d, &["a", "JOSH_DIRS"]), "");
    assert_eq!(blob_at(&d, &["b", "JOSH_DIRS"]), "");
    assert_eq!(get_blob(&d, &path(&["a", "x"])), Vec::<u8>::new());
    assert!(tree_eq(&apply(&Filter::Dirs, &empty()).unwrap(), &empty()));
}

#[test]
fn file_filter_keeps_one_blob() {
    let t = sample_tree();
    let r = apply(&Filter::File(path(&["a", "x"])), &t).unwrap();
    assert_eq!(blob_at(&r, &["a", "x"]), "1");
    assert_eq!(get_blob(&r, &path(&["a", "y"])), Vec::<u8>::new());
    let none = apply(&Filter::File(path(&["missing"])), &t).unwrap();
    assert!(tree_eq(&none, &empty()));
}

#[test]
fn subtract_not_reversible() {
    let t = sample_tree();
    let f = Filter::Subtract(
        Box::new(Filter::Subdir(path(&["a"]))),
        Box::new(Filter::File(path(&["x"]))),
    );
    let e = unapply(&f, &t, &empty());
    assert!(matches!(e, Err(josh::JoshError::FilterNotReversible)));
}

#[test]
fn compose_builder() {
    let t = sample_tree();
    let f = compose(
        Filter::Subdir(path(&["a"])),
        Filter::Prefix(path(&["under"])),
    );
    let r = apply(&f, &t).unwrap();
    // the later member wins where both place entries
    assert_eq!(blob_at(&r, &["x"]), "1");
    assert_eq!(blob_at(&r, &["under", "a", "x"]), "1");
}
