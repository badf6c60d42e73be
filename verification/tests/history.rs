use josh::cache::Transaction;
use josh::filter::{spec_str, Filter};
use josh::history::{
    apply_filter_to_refs, apply_to_commit, find_known, unapply_filter, walk, walk2, RefStore,
    WALK_FUEL,
};
use josh::opt::optimize;
use josh::repo::Repo;
use josh::tree::{empty, insert, tree_eq, Tree, TreeItem};
use josh::UnapplyFilter;

fn path(parts: &[&str]) -> Vec<String> {
    parts.iter().map(|s| s.to_string()).collect()
}

fn with_blob(t: &Tree, parts: &[&str], content: &[u8]) -> Tree {
    insert(t, &path(parts), TreeItem::Blob(content.to_vec())).unwrap()
}

fn commit(repo: &mut Repo, tree: Tree, parents: Vec<u64>, msg: &str) -> u64 {
    repo.new_commit(
        tree,
        parents,
        "author".to_string(),
        "committer".to_string(),
        msg.to_string(),
    )
}

#[test]
fn walk_filters_a_small_history() {
    let mut repo = Repo::new();
    let t1 = with_blob(&with_blob(&empty(), &["sub", "f"], b"1"), &["other"], b"o");
    let c1 = commit(&mut repo, t1, vec![], "one");
    let t2 = with_blob(&with_blob(&empty(), &["sub", "f"], b"2"), &["other"], b"o");
    let c2 = commit(&mut repo, t2, vec![c1], "two");

    let f = Filter::Subdir(path(&["sub"]));
    let tip = walk(&mut repo, &f, c2).unwrap();
    assert!(tip != 0);
    let ftree = &repo.commit_at(tip).tree;
    let expect = with_blob(&empty(), &["f"], b"2");
    assert!(tree_eq(ftree, &expect));
    let fparents = repo.commit_at(tip).parents.clone();
    assert_eq!(fparents.len(), 1);
    let ptree = &repo.commit_at(fparents[0]).tree;
    let pexpect = with_blob(&empty(), &["f"], b"1");
    assert!(tree_eq(ptree, &pexpect));
}

#[test]
fn nop_and_empty_on_commits() {
    let mut repo = Repo::new();
    let c1 = commit(&mut repo, with_blob(&empty(), &["f"], b"x"), vec![], "c");
    let mut tx = Transaction::new();
    assert_eq!(
        apply_to_commit(&mut repo, &mut tx, &Filter::Nop, c1, WALK_FUEL).unwrap(),
        c1
    );
    assert_eq!(
        apply_to_commit(&mut repo, &mut tx, &Filter::Empty, c1, WALK_FUEL).unwrap(),
        0
    );
}

#[test]
fn signature_preservation_end_to_end() {
    // the filter keeps every tree unchanged, so every commit passes
    // through with its identity
    let mut repo = Repo::new();
    let c1 = commit(&mut repo, with_blob(&empty(), &["f"], b"1"), vec![], "one");
    let c2 = commit(&mut repo, with_blob(&empty(), &["f"], b"2"), vec![c1], "two");
    let f = Filter::Glob("*".to_string());
    let tip = walk(&mut repo, &f, c2).unwrap();
    assert_eq!(tip, c2);
}

#[test]
fn commits_collapse_outside_the_filter() {
    // a change outside the filtered subtree collapses into its parent
    let mut repo = Repo::new();
    let t1 = with_blob(&with_blob(&empty(), &["sub", "f"], b"1"), &["o"], b"a");
    let c1 = commit(&mut repo, t1, vec![], "in");
    let t2 = with_blob(&with_blob(&empty(), &["sub", "f"], b"1"), &["o"], b"b");
    let c2 = commit(&mut repo, t2, vec![c1], "outside only");
    let f = Filter::Subdir(path(&["sub"]));
    let tip = walk(&mut repo, &f, c2).unwrap();
    assert!(tip != 0);
    assert_eq!(repo.commit_at(tip).parents.len(), 0);
}

#[test]
fn reject_merge_on_divergent_sides() {
    let mut repo = Repo::new();
    let rt = with_blob(&empty(), &["sub", "f"], b"0");
    let r = commit(&mut repo, rt, vec![], "root");
    let at = with_blob(&with_blob(&empty(), &["sub", "f"], b"a"), &["oa"], b"1");
    let a1 = commit(&mut repo, at, vec![r], "a");
    let bt = with_blob(&with_blob(&empty(), &["sub", "f"], b"b"), &["ob"], b"2");
    let b1 = commit(&mut repo, bt, vec![r], "b");
    let mt = with_blob(
        &with_blob(&with_blob(&empty(), &["sub", "f"], b"m"), &["oa"], b"1"),
        &["ob"],
        b"2",
    );
    let m = commit(&mut repo, mt, vec![a1, b1], "merge");

    let f = Filter::Subdir(path(&["sub"]));
    let mut tx = Transaction::new();
    let fm = walk2(&mut repo, &mut tx, &f, m, WALK_FUEL).unwrap();
    assert!(fm != 0);
    let fparents = repo.commit_at(fm).parents.clone();
    assert_eq!(fparents.len(), 2);

    // push a new filtered merge of the two filtered sides
    let ntree = with_blob(&empty(), &["f"], b"n");
    let n = commit(&mut repo, ntree, vec![fparents[0], fparents[1]], "push");
    let res = unapply_filter(&mut repo, &mut tx, &f, m, fm, n).unwrap();
    assert!(matches!(res, UnapplyFilter::RejectMerge(2)));
}

#[test]
fn unapply_filter_rebuilds_an_edit() {
    let mut repo = Repo::new();
    let t1 = with_blob(&with_blob(&empty(), &["sub", "f"], b"1"), &["o"], b"keep");
    let c1 = commit(&mut repo, t1, vec![], "base");
    let f = Filter::Subdir(path(&["sub"]));
    let mut tx = Transaction::new();
    let f1 = walk2(&mut repo, &mut tx, &f, c1, WALK_FUEL).unwrap();
    assert!(f1 != 0);

    // an edit on the filtered view
    let edited = with_blob(&empty(), &["f"], b"2");
    let n = commit(&mut repo, edited, vec![f1], "edit");
    let res = unapply_filter(&mut repo, &mut tx, &f, c1, f1, n).unwrap();
    match res {
        UnapplyFilter::Done(id) => {
            assert!(id != 0);
            let t = &repo.commit_at(id).tree;
            let expect =
                with_blob(&with_blob(&empty(), &["sub", "f"], b"2"), &["o"], b"keep");
            assert!(tree_eq(t, &expect));
            assert_eq!(repo.commit_at(id).parents, vec![c1]);
        }
        other => panic!("expected a rebuilt commit, got {:?}", other),
    }
}

#[test]
fn unapply_filter_null_base() {
    let mut repo = Repo::new();
    let c1 = commit(&mut repo, with_blob(&empty(), &["f"], b"1"), vec![], "c");
    let mut tx = Transaction::new();
    let res = unapply_filter(&mut repo, &mut tx, &Filter::Nop, 0, 0, c1).unwrap();
    assert!(matches!(res, UnapplyFilter::BranchDoesNotExist));
}

#[test]
fn incremental_walk_visits_one_commit() {
    let mut repo = Repo::new();
    let n: u64 = 10_000;
    let mut prev: Vec<u64> = vec![];
    let mut tip = 0u64;
    for i in 0..n {
        let t = with_blob(&empty(), &["d", "f"], format!("{}", i).as_bytes());
        tip = commit(&mut repo, t, prev.clone(), "step");
        prev = vec![tip];
    }
    let f = Filter::Subdir(path(&["d"]));
    let mut tx = Transaction::new();
    let ftip = walk2(&mut repo, &mut tx, &f, tip, WALK_FUEL).unwrap();
    assert!(ftip != 0);

    // advance the tip by one commit
    let t = with_blob(&empty(), &["d", "f"], b"new");
    let tip2 = commit(&mut repo, t, vec![tip], "advance");
    let key = spec_str(&optimize(&f));
    let (known, n_new) = find_known(&repo, &mut tx, &key, tip2);
    assert_eq!(n_new, 1);
    assert!(!known.is_empty());
    let ftip2 = walk2(&mut repo, &mut tx, &f, tip2, WALK_FUEL).unwrap();
    assert!(ftip2 != 0);
    assert_eq!(repo.commit_at(ftip2).parents, vec![ftip]);
}

#[test]
fn cache_equivalence() {
    // a fresh transaction and one already holding the history agree
    let mut repo = Repo::new();
    let c1 = commit(&mut repo, with_blob(&empty(), &["d", "f"], b"1"), vec![], "one");
    let c2 = commit(
        &mut repo,
        with_blob(&empty(), &["d", "f"], b"2"),
        vec![c1],
        "two",
    );
    let f = Filter::Subdir(path(&["d"]));

    let mut repo2 = Repo::new();
    let d1 = commit(&mut repo2, with_blob(&empty(), &["d", "f"], b"1"), vec![], "one");
    let d2 = commit(
        &mut repo2,
        with_blob(&empty(), &["d", "f"], b"2"),
        vec![d1],
        "two",
    );
    assert_eq!(c1, d1);
    assert_eq!(c2, d2);

    let mut tx_a = Transaction::new();
    let ra = walk2(&mut repo, &mut tx_a, &f, c2, WALK_FUEL).unwrap();
    // tx_a is now populated: running again must give the same answer
    let rb = walk2(&mut repo, &mut tx_a, &f, c2, WALK_FUEL).unwrap();
    // and a fresh transaction on an identical store gives the same answer
    let mut tx_c = Transaction::new();
    let rc = walk2(&mut repo2, &mut tx_c, &f, d2, WALK_FUEL).unwrap();
    assert_eq!(ra, rb);
    assert_eq!(ra, rc);
}

#[test]
fn transaction_counters_and_entries() {
    let mut repo = Repo::new();
    let c1 = commit(&mut repo, with_blob(&empty(), &["f"], b"1"), vec![], "c");
    let mut tx = Transaction::new();
    assert_eq!(tx.get(":/d", c1, &repo), None);
    assert_eq!(tx.misses, 1);
    tx.insert(":/d", c1, 0, true);
    assert_eq!(tx.get(":/d", c1, &repo), Some(0));
    assert_eq!(tx.hits, 1);
    // an entry naming a vanished object is not returned
    tx.insert(":/d", c1, 99, true);
    assert_eq!(tx.get(":/d", c1, &repo), None);
    assert_eq!(tx.misses, 2);
}

#[test]
fn refs_update_and_count() {
    let mut repo = Repo::new();
    let c1 = commit(
        &mut repo,
        with_blob(&with_blob(&empty(), &["d", "f"], b"1"), &["o"], b"x"),
        vec![],
        "c",
    );
    let mut refs = RefStore::new();
    refs.set("refs/heads/master", c1);
    let f = Filter::Subdir(path(&["d"]));
    let pairs = vec![(
        "refs/heads/master".to_string(),
        "refs/josh/master".to_string(),
    )];
    let mut tx = Transaction::new();
    let updated = apply_filter_to_refs(&mut repo, &mut tx, &mut refs, &f, &pairs).unwrap();
    assert_eq!(updated, 1);
    let target = refs.get("refs/josh/master").unwrap();
    assert!(target != 0);
    assert!(tree_eq(
        &repo.commit_at(target).tree,
        &with_blob(&empty(), &["f"], b"1")
    ));
    // a second run changes nothing
    let updated2 = apply_filter_to_refs(&mut repo, &mut tx, &mut refs, &f, &pairs).unwrap();
    assert_eq!(updated2, 0);
    // a missing source ref is no update
    let pairs2 = vec![("refs/heads/gone".to_string(), "refs/josh/gone".to_string())];
    let updated3 = apply_filter_to_refs(&mut repo, &mut tx, &mut refs, &f, &pairs2).unwrap();
    assert_eq!(updated3, 0);
    assert!(refs.get("refs/josh/gone").is_none());
}

#[test]
fn squash_walk_matches_direct_application() {
    // the squash result is memoised, so a walk and a direct application
    // agree and repeated calls do not grow the store
    let mut repo = Repo::new();
    let c1 = commit(&mut repo, with_blob(&empty(), &["f"], b"1"), vec![], "one");
    let c2 = commit(&mut repo, with_blob(&empty(), &["f"], b"2"), vec![c1], "two");
    let f = Filter::Squash;
    let mut tx = Transaction::new();
    let w = walk2(&mut repo, &mut tx, &f, c2, WALK_FUEL).unwrap();
    let len_after_walk = repo.len();
    let d = apply_to_commit(&mut repo, &mut tx, &f, c2, WALK_FUEL).unwrap();
    assert_eq!(w, d);
    assert_eq!(repo.len(), len_after_walk);
    let d2 = apply_to_commit(&mut repo, &mut tx, &f, c2, WALK_FUEL).unwrap();
    assert_eq!(w, d2);
    assert_eq!(repo.len(), len_after_walk);
}

#[test]
fn squash_drops_parents() {
    let mut repo = Repo::new();
    let c1 = commit(&mut repo, with_blob(&empty(), &["f"], b"1"), vec![], "one");
    let c2 = commit(&mut repo, with_blob(&empty(), &["f"], b"2"), vec![c1], "two");
    let mut tx = Transaction::new();
    let s = apply_to_commit(&mut repo, &mut tx, &Filter::Squash, c2, WALK_FUEL).unwrap();
    assert!(s != 0);
    assert_eq!(repo.commit_at(s).parents.len(), 0);
    assert!(tree_eq(&repo.commit_at(s).tree, &repo.commit_at(c2).tree));
}

#[test]
fn chain_on_commits() {
    let mut repo = Repo::new();
    let t = with_blob(&with_blob(&empty(), &["a", "b", "f"], b"1"), &["x"], b"y");
    let c1 = commit(&mut repo, t, vec![], "c");
    let f = Filter::Chain(
        Box::new(Filter::Subdir(path(&["a"]))),
        Box::new(Filter::Subdir(path(&["b"]))),
    );
    let mut tx = Transaction::new();
    let r = apply_to_commit(&mut repo, &mut tx, &f, c1, WALK_FUEL).unwrap();
    assert!(r != 0);
    assert!(tree_eq(&repo.commit_at(r).tree, &with_blob(&empty(), &["f"], b"1")));
}
