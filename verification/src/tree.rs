use vstd::prelude::*;

verus! {

// ===========================================================================
// Content-addressed trees, modelled as values.
//
// A tree is an ordered list of named entries; an entry holds either a blob
// (its content) or a subtree.  Because trees are plain values, two trees
// with equal entries are equal, which models content addressing.
//
// Canonical form: entry names are strictly sorted, every name is a nonempty
// string without '/', and no entry holds an empty subtree.  All operations
// below preserve canonical form, so value equality coincides with semantic
// equality of the path-to-blob mapping.
// ===========================================================================

pub enum TreeItem {
    Blob(Vec<u8>),
    Dir(Tree),
}

pub struct TreeEntry {
    pub name: String,
    pub item: TreeItem,
}

pub struct Tree {
    pub entries: Vec<TreeEntry>,
}

// ---------------------------------------------------------------------------
// Ghost model
// ---------------------------------------------------------------------------

pub enum ItemV {
    Blob(Seq<u8>),
    Dir(TreeV),
}

pub struct EntryV {
    pub name: Seq<char>,
    pub item: ItemV,
}

pub type TreeV = Seq<EntryV>;

pub open spec fn item_view(i: TreeItem) -> ItemV
    decreases i,
{
    match i {
        TreeItem::Blob(b) => ItemV::Blob(b@),
        TreeItem::Dir(t) => ItemV::Dir(tree_view(t)),
    }
}

pub open spec fn entry_view(e: TreeEntry) -> EntryV
    decreases e,
{
    EntryV { name: e.name@, item: item_view(e.item) }
}

pub open spec fn entries_view(s: Seq<TreeEntry>) -> Seq<EntryV>
    decreases s,
{
    if s.len() == 0 {
        Seq::empty()
    } else {
        entries_view(s.drop_last()).push(entry_view(s.last()))
    }
}

pub open spec fn tree_view(t: Tree) -> TreeV
    decreases t,
{
    entries_view(t.entries@)
}

pub broadcast proof fn lemma_entries_view(s: Seq<TreeEntry>)
    ensures
        (#[trigger] entries_view(s)).len() == s.len(),
        forall|i: int| 0 <= i < s.len() ==> entries_view(s)[i] == entry_view(s[i]),
    decreases s,
{
    if s.len() > 0 {
        lemma_entries_view(s.drop_last());
    }
}

pub broadcast proof fn lemma_entries_view_push(s: Seq<TreeEntry>, e: TreeEntry)
    ensures
        #[trigger] entries_view(s.push(e)) == entries_view(s).push(entry_view(e)),
{
    assert(s.push(e).drop_last() =~= s);
}

impl View for Tree {
    type V = TreeV;

    open spec fn view(&self) -> TreeV {
        tree_view(*self)
    }
}

impl View for TreeItem {
    type V = ItemV;

    open spec fn view(&self) -> ItemV {
        item_view(*self)
    }
}

// ---------------------------------------------------------------------------
// Lexicographic order on names
// ---------------------------------------------------------------------------

pub open spec fn lex_lt(a: Seq<char>, b: Seq<char>) -> bool
    decreases a.len(),
{
    if b.len() == 0 {
        false
    } else if a.len() == 0 {
        true
    } else if a[0] == b[0] {
        lex_lt(a.skip(1), b.skip(1))
    } else {
        a[0] < b[0]
    }
}

/// A valid entry name: nonempty and free of the path separator.
pub open spec fn wf_name(n: Seq<char>) -> bool {
    n.len() > 0 && forall|i: int| 0 <= i < n.len() ==> n[i] != '/'
}

pub open spec fn wf_item(i: ItemV) -> bool
    decreases i,
{
    match i {
        ItemV::Blob(_) => true,
        ItemV::Dir(t) => t.len() > 0 && wf_tree(t),
    }
}

/// Canonical form: names strictly sorted and valid, subtrees canonical and
/// nonempty.
pub open spec fn wf_tree(t: TreeV) -> bool
    decreases t,
{
    &&& forall|i: int| 0 <= i < t.len() ==> wf_name(#[trigger] t[i].name)
    &&& forall|i: int, j: int| 0 <= i < j < t.len() ==> lex_lt(t[i].name, t[j].name)
    &&& forall|i: int| 0 <= i < t.len() ==> wf_item(#[trigger] t[i].item)
}

// ---------------------------------------------------------------------------
// Executable order and equality on names
// ---------------------------------------------------------------------------

/// Strict lexicographic order on strings, by characters.
pub fn str_lt(a: &str, b: &str) -> (r: bool)
    ensures
        r == lex_lt(a@, b@),
{
    let alen = a.unicode_len();
    let blen = b.unicode_len();
    let mut i: usize = 0;
    proof {
        assert(a@.skip(0) =~= a@);
        assert(b@.skip(0) =~= b@);
    }
    loop
        invariant
            i <= alen,
            i <= blen,
            alen == a@.len(),
            blen == b@.len(),
            forall|k: int| 0 <= k < i ==> a@[k] == b@[k],
            lex_lt(a@, b@) == lex_lt(a@.skip(i as int), b@.skip(i as int)),
        decreases alen - i,
    {
        if i == blen {
            proof {
                reveal_with_fuel(lex_lt, 2);
                assert(b@.skip(i as int).len() == 0);
            }
            return false;
        }
        if i == alen {
            proof {
                reveal_with_fuel(lex_lt, 2);
                assert(a@.skip(i as int).len() == 0);
                assert(b@.skip(i as int).len() > 0);
            }
            return true;
        }
        let ca = a.get_char(i);
        let cb = b.get_char(i);
        if ca != cb {
            proof {
                reveal_with_fuel(lex_lt, 2);
                assert(a@.skip(i as int)[0] == a@[i as int]);
                assert(b@.skip(i as int)[0] == b@[i as int]);
            }
            return ca < cb;
        }
        proof {
            reveal_with_fuel(lex_lt, 2);
            assert(a@.skip(i as int)[0] == a@[i as int]);
            assert(b@.skip(i as int)[0] == b@[i as int]);
            assert(a@.skip(i as int).skip(1) =~= a@.skip(i + 1));
            assert(b@.skip(i as int).skip(1) =~= b@.skip(i + 1));
        }
        i = i + 1;
    }
}

pub proof fn lemma_lex_trichotomy(a: Seq<char>, b: Seq<char>)
    requires
        !lex_lt(a, b),
        !lex_lt(b, a),
    ensures
        a == b,
    decreases a.len(),
{
    if a.len() == 0 || b.len() == 0 {
        assert(a =~= b);
    } else {
        if a[0] == b[0] {
            lemma_lex_trichotomy(a.skip(1), b.skip(1));
            assert(a =~= seq![a[0]] + a.skip(1));
            assert(b =~= seq![b[0]] + b.skip(1));
        } else {
            assert(false);
        }
    }
}

/// Character-wise string equality.
pub fn str_eq(a: &str, b: &str) -> (r: bool)
    ensures
        r == (a@ == b@),
{
    let alen = a.unicode_len();
    let blen = b.unicode_len();
    if alen != blen {
        return false;
    }
    let mut i: usize = 0;
    while i < alen
        invariant
            i <= alen,
            alen == a@.len(),
            alen == b@.len(),
            forall|k: int| 0 <= k < i ==> a@[k] == b@[k],
        decreases alen - i,
    {
        if a.get_char(i) != b.get_char(i) {
            return false;
        }
        i = i + 1;
    }
    proof {
        assert(a@ =~= b@);
    }
    true
}

// ---------------------------------------------------------------------------
// Construction and cloning
// ---------------------------------------------------------------------------

/// The canonical empty tree.
pub fn empty() -> (r: Tree)
    ensures
        r@ == Seq::<EntryV>::empty(),
{
    Tree { entries: Vec::new() }
}

pub fn clone_bytes(b: &Vec<u8>) -> (r: Vec<u8>)
    ensures
        r@ == b@,
{
    let mut r: Vec<u8> = Vec::new();
    let mut i: usize = 0;
    while i < b.len()
        invariant
            i <= b.len(),
            r@ == b@.take(i as int),
        decreases b.len() - i,
    {
        r.push(b[i]);
        proof {
            assert(b@.take(i + 1) =~= b@.take(i as int).push(b@[i as int]));
        }
        i = i + 1;
    }
    proof {
        assert(b@.take(b@.len() as int) =~= b@);
    }
    r
}

pub fn clone_item(it: &TreeItem) -> (r: TreeItem)
    ensures
        r@ == it@,
    decreases *it,
{
    match it {
        TreeItem::Blob(b) => TreeItem::Blob(clone_bytes(b)),
        TreeItem::Dir(t) => TreeItem::Dir(clone_tree(t)),
    }
}

pub fn clone_tree(t: &Tree) -> (r: Tree)
    ensures
        r@ == t@,
    decreases *t,
{
    let mut entries: Vec<TreeEntry> = Vec::new();
    let mut i: usize = 0;
    while i < t.entries.len()
        invariant
            i <= t.entries.len(),
            entries@.len() == i,
            forall|k: int| 0 <= k < i ==> entry_view(#[trigger] entries@[k]) == entry_view(t.entries@[k]),
        decreases t.entries.len() - i,
    {
        let e = &t.entries[i];
        let ne = TreeEntry { name: e.name.clone(), item: clone_item(&e.item) };
        entries.push(ne);
        i = i + 1;
    }
    proof {
        lemma_entries_view(entries@);
        lemma_entries_view(t.entries@);
        assert(entries_view(entries@) =~= entries_view(t.entries@));
    }
    Tree { entries }
}

// ---------------------------------------------------------------------------
// Entry lookup and insertion (single level)
// ---------------------------------------------------------------------------

/// The item stored under `name`, if any (first match).
pub open spec fn lookup_v(t: TreeV, name: Seq<char>) -> Option<ItemV>
    decreases t.len(),
{
    if t.len() == 0 {
        None
    } else if t[0].name == name {
        Some(t[0].item)
    } else {
        lookup_v(t.skip(1), name)
    }
}

pub open spec fn is_empty_dir(i: ItemV) -> bool {
    i matches ItemV::Dir(d) && d.len() == 0
}

/// Remove the entry named `name`, if present.
pub open spec fn remove_entry_v(t: TreeV, name: Seq<char>) -> TreeV
    decreases t.len(),
{
    if t.len() == 0 {
        t
    } else if t[0].name == name {
        t.skip(1)
    } else {
        seq![t[0]] + remove_entry_v(t.skip(1), name)
    }
}

/// Place `item` under `name`, keeping the sorted order; replaces an
/// existing entry of the same name.
pub open spec fn put_entry_v(t: TreeV, name: Seq<char>, item: ItemV) -> TreeV
    decreases t.len(),
{
    if t.len() == 0 {
        seq![EntryV { name, item }]
    } else if lex_lt(name, t[0].name) {
        seq![EntryV { name, item }] + t
    } else if t[0].name == name {
        seq![EntryV { name, item }] + t.skip(1)
    } else {
        seq![t[0]] + put_entry_v(t.skip(1), name, item)
    }
}

/// Canonical single-level update: an empty subtree is never stored, it
/// removes the entry instead.
pub open spec fn insert_entry_v(t: TreeV, name: Seq<char>, item: ItemV) -> TreeV {
    if is_empty_dir(item) {
        remove_entry_v(t, name)
    } else {
        put_entry_v(t, name, item)
    }
}

/// Copy the entries of `t` from index `i` on into `out`.
fn append_rest(out: &mut Vec<TreeEntry>, t: &Tree, i: usize)
    requires
        i <= t.entries@.len(),
    ensures
        entries_view(final(out)@) == entries_view(old(out)@) + t@.skip(i as int),
{
    broadcast use lemma_entries_view, lemma_entries_view_push;

    let mut j = i;
    proof {
        lemma_entries_view(t.entries@);
        assert(entries_view(out@) + t@.subrange(i as int, i as int) =~= entries_view(out@));
    }
    while j < t.entries.len()
        invariant
            i <= j <= t.entries@.len(),
            t@.len() == t.entries@.len(),
            forall|k: int| 0 <= k < t@.len() ==> t@[k] == entry_view(#[trigger] t.entries@[k]),
            entries_view(out@) == entries_view(old(out)@) + t@.subrange(i as int, j as int),
        decreases t.entries@.len() - j,
    {
        let e2 = &t.entries[j];
        let ne = TreeEntry { name: e2.name.clone(), item: clone_item(&e2.item) };
        let ghost prev = out@;
        out.push(ne);
        proof {
            lemma_entries_view_push(prev, ne);
            assert(entry_view(ne) == t@[j as int]);
            assert(entries_view(old(out)@) + t@.subrange(i as int, j + 1) =~= (entries_view(
                old(out)@,
            ) + t@.subrange(i as int, j as int)).push(t@[j as int]));
        }
        j = j + 1;
    }
    proof {
        assert(t@.subrange(i as int, t@.len() as int) =~= t@.skip(i as int));
    }
}

fn remove_entry_exec(t: &Tree, name: &str) -> (r: Tree)
    ensures
        r@ == remove_entry_v(t@, name@),
{
    broadcast use lemma_entries_view, lemma_entries_view_push;

    let mut entries: Vec<TreeEntry> = Vec::new();
    let mut i: usize = 0;
    let n = t.entries.len();
    proof {
        lemma_entries_view(t.entries@);
        assert(t@.skip(0) =~= t@);
        assert(t@.take(0) + remove_entry_v(t@, name@) =~= remove_entry_v(t@, name@));
    }
    while i < n
        invariant
            i <= n,
            n == t.entries@.len(),
            t@.len() == n,
            forall|k: int| 0 <= k < t@.len() ==> t@[k] == entry_view(#[trigger] t.entries@[k]),
            entries_view(entries@) =~= t@.take(i as int),
            remove_entry_v(t@, name@) == t@.take(i as int) + remove_entry_v(
                t@.skip(i as int),
                name@,
            ),
        decreases n - i,
    {
        let e = &t.entries[i];
        proof {
            assert(t@.skip(i as int)[0] == t@[i as int]);
        }
        if str_eq(e.name.as_str(), name) {
            proof {
                assert(t@.skip(i as int).skip(1) =~= t@.skip(i + 1));
            }
            append_rest(&mut entries, t, i + 1);
            proof {
                assert(entries_view(entries@) =~= remove_entry_v(t@, name@));
            }
            return Tree { entries };
        }
        let ne = TreeEntry { name: e.name.clone(), item: clone_item(&e.item) };
        let ghost prev = entries@;
        entries.push(ne);
        proof {
            lemma_entries_view_push(prev, ne);
            assert(entry_view(ne) == t@[i as int]);
            assert(t@.take(i + 1) =~= t@.take(i as int).push(t@[i as int]));
            assert(entries_view(entries@) =~= t@.take(i + 1));
            assert(t@.skip(i as int).skip(1) =~= t@.skip(i + 1));
            assert(remove_entry_v(t@.skip(i as int), name@) == seq![t@[i as int]]
                + remove_entry_v(t@.skip(i + 1), name@));
            assert(t@.take(i as int) + remove_entry_v(t@.skip(i as int), name@) =~= t@.take(i + 1)
                + remove_entry_v(t@.skip(i + 1), name@));
        }
        i = i + 1;
    }
    proof {
        assert(t@.skip(n as int).len() == 0);
        assert(remove_entry_v(t@, name@) =~= t@.take(n as int));
        assert(entries_view(entries@) =~= remove_entry_v(t@, name@));
    }
    Tree { entries }
}

fn put_entry_exec(t: &Tree, name: &str, item: TreeItem) -> (r: Tree)
    ensures
        r@ == put_entry_v(t@, name@, item@),
{
    broadcast use lemma_entries_view, lemma_entries_view_push;

    let mut entries: Vec<TreeEntry> = Vec::new();
    let mut i: usize = 0;
    let n = t.entries.len();
    proof {
        lemma_entries_view(t.entries@);
        assert(t@.skip(0) =~= t@);
        assert(t@.take(0) + put_entry_v(t@, name@, item@) =~= put_entry_v(t@, name@, item@));
    }
    while i < n
        invariant
            i <= n,
            n == t.entries@.len(),
            t@.len() == n,
            forall|k: int| 0 <= k < t@.len() ==> t@[k] == entry_view(#[trigger] t.entries@[k]),
            entries_view(entries@) =~= t@.take(i as int),
            put_entry_v(t@, name@, item@) == t@.take(i as int) + put_entry_v(
                t@.skip(i as int),
                name@,
                item@,
            ),
        decreases n - i,
    {
        let e = &t.entries[i];
        proof {
            assert(t@.skip(i as int)[0] == t@[i as int]);
        }
        if str_lt(name, e.name.as_str()) {
            let ghost prev = entries@;
            let ne = TreeEntry { name: name.to_owned(), item };
            entries.push(ne);
            proof {
                lemma_entries_view_push(prev, ne);
                assert(put_entry_v(t@.skip(i as int), name@, item@) == seq![
                    EntryV { name: name@, item: item@ },
                ] + t@.skip(i as int));
            }
            append_rest(&mut entries, t, i);
            proof {
                assert(entries_view(entries@) =~= put_entry_v(t@, name@, item@));
            }
            return Tree { entries };
        }
        if str_eq(name, e.name.as_str()) {
            let ghost prev = entries@;
            let ne = TreeEntry { name: name.to_owned(), item };
            entries.push(ne);
            proof {
                lemma_entries_view_push(prev, ne);
                assert(t@.skip(i as int).skip(1) =~= t@.skip(i + 1));
                assert(put_entry_v(t@.skip(i as int), name@, item@) == seq![
                    EntryV { name: name@, item: item@ },
                ] + t@.skip(i + 1));
            }
            append_rest(&mut entries, t, i + 1);
            proof {
                assert(entries_view(entries@) =~= put_entry_v(t@, name@, item@));
            }
            return Tree { entries };
        }
        let ne = TreeEntry { name: e.name.clone(), item: clone_item(&e.item) };
        let ghost prev = entries@;
        entries.push(ne);
        proof {
            lemma_entries_view_push(prev, ne);
            assert(entry_view(ne) == t@[i as int]);
            assert(t@.take(i + 1) =~= t@.take(i as int).push(t@[i as int]));
            assert(entries_view(entries@) =~= t@.take(i + 1));
            assert(t@.skip(i as int).skip(1) =~= t@.skip(i + 1));
            assert(put_entry_v(t@.skip(i as int), name@, item@) == seq![t@[i as int]]
                + put_entry_v(t@.skip(i + 1), name@, item@));
            assert(t@.take(i as int) + put_entry_v(t@.skip(i as int), name@, item@) =~= t@.take(
                i + 1,
            ) + put_entry_v(t@.skip(i + 1), name@, item@));
        }
        i = i + 1;
    }
    let ghost prev = entries@;
    let ne = TreeEntry { name: name.to_owned(), item };
    entries.push(ne);
    proof {
        lemma_entries_view_push(prev, ne);
        assert(t@.skip(n as int).len() == 0);
        assert(put_entry_v(t@.skip(n as int), name@, item@) == seq![
            EntryV { name: name@, item: item@ },
        ]);
        assert(entries_view(entries@) =~= put_entry_v(t@, name@, item@));
    }
    Tree { entries }
}

/// Single-level canonical update.
pub fn insert_entry(t: &Tree, name: &str, item: TreeItem) -> (r: Tree)
    ensures
        r@ == insert_entry_v(t@, name@, item@),
{
    let empty_dir = match &item {
        TreeItem::Dir(d) => d.entries.len() == 0,
        TreeItem::Blob(_) => false,
    };
    proof {
        if item@ matches ItemV::Dir(d) {
            lemma_entries_view(item->Dir_0.entries@);
        }
    }
    if empty_dir {
        remove_entry_exec(t, name)
    } else {
        put_entry_exec(t, name, item)
    }
}

/// Index of the first entry named `name`.
pub fn find_entry(t: &Tree, name: &str) -> (r: Option<usize>)
    ensures
        match r {
            Some(i) => i < t@.len() && t@[i as int].name == name@ && (forall|k: int|
                0 <= k < i ==> t@[k].name != name@),
            None => forall|k: int| 0 <= k < t@.len() ==> t@[k].name != name@,
        },
{
    broadcast use lemma_entries_view;

    proof {
        lemma_entries_view(t.entries@);
    }
    let mut i: usize = 0;
    let n = t.entries.len();
    while i < n
        invariant
            i <= n,
            n == t.entries@.len(),
            t@.len() == n,
            forall|k: int| 0 <= k < t@.len() ==> t@[k] == entry_view(#[trigger] t.entries@[k]),
            forall|k: int| 0 <= k < i ==> t@[k].name != name@,
        decreases n - i,
    {
        if str_eq(t.entries[i].name.as_str(), name) {
            return Some(i);
        }
        i = i + 1;
    }
    None
}

pub proof fn lemma_lookup_index(t: TreeV, name: Seq<char>, i: int)
    requires
        0 <= i < t.len(),
        t[i].name == name,
        forall|k: int| 0 <= k < i ==> t[k].name != name,
    ensures
        lookup_v(t, name) == Some(t[i].item),
    decreases i,
{
    if i > 0 {
        assert(t.skip(1)[i - 1] == t[i]);
        assert(forall|k: int| 0 <= k < i - 1 ==> t.skip(1)[k] == t[k + 1]);
        lemma_lookup_index(t.skip(1), name, i - 1);
    }
}

pub proof fn lemma_lookup_none(t: TreeV, name: Seq<char>)
    requires
        forall|k: int| 0 <= k < t.len() ==> t[k].name != name,
    ensures
        lookup_v(t, name) is None,
    decreases t.len(),
{
    if t.len() > 0 {
        assert(forall|k: int| 0 <= k < t.skip(1).len() ==> t.skip(1)[k] == t[k + 1]);
        lemma_lookup_none(t.skip(1), name);
    }
}

// ---------------------------------------------------------------------------
// Path-level operations
// ---------------------------------------------------------------------------

/// The item at `path`, if any.  The empty path denotes the tree itself.
pub open spec fn get_path_v(t: TreeV, path: Seq<Seq<char>>) -> Option<ItemV>
    decreases path.len(),
{
    if path.len() == 0 {
        Some(ItemV::Dir(t))
    } else {
        match lookup_v(t, path[0]) {
            None => None,
            Some(it) => if path.len() == 1 {
                Some(it)
            } else {
                match it {
                    ItemV::Dir(d) => get_path_v(d, path.skip(1)),
                    ItemV::Blob(_) => None,
                }
            },
        }
    }
}

/// Place `item` at `path`, creating intermediate subtrees; an existing blob
/// on the way is replaced by a subtree.  Placing an empty subtree removes
/// the path.
pub open spec fn put_path_v(t: TreeV, path: Seq<Seq<char>>, item: ItemV) -> TreeV
    recommends
        path.len() > 0,
    decreases path.len(),
{
    if path.len() <= 1 {
        insert_entry_v(t, path[0], item)
    } else {
        let child = match lookup_v(t, path[0]) {
            Some(ItemV::Dir(d)) => d,
            _ => Seq::<EntryV>::empty(),
        };
        insert_entry_v(t, path[0], ItemV::Dir(put_path_v(child, path.skip(1), item)))
    }
}

/// The blob content at `path`; empty if absent or not a blob.
pub open spec fn get_blob_v(t: TreeV, path: Seq<Seq<char>>) -> Seq<u8> {
    match get_path_v(t, path) {
        Some(ItemV::Blob(b)) => b,
        _ => Seq::<u8>::empty(),
    }
}

fn insert_at(t: &Tree, path: &Vec<String>, idx: usize, item: TreeItem) -> (r: Tree)
    requires
        idx < path@.len(),
    ensures
        r@ == put_path_v(t@, path.deep_view().skip(idx as int), item@),
    decreases path@.len() - idx,
{
    broadcast use lemma_entries_view;

    proof {
        lemma_entries_view(t.entries@);
        assert(path.deep_view().len() == path@.len());
        assert(path.deep_view().skip(idx as int)[0] == path@[idx as int]@);
    }
    let n = path.len();
    let name = &path[idx];
    if idx + 1 == n {
        let r = insert_entry(t, name.as_str(), item);
        proof {
            assert(path.deep_view().skip(idx as int).len() == 1);
        }
        r
    } else {
        let found = find_entry(t, name.as_str());
        let child: Tree = match found {
            Some(i) => {
                proof {
                    lemma_lookup_index(t@, name@, i as int);
                }
                match &t.entries[i].item {
                    TreeItem::Dir(d) => {
                        proof {
                            assert(t@[i as int].item == item_view(t.entries@[i as int].item));
                        }
                        clone_tree(d)
                    },
                    TreeItem::Blob(_) => {
                        proof {
                            assert(t@[i as int].item == item_view(t.entries@[i as int].item));
                        }
                        empty()
                    },
                }
            },
            None => {
                proof {
                    lemma_lookup_none(t@, name@);
                }
                empty()
            },
        };
        let sub = insert_at(&child, path, idx + 1, item);
        proof {
            assert(path.deep_view().skip(idx as int).skip(1) =~= path.deep_view().skip(idx + 1));
        }
        insert_entry(t, name.as_str(), TreeItem::Dir(sub))
    }
}

/// Place an object at `path`.  For the empty path the object itself must be
/// a tree; a blob cannot stand at the root.
pub fn insert(t: &Tree, path: &Vec<String>, item: TreeItem) -> (r: Result<
    Tree,
    crate::JoshError,
>)
    ensures
        path@.len() > 0 ==> (r matches Ok(nt) && nt@ == put_path_v(t@, path.deep_view(), item@)),
        (path@.len() == 0 && item@ is Dir) ==> (r matches Ok(nt) && nt@ == item@->Dir_0),
        (path@.len() == 0 && item@ is Blob) ==> r is Err,
{
    if path.len() == 0 {
        match item {
            TreeItem::Dir(d) => Ok(d),
            TreeItem::Blob(_) => Err(crate::josh_error("cannot insert a blob at the tree root")),
        }
    } else {
        let r = insert_at(t, path, 0, item);
        proof {
            assert(path.deep_view().skip(0) =~= path.deep_view());
        }
        Ok(r)
    }
}

/// The item at `path`, copied out of the tree.
pub fn get_path(t: &Tree, path: &Vec<String>, idx: usize) -> (r: Option<TreeItem>)
    requires
        idx <= path@.len(),
    ensures
        match r {
            Some(it) => get_path_v(t@, path.deep_view().skip(idx as int)) == Some(it@),
            None => get_path_v(t@, path.deep_view().skip(idx as int)) is None,
        },
    decreases path@.len() - idx,
{
    broadcast use lemma_entries_view;

    proof {
        lemma_entries_view(t.entries@);
        assert(path.deep_view().len() == path@.len());
    }
    if idx == path.len() {
        proof {
            assert(path.deep_view().skip(idx as int).len() == 0);
        }
        return Some(TreeItem::Dir(clone_tree(t)));
    }
    proof {
        assert(path.deep_view().skip(idx as int)[0] == path@[idx as int]@);
    }
    let name = &path[idx];
    let found = find_entry(t, name.as_str());
    match found {
        Some(i) => {
            proof {
                lemma_lookup_index(t@, name@, i as int);
                assert(t@[i as int].item == item_view(t.entries@[i as int].item));
            }
            if idx + 1 == path.len() {
                proof {
                    assert(path.deep_view().skip(idx as int).len() == 1);
                }
                Some(clone_item(&t.entries[i].item))
            } else {
                match &t.entries[i].item {
                    TreeItem::Dir(d) => {
                        let r = get_path(d, path, idx + 1);
                        proof {
                            assert(path.deep_view().skip(idx as int).skip(1) =~= path.deep_view()
                                .skip(idx + 1));
                        }
                        r
                    },
                    TreeItem::Blob(_) => None,
                }
            }
        },
        None => {
            proof {
                lemma_lookup_none(t@, name@);
            }
            None
        },
    }
}

/// The blob content at `path`; empty bytes if absent or not a blob.
pub fn get_blob(t: &Tree, path: &Vec<String>) -> (r: Vec<u8>)
    ensures
        r@ == get_blob_v(t@, path.deep_view()),
{
    proof {
        assert(path.deep_view().skip(0) =~= path.deep_view());
    }
    match get_path(t, path, 0) {
        Some(TreeItem::Blob(b)) => b,
        _ => Vec::new(),
    }
}

// ---------------------------------------------------------------------------
// Overlay
// ---------------------------------------------------------------------------

/// Recursive merge of the suffixes `a[i..]` and `b[j..]`; where both sides
/// hold a subtree under one name the subtrees merge, otherwise `b` wins.
pub open spec fn overlay_from(a: TreeV, b: TreeV, i: int, j: int) -> TreeV
    decreases a, a.len() + b.len() - i - j,
    when 0 <= i <= a.len() && 0 <= j <= b.len()
{
    if i >= a.len() {
        b.skip(j)
    } else if j >= b.len() {
        a.skip(i)
    } else if lex_lt(a[i].name, b[j].name) {
        seq![a[i]] + overlay_from(a, b, i + 1, j)
    } else if lex_lt(b[j].name, a[i].name) {
        seq![b[j]] + overlay_from(a, b, i, j + 1)
    } else {
        let merged = match (a[i].item, b[j].item) {
            (ItemV::Dir(da), ItemV::Dir(db)) => EntryV {
                name: b[j].name,
                item: ItemV::Dir(overlay_from(da, db, 0, 0)),
            },
            _ => b[j],
        };
        seq![merged] + overlay_from(a, b, i + 1, j + 1)
    }
}

/// Recursive merge; for a name present in both trees, two subtrees merge
/// recursively, otherwise the entry of `b` wins.  Blobs never merge.
pub open spec fn overlay_v(a: TreeV, b: TreeV) -> TreeV {
    overlay_from(a, b, 0, 0)
}

pub fn overlay(a: &Tree, b: &Tree) -> (r: Tree)
    ensures
        r@ == overlay_v(a@, b@),
    decreases *a,
{
    broadcast use lemma_entries_view, lemma_entries_view_push;

    let mut entries: Vec<TreeEntry> = Vec::new();
    let mut i: usize = 0;
    let mut j: usize = 0;
    let na = a.entries.len();
    let nb = b.entries.len();
    proof {
        lemma_entries_view(a.entries@);
        lemma_entries_view(b.entries@);
        assert(entries_view(entries@) + overlay_from(a@, b@, 0, 0) =~= overlay_v(a@, b@));
    }
    while i < na && j < nb
        invariant
            i <= na,
            j <= nb,
            na == a.entries@.len(),
            nb == b.entries@.len(),
            a@.len() == na,
            b@.len() == nb,
            forall|k: int| 0 <= k < a@.len() ==> a@[k] == entry_view(#[trigger] a.entries@[k]),
            forall|k: int| 0 <= k < b@.len() ==> b@[k] == entry_view(#[trigger] b.entries@[k]),
            entries_view(entries@) + overlay_from(a@, b@, i as int, j as int) == overlay_v(a@, b@),
        decreases na - i + nb - j,
    {
        let ea = &a.entries[i];
        let eb = &b.entries[j];
        let ghost prev = entries@;
        if str_lt(ea.name.as_str(), eb.name.as_str()) {
            let ne = TreeEntry { name: ea.name.clone(), item: clone_item(&ea.item) };
            entries.push(ne);
            proof {
                lemma_entries_view_push(prev, ne);
                assert(entries_view(entries@) + overlay_from(a@, b@, i + 1, j as int)
                    =~= entries_view(prev) + overlay_from(a@, b@, i as int, j as int));
            }
            i = i + 1;
        } else if str_lt(eb.name.as_str(), ea.name.as_str()) {
            let ne = TreeEntry { name: eb.name.clone(), item: clone_item(&eb.item) };
            entries.push(ne);
            proof {
                lemma_entries_view_push(prev, ne);
                assert(entries_view(entries@) + overlay_from(a@, b@, i as int, j + 1)
                    =~= entries_view(prev) + overlay_from(a@, b@, i as int, j as int));
            }
            j = j + 1;
        } else {
            proof {
                lemma_lex_trichotomy(a@[i as int].name, b@[j as int].name);
            }
            let merged: TreeEntry = match (&ea.item, &eb.item) {
                (TreeItem::Dir(da), TreeItem::Dir(db)) => {
                    let sub = overlay(da, db);
                    TreeEntry { name: eb.name.clone(), item: TreeItem::Dir(sub) }
                },
                _ => TreeEntry { name: eb.name.clone(), item: clone_item(&eb.item) },
            };
            proof {
                assert(entry_view(merged) == overlay_from(a@, b@, i as int, j as int)[0]);
            }
            entries.push(merged);
            proof {
                lemma_entries_view_push(prev, merged);
                assert(entries_view(entries@) + overlay_from(a@, b@, i + 1, j + 1)
                    =~= entries_view(prev) + overlay_from(a@, b@, i as int, j as int));
            }
            i = i + 1;
            j = j + 1;
        }
    }
    if i < na {
        append_rest(&mut entries, a, i);
        proof {
            assert(entries_view(entries@) =~= overlay_v(a@, b@));
        }
    } else {
        append_rest(&mut entries, b, j);
        proof {
            assert(entries_view(entries@) =~= overlay_v(a@, b@));
        }
    }
    Tree { entries }
}

// ---------------------------------------------------------------------------
// Subtract
// ---------------------------------------------------------------------------

pub fn bytes_eq(a: &Vec<u8>, b: &Vec<u8>) -> (r: bool)
    ensures
        r == (a@ == b@),
{
    if a.len() != b.len() {
        return false;
    }
    let mut i: usize = 0;
    while i < a.len()
        invariant
            i <= a.len(),
            a@.len() == b@.len(),
            forall|k: int| 0 <= k < i ==> a@[k] == b@[k],
        decreases a.len() - i,
    {
        if a[i] != b[i] {
            return false;
        }
        i = i + 1;
    }
    proof {
        assert(a@ =~= b@);
    }
    true
}

/// Entries of `a[i..]` not explained by `b[j..]`: an entry equal on both
/// sides is removed, two subtrees subtract recursively (pruned when the
/// difference is empty), and on any other clash the entry of `a` is kept.
pub open spec fn subtract_from(a: TreeV, b: TreeV, i: int, j: int) -> TreeV
    decreases a, a.len() + b.len() - i - j,
    when 0 <= i <= a.len() && 0 <= j <= b.len()
{
    if i >= a.len() {
        Seq::<EntryV>::empty()
    } else if j >= b.len() {
        a.skip(i)
    } else if lex_lt(a[i].name, b[j].name) {
        seq![a[i]] + subtract_from(a, b, i + 1, j)
    } else if lex_lt(b[j].name, a[i].name) {
        subtract_from(a, b, i, j + 1)
    } else {
        let rest = subtract_from(a, b, i + 1, j + 1);
        match (a[i].item, b[j].item) {
            (ItemV::Blob(x), ItemV::Blob(y)) => if x == y {
                rest
            } else {
                seq![a[i]] + rest
            },
            (ItemV::Dir(da), ItemV::Dir(db)) => {
                let d = subtract_from(da, db, 0, 0);
                if d.len() == 0 {
                    rest
                } else {
                    seq![EntryV { name: a[i].name, item: ItemV::Dir(d) }] + rest
                }
            },
            _ => seq![a[i]] + rest,
        }
    }
}

/// Entries of `a` that are not explained by `b`.
pub open spec fn subtract_v(a: TreeV, b: TreeV) -> TreeV {
    subtract_from(a, b, 0, 0)
}

pub fn subtract(a: &Tree, b: &Tree) -> (r: Tree)
    ensures
        r@ == subtract_v(a@, b@),
    decreases *a,
{
    broadcast use lemma_entries_view, lemma_entries_view_push;

    let mut entries: Vec<TreeEntry> = Vec::new();
    let mut i: usize = 0;
    let mut j: usize = 0;
    let na = a.entries.len();
    let nb = b.entries.len();
    proof {
        lemma_entries_view(a.entries@);
        lemma_entries_view(b.entries@);
        assert(entries_view(entries@) + subtract_from(a@, b@, 0, 0) =~= subtract_v(a@, b@));
    }
    while i < na && j < nb
        invariant
            i <= na,
            j <= nb,
            na == a.entries@.len(),
            nb == b.entries@.len(),
            a@.len() == na,
            b@.len() == nb,
            forall|k: int| 0 <= k < a@.len() ==> a@[k] == entry_view(#[trigger] a.entries@[k]),
            forall|k: int| 0 <= k < b@.len() ==> b@[k] == entry_view(#[trigger] b.entries@[k]),
            entries_view(entries@) + subtract_from(a@, b@, i as int, j as int) == subtract_v(
                a@,
                b@,
            ),
        decreases na - i + nb - j,
    {
        let ea = &a.entries[i];
        let eb = &b.entries[j];
        let ghost prev = entries@;
        if str_lt(ea.name.as_str(), eb.name.as_str()) {
            let ne = TreeEntry { name: ea.name.clone(), item: clone_item(&ea.item) };
            entries.push(ne);
            proof {
                lemma_entries_view_push(prev, ne);
                assert(entries_view(entries@) + subtract_from(a@, b@, i + 1, j as int)
                    =~= entries_view(prev) + subtract_from(a@, b@, i as int, j as int));
            }
            i = i + 1;
        } else if str_lt(eb.name.as_str(), ea.name.as_str()) {
            j = j + 1;
        } else {
            proof {
                lemma_lex_trichotomy(a@[i as int].name, b@[j as int].name);
            }
            match (&ea.item, &eb.item) {
                (TreeItem::Blob(x), TreeItem::Blob(y)) => {
                    if bytes_eq(x, y) {
                        // explained by b: drop
                    } else {
                        let ne = TreeEntry { name: ea.name.clone(), item: clone_item(&ea.item) };
                        entries.push(ne);
                        proof {
                            lemma_entries_view_push(prev, ne);
                            assert(entries_view(entries@) + subtract_from(a@, b@, i + 1, j + 1)
                                =~= entries_view(prev) + subtract_from(
                                a@,
                                b@,
                                i as int,
                                j as int,
                            ));
                        }
                    }
                },
                (TreeItem::Dir(da), TreeItem::Dir(db)) => {
                    let d = subtract(da, db);
                    proof {
                        lemma_entries_view(d.entries@);
                    }
                    if d.entries.len() == 0 {
                        // empty difference: drop
                    } else {
                        let ne = TreeEntry { name: ea.name.clone(), item: TreeItem::Dir(d) };
                        entries.push(ne);
                        proof {
                            lemma_entries_view_push(prev, ne);
                            assert(entries_view(entries@) + subtract_from(a@, b@, i + 1, j + 1)
                                =~= entries_view(prev) + subtract_from(
                                a@,
                                b@,
                                i as int,
                                j as int,
                            ));
                        }
                    }
                },
                _ => {
                    let ne = TreeEntry { name: ea.name.clone(), item: clone_item(&ea.item) };
                    entries.push(ne);
                    proof {
                        lemma_entries_view_push(prev, ne);
                        assert(entries_view(entries@) + subtract_from(a@, b@, i + 1, j + 1)
                            =~= entries_view(prev) + subtract_from(a@, b@, i as int, j as int));
                    }
                },
            }
            i = i + 1;
            j = j + 1;
        }
    }
    if i < na {
        append_rest(&mut entries, a, i);
        proof {
            assert(entries_view(entries@) =~= subtract_v(a@, b@));
        }
    } else {
        proof {
            assert(subtract_from(a@, b@, i as int, j as int) =~= Seq::<EntryV>::empty()) by {
                if j < nb {
                    lemma_subtract_drained(a@, b@, i as int, j as int);
                }
            }
            assert(entries_view(entries@) =~= subtract_v(a@, b@));
        }
    }
    Tree { entries }
}

proof fn lemma_subtract_drained(a: TreeV, b: TreeV, i: int, j: int)
    requires
        i == a.len(),
        0 <= j <= b.len(),
    ensures
        subtract_from(a, b, i, j) == Seq::<EntryV>::empty(),
{
}

// ---------------------------------------------------------------------------
// Glob restriction
// ---------------------------------------------------------------------------

/// Keep only the blobs of `t[i..]` whose full path (joined with '/', under
/// the prefix `base`) matches the pattern; empty directories are pruned.
pub open spec fn glob_keep_from(t: TreeV, pat: Seq<char>, base: Seq<char>, i: int) -> TreeV
    decreases t, t.len() - i,
    when 0 <= i <= t.len()
{
    if i >= t.len() {
        Seq::<EntryV>::empty()
    } else {
        let rest = glob_keep_from(t, pat, base, i + 1);
        let full = base + t[i].name;
        match t[i].item {
            ItemV::Blob(_) => if crate::pattern::glob_match_of(pat, full) {
                seq![t[i]] + rest
            } else {
                rest
            },
            ItemV::Dir(d) => {
                let d2 = glob_keep_from(d, pat, full + seq!['/'], 0);
                if d2.len() == 0 {
                    rest
                } else {
                    seq![EntryV { name: t[i].name, item: ItemV::Dir(d2) }] + rest
                }
            },
        }
    }
}

/// The subtree of `t` holding exactly the blobs whose path matches `pat`.
pub open spec fn glob_keep_v(t: TreeV, pat: Seq<char>) -> TreeV {
    glob_keep_from(t, pat, Seq::<char>::empty(), 0)
}

pub fn glob_keep_at(t: &Tree, pat: &str, base: &str) -> (r: Tree)
    requires
        crate::pattern::glob_valid(pat@),
    ensures
        r@ == glob_keep_from(t@, pat@, base@, 0),
    decreases *t,
{
    broadcast use lemma_entries_view, lemma_entries_view_push;

    let mut entries: Vec<TreeEntry> = Vec::new();
    let mut i: usize = 0;
    let n = t.entries.len();
    proof {
        lemma_entries_view(t.entries@);
        assert(entries_view(entries@) + glob_keep_from(t@, pat@, base@, 0) =~= glob_keep_from(
            t@,
            pat@,
            base@,
            0,
        ));
    }
    while i < n
        invariant
            i <= n,
            n == t.entries@.len(),
            t@.len() == n,
            crate::pattern::glob_valid(pat@),
            forall|k: int| 0 <= k < t@.len() ==> t@[k] == entry_view(#[trigger] t.entries@[k]),
            entries_view(entries@) + glob_keep_from(t@, pat@, base@, i as int) == glob_keep_from(
                t@,
                pat@,
                base@,
                0,
            ),
        decreases n - i,
    {
        let e = &t.entries[i];
        let full = base.to_owned().concat(e.name.as_str());
        let ghost prev = entries@;
        match &e.item {
            TreeItem::Blob(_) => {
                if crate::pattern::glob_matches(pat, full.as_str()) {
                    let ne = TreeEntry { name: e.name.clone(), item: clone_item(&e.item) };
                    entries.push(ne);
                    proof {
                        lemma_entries_view_push(prev, ne);
                        assert(entries_view(entries@) + glob_keep_from(t@, pat@, base@, i + 1)
                            =~= entries_view(prev) + glob_keep_from(t@, pat@, base@, i as int));
                    }
                }
            },
            TreeItem::Dir(d) => {
                let subbase = full.concat("/");
                proof {
                    reveal_strlit("/");
                    assert(subbase@ =~= base@ + t@[i as int].name + seq!['/']);
                }
                let d2 = glob_keep_at(d, pat, subbase.as_str());
                proof {
                    lemma_entries_view(d2.entries@);
                }
                if d2.entries.len() > 0 {
                    let ne = TreeEntry { name: e.name.clone(), item: TreeItem::Dir(d2) };
                    entries.push(ne);
                    proof {
                        lemma_entries_view_push(prev, ne);
                        assert(entries_view(entries@) + glob_keep_from(t@, pat@, base@, i + 1)
                            =~= entries_view(prev) + glob_keep_from(t@, pat@, base@, i as int));
                    }
                }
            },
        }
        i = i + 1;
    }
    proof {
        assert(entries_view(entries@) + glob_keep_from(t@, pat@, base@, n as int) =~= entries_view(
            entries@,
        ));
    }
    Tree { entries }
}

// ---------------------------------------------------------------------------
// Directory skeleton
// ---------------------------------------------------------------------------

/// The name of the marker blob recording a directory in a skeleton tree.
pub open spec fn dirs_marker() -> Seq<char> {
    "JOSH_DIRS"@
}

/// The directory skeleton of `t[i..]`: blobs are dropped, each subtree is
/// collapsed recursively and records itself with an empty marker blob.
pub open spec fn dirtree_from(t: TreeV, i: int) -> TreeV
    decreases t, t.len() - i,
    when 0 <= i <= t.len()
{
    if i >= t.len() {
        Seq::<EntryV>::empty()
    } else {
        let rest = dirtree_from(t, i + 1);
        match t[i].item {
            ItemV::Blob(_) => rest,
            ItemV::Dir(d) => seq![
                EntryV {
                    name: t[i].name,
                    item: ItemV::Dir(
                        insert_entry_v(dirtree_from(d, 0), dirs_marker(), ItemV::Blob(Seq::empty())),
                    ),
                },
            ] + rest,
        }
    }
}

pub open spec fn dirtree_v(t: TreeV) -> TreeV {
    dirtree_from(t, 0)
}

/// Collapse each directory to its skeleton, recorded by marker blobs.
pub fn dirtree(t: &Tree) -> (r: Tree)
    ensures
        r@ == dirtree_v(t@),
    decreases *t,
{
    broadcast use lemma_entries_view, lemma_entries_view_push;

    let mut entries: Vec<TreeEntry> = Vec::new();
    let mut i: usize = 0;
    let n = t.entries.len();
    proof {
        lemma_entries_view(t.entries@);
    }
    while i < n
        invariant
            i <= n,
            n == t.entries@.len(),
            t@.len() == n,
            forall|k: int| 0 <= k < t@.len() ==> t@[k] == entry_view(#[trigger] t.entries@[k]),
            entries_view(entries@) + dirtree_from(t@, i as int) == dirtree_v(t@),
        decreases n - i,
    {
        let e = &t.entries[i];
        let ghost prev = entries@;
        match &e.item {
            TreeItem::Blob(_) => {},
            TreeItem::Dir(d) => {
                let sub = dirtree(d);
                let marked = insert_entry(&sub, "JOSH_DIRS", TreeItem::Blob(Vec::new()));
                let ne = TreeEntry { name: e.name.clone(), item: TreeItem::Dir(marked) };
                entries.push(ne);
                proof {
                    lemma_entries_view_push(prev, ne);
                    assert(entries_view(entries@) + dirtree_from(t@, i + 1) =~= entries_view(prev)
                        + dirtree_from(t@, i as int));
                }
            },
        }
        i = i + 1;
    }
    proof {
        assert(entries_view(entries@) + dirtree_from(t@, n as int) =~= entries_view(entries@));
    }
    Tree { entries }
}


/// Structural equality of items.
pub fn item_eq(a: &TreeItem, b: &TreeItem) -> (r: bool)
    ensures
        r == (a@ == b@),
    decreases *a,
{
    match (a, b) {
        (TreeItem::Blob(x), TreeItem::Blob(y)) => bytes_eq(x, y),
        (TreeItem::Dir(x), TreeItem::Dir(y)) => tree_eq(x, y),
        _ => false,
    }
}

/// Structural equality of trees; by content addressing this is equality
/// of the trees themselves.
pub fn tree_eq(a: &Tree, b: &Tree) -> (r: bool)
    ensures
        r == (a@ == b@),
    decreases *a,
{
    broadcast use lemma_entries_view;

    proof {
        lemma_entries_view(a.entries@);
        lemma_entries_view(b.entries@);
    }
    if a.entries.len() != b.entries.len() {
        return false;
    }
    let n = a.entries.len();
    let mut i: usize = 0;
    while i < n
        invariant
            i <= n,
            n == a.entries@.len(),
            n == b.entries@.len(),
            a@.len() == n,
            b@.len() == n,
            forall|k: int| 0 <= k < n ==> a@[k] == entry_view(#[trigger] a.entries@[k]),
            forall|k: int| 0 <= k < n ==> b@[k] == entry_view(#[trigger] b.entries@[k]),
            forall|k: int| 0 <= k < i ==> a@[k] == b@[k],
        decreases n - i,
    {
        let ea = &a.entries[i];
        let eb = &b.entries[i];
        if !str_eq(ea.name.as_str(), eb.name.as_str()) {
            return false;
        }
        proof {
            assert(decreases_to!(*a => a.entries));
            assert(decreases_to!(a.entries => a.entries@));
            assert(decreases_to!(a.entries@ => a.entries@[i as int]));
        }
        if !item_eq(&ea.item, &eb.item) {
            return false;
        }
        i = i + 1;
    }
    proof {
        assert(a@ =~= b@);
    }
    true
}


// ---------------------------------------------------------------------------
// Lookup after update
// ---------------------------------------------------------------------------

pub proof fn lemma_lex_irrefl(a: Seq<char>)
    ensures
        !lex_lt(a, a),
    decreases a.len(),
{
    if a.len() > 0 {
        lemma_lex_irrefl(a.skip(1));
    }
}

/// Looking up a name just placed finds the placed item.
pub proof fn lemma_lookup_put(t: TreeV, n: Seq<char>, it: ItemV)
    ensures
        lookup_v(put_entry_v(t, n, it), n) == Some(it),
    decreases t.len(),
{
    let r = put_entry_v(t, n, it);
    if t.len() == 0 {
        assert(r[0] == EntryV { name: n, item: it });
    } else if lex_lt(n, t[0].name) {
        assert(r[0] == EntryV { name: n, item: it });
    } else if t[0].name == n {
        assert(r[0] == EntryV { name: n, item: it });
    } else {
        lemma_lookup_put(t.skip(1), n, it);
        assert(r[0] == t[0]);
        assert(r.skip(1) =~= put_entry_v(t.skip(1), n, it));
    }
}

/// After removing a name from a canonical tree it cannot be found.
pub proof fn lemma_lookup_remove(t: TreeV, n: Seq<char>)
    requires
        wf_tree(t),
    ensures
        lookup_v(remove_entry_v(t, n), n) is None,
    decreases t.len(),
{
    let r = remove_entry_v(t, n);
    if t.len() == 0 {
    } else if t[0].name == n {
        // uniqueness: every later name is strictly greater
        assert(r =~= t.skip(1));
        assert forall|k: int| 0 <= k < r.len() implies r[k].name != n by {
            assert(r[k] == t[k + 1]);
            assert(lex_lt(t[0].name, t[k + 1].name));
            if t[k + 1].name == n {
                lemma_lex_irrefl(n);
            }
        }
        lemma_lookup_none(r, n);
    } else {
        assert(wf_tree(t.skip(1))) by {
            assert(forall|k: int| 0 <= k < t.skip(1).len() ==> t.skip(1)[k] == t[k + 1]);
        }
        lemma_lookup_remove(t.skip(1), n);
        assert(r[0] == t[0]);
        assert(r.skip(1) =~= remove_entry_v(t.skip(1), n));
    }
}

/// Placing a real item always leaves the level nonempty.
pub proof fn lemma_put_entry_nonempty(t: TreeV, n: Seq<char>, it: ItemV)
    ensures
        put_entry_v(t, n, it).len() > 0,
    decreases t.len(),
{
    if !(t.len() == 0 || lex_lt(n, t[0].name) || t[0].name == n) {
        lemma_put_entry_nonempty(t.skip(1), n, it);
    }
}

/// Placing a real item along a path leaves the tree nonempty.
pub proof fn lemma_put_path_nonempty(t: TreeV, path: Seq<Seq<char>>, it: ItemV)
    requires
        path.len() > 0,
        !is_empty_dir(it),
    ensures
        put_path_v(t, path, it).len() > 0,
    decreases path.len(),
{
    if path.len() <= 1 {
        lemma_put_entry_nonempty(t, path[0], it);
    } else {
        let child = match lookup_v(t, path[0]) {
            Some(ItemV::Dir(d)) => d,
            _ => Seq::<EntryV>::empty(),
        };
        lemma_put_path_nonempty(child, path.skip(1), it);
        lemma_put_entry_nonempty(
            t,
            path[0],
            ItemV::Dir(put_path_v(child, path.skip(1), it)),
        );
    }
}

/// Well-formedness descends to the subtree a lookup finds.
pub proof fn lemma_lookup_wf(t: TreeV, n: Seq<char>)
    requires
        wf_tree(t),
    ensures
        lookup_v(t, n) matches Some(it) ==> wf_item(it),
    decreases t.len(),
{
    if t.len() > 0 && t[0].name != n {
        assert(wf_tree(t.skip(1))) by {
            assert(forall|k: int| 0 <= k < t.skip(1).len() ==> t.skip(1)[k] == t[k + 1]);
        }
        lemma_lookup_wf(t.skip(1), n);
    }
}

/// Reading back the path just written yields the written item; writing an
/// empty subtree erases the path.
pub proof fn lemma_get_put_path(t: TreeV, path: Seq<Seq<char>>, it: ItemV)
    requires
        wf_tree(t),
        path.len() > 0,
    ensures
        get_path_v(put_path_v(t, path, it), path) == if is_empty_dir(it) {
            None::<ItemV>
        } else {
            Some(it)
        },
    decreases path.len(),
{
    let n = path[0];
    if path.len() == 1 {
        if is_empty_dir(it) {
            lemma_lookup_remove(t, n);
        } else {
            lemma_lookup_put(t, n, it);
        }
    } else {
        let child = match lookup_v(t, n) {
            Some(ItemV::Dir(d)) => d,
            _ => Seq::<EntryV>::empty(),
        };
        assert(wf_tree(child)) by {
            lemma_lookup_wf(t, n);
        }
        let sub = put_path_v(child, path.skip(1), it);
        lemma_get_put_path(child, path.skip(1), it);
        if sub.len() == 0 {
            // the write erased the subtree; the path is gone
            lemma_lookup_remove(t, n);
            assert(is_empty_dir(it)) by {
                if !is_empty_dir(it) {
                    lemma_put_path_nonempty(child, path.skip(1), it);
                }
            }
            assert(put_path_v(t, path, it) == remove_entry_v(t, n));
            assert(get_path_v(put_path_v(t, path, it), path) is None);
        } else {
            lemma_lookup_put(t, n, ItemV::Dir(sub));
            assert(put_path_v(t, path, it) == put_entry_v(t, n, ItemV::Dir(sub)));
            assert(get_path_v(put_path_v(t, path, it), path) == get_path_v(sub, path.skip(1)));
            if is_empty_dir(it) {
                assert(get_path_v(sub, path.skip(1)) is None);
            }
        }
    }
}


pub proof fn lemma_lex_trans(a: Seq<char>, b: Seq<char>, c: Seq<char>)
    requires
        lex_lt(a, b),
        lex_lt(b, c),
    ensures
        lex_lt(a, c),
    decreases a.len() + b.len() + c.len(),
{
    if b.len() == 0 {
    } else if c.len() == 0 {
    } else if a.len() == 0 {
    } else {
        if a[0] == b[0] && b[0] == c[0] {
            lemma_lex_trans(a.skip(1), b.skip(1), c.skip(1));
        } else if a[0] == b[0] {
            assert(b[0] < c[0]);
        } else if b[0] == c[0] {
            assert(a[0] < b[0]);
        } else {
            assert(a[0] < b[0] && b[0] < c[0]);
        }
    }
}

/// The merge of suffixes is the merge of the skipped sequences.
pub proof fn lemma_overlay_from_skip(a: TreeV, b: TreeV, i: int, j: int)
    requires
        0 <= i <= a.len(),
        0 <= j <= b.len(),
    ensures
        overlay_from(a, b, i, j) == overlay_v(a.skip(i), b.skip(j)),
    decreases a.len() + b.len() - i - j,
{
    let x = a.skip(i);
    let y = b.skip(j);
    if i >= a.len() {
        assert(x.len() == 0);
        assert(overlay_from(x, y, 0, 0) == y.skip(0));
        assert(y.skip(0) =~= y);
    } else if j >= b.len() {
        assert(y.len() == 0);
        assert(overlay_from(x, y, 0, 0) == x.skip(0));
        assert(x.skip(0) =~= x);
    } else {
        assert(x[0] == a[i]);
        assert(y[0] == b[j]);
        if lex_lt(a[i].name, b[j].name) {
            lemma_overlay_from_skip(a, b, i + 1, j);
            assert(x.skip(1) =~= a.skip(i + 1));
            lemma_overlay_from_skip(x, y, 1, 0);
            assert(y.skip(0) =~= y);
            assert(overlay_v(x.skip(1), y.skip(0)) == overlay_v(a.skip(i + 1), b.skip(j)));
        } else if lex_lt(b[j].name, a[i].name) {
            lemma_overlay_from_skip(a, b, i, j + 1);
            assert(y.skip(1) =~= b.skip(j + 1));
            lemma_overlay_from_skip(x, y, 0, 1);
            assert(x.skip(0) =~= x);
            assert(overlay_v(x.skip(0), y.skip(1)) == overlay_v(a.skip(i), b.skip(j + 1)));
        } else {
            lemma_overlay_from_skip(a, b, i + 1, j + 1);
            assert(x.skip(1) =~= a.skip(i + 1));
            assert(y.skip(1) =~= b.skip(j + 1));
            lemma_overlay_from_skip(x, y, 1, 1);
        }
    }
}

/// One unfolding step of the merge, on whole trees.
pub proof fn lemma_overlay_unfold(a: TreeV, b: TreeV)
    ensures
        a.len() == 0 ==> overlay_v(a, b) == b,
        b.len() == 0 ==> overlay_v(a, b) == a,
        a.len() > 0 && b.len() > 0 && lex_lt(a[0].name, b[0].name) ==> overlay_v(a, b) == seq![
            a[0],
        ] + overlay_v(a.skip(1), b),
        a.len() > 0 && b.len() > 0 && lex_lt(b[0].name, a[0].name) ==> overlay_v(a, b) == seq![
            b[0],
        ] + overlay_v(a, b.skip(1)),
{
    if a.len() == 0 {
        assert(overlay_from(a, b, 0, 0) == b.skip(0));
        assert(b.skip(0) =~= b);
    } else if b.len() == 0 {
        assert(overlay_from(a, b, 0, 0) == a.skip(0));
        assert(a.skip(0) =~= a);
    } else if lex_lt(a[0].name, b[0].name) {
        assert(!lex_lt(b[0].name, a[0].name)) by {
            if lex_lt(b[0].name, a[0].name) {
                lemma_lex_trans(a[0].name, b[0].name, a[0].name);
                lemma_lex_irrefl(a[0].name);
            }
        }
        lemma_overlay_from_skip(a, b, 1, 0);
        assert(b.skip(0) =~= b);
        assert(overlay_v(a.skip(1), b.skip(0)) == overlay_v(a.skip(1), b));
    } else if lex_lt(b[0].name, a[0].name) {
        assert(!lex_lt(a[0].name, b[0].name)) by {
            if lex_lt(a[0].name, b[0].name) {
                lemma_lex_trans(a[0].name, b[0].name, a[0].name);
                lemma_lex_irrefl(a[0].name);
            }
        }
        lemma_overlay_from_skip(a, b, 0, 1);
        assert(a.skip(0) =~= a);
        assert(overlay_v(a.skip(0), b.skip(1)) == overlay_v(a, b.skip(1)));
    }
}

} // verus!
