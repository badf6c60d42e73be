use vstd::prelude::*;
use crate::repo::{Repo, Oid, is_commit};
use crate::tree::str_eq;

verus! {

// ===========================================================================
// The filter cache transaction.
//
// A transaction buffers the mapping (filter spec, original commit) to
// filtered commit for one walk, and counts its hits, misses and nested
// walks.  The null id 0 is a recorded answer ("this commit vanishes"), so
// a table slot distinguishes absent from 0.  An entry is only returned
// while the recorded object still exists in the store.
// ===========================================================================

pub struct Transaction {
    names: Vec<String>,
    tables: Vec<Vec<Option<Oid>>>,
    pub misses: usize,
    pub hits: usize,
    pub walks: usize,
}

/// The first table registered for `name`, from index `i` on; the length
/// when there is none.
pub open spec fn find_name(names: Seq<String>, name: Seq<char>, i: int) -> int
    decreases names.len() - i,
    when 0 <= i <= names.len()
{
    if i >= names.len() {
        i
    } else if names[i]@ == name {
        i
    } else {
        find_name(names, name, i + 1)
    }
}

pub proof fn lemma_find_name(names: Seq<String>, name: Seq<char>, i: int)
    requires
        0 <= i <= names.len(),
    ensures
        i <= find_name(names, name, i) <= names.len(),
        find_name(names, name, i) < names.len() ==> names[find_name(names, name, i)]@ == name,
        forall|j: int| i <= j < find_name(names, name, i) ==> names[j]@ != name,
    decreases names.len() - i,
{
    if i < names.len() && names[i]@ != name {
        lemma_find_name(names, name, i + 1);
    }
}

pub proof fn lemma_find_name_push_pub(names: Seq<String>, name: Seq<char>, i: int, nv: String)
    requires
        0 <= i <= names.len(),
    ensures
        find_name(names, name, i) < names.len() ==> find_name(names.push(nv), name, i)
            == find_name(names, name, i),
        find_name(names, name, i) == names.len() && nv@ == name ==> find_name(
            names.push(nv),
            name,
            i,
        ) == names.len(),
        find_name(names, name, i) == names.len() && nv@ != name ==> find_name(
            names.push(nv),
            name,
            i,
        ) == names.len() + 1,
{
    lemma_find_name_push(names, name, i, nv);
}

proof fn lemma_find_name_push(names: Seq<String>, name: Seq<char>, i: int, nv: String)
    requires
        0 <= i <= names.len(),
    ensures
        find_name(names, name, i) < names.len() ==> find_name(names.push(nv), name, i)
            == find_name(names, name, i),
        find_name(names, name, i) == names.len() && nv@ == name ==> find_name(
            names.push(nv),
            name,
            i,
        ) == names.len(),
        find_name(names, name, i) == names.len() && nv@ != name ==> find_name(
            names.push(nv),
            name,
            i,
        ) == names.len() + 1,
    decreases names.len() - i,
{
    if i < names.len() {
        assert(names.push(nv)[i] == names[i]);
        lemma_find_name_push(names, name, i + 1, nv);
    } else {
        assert(names.push(nv)[i] == nv);
        if nv@ != name {
            assert(find_name(names.push(nv), name, i + 1) == i + 1);
        }
    }
}

/// The recorded answer for (`name`, `id`), if any.
pub open spec fn cache_lookup(
    names: Seq<String>,
    tables: Seq<Vec<Option<Oid>>>,
    name: Seq<char>,
    id: Oid,
) -> Option<Oid> {
    let i = find_name(names, name, 0);
    if i >= names.len() || i >= tables.len() {
        None
    } else {
        let t = tables[i]@;
        if id < t.len() {
            t[id as int]
        } else {
            None
        }
    }
}

pub fn find_name_pub(names: &Vec<String>, name: &str) -> (r: usize)
    ensures
        r == find_name(names@, name@, 0),
        r <= names@.len(),
        r < names@.len() ==> names@[r as int]@ == name@,
{
    find_name_exec(names, name)
}

fn find_name_exec(names: &Vec<String>, name: &str) -> (r: usize)
    ensures
        r == find_name(names@, name@, 0),
        r <= names@.len(),
        r < names@.len() ==> names@[r as int]@ == name@,
{
    let n = names.len();
    let mut i: usize = 0;
    while i < n
        invariant
            0 <= i <= n,
            n == names@.len(),
            find_name(names@, name@, 0) == find_name(names@, name@, i as int),
        decreases n - i,
    {
        if str_eq(names[i].as_str(), name) {
            return i;
        }
        i = i + 1;
    }
    i
}

impl Transaction {
    /// The two columns stay aligned.
    pub closed spec fn wf(&self) -> bool {
        self.names@.len() == self.tables@.len()
    }

    pub closed spec fn spec_misses(&self) -> usize {
        self.misses
    }

    pub closed spec fn spec_hits(&self) -> usize {
        self.hits
    }

    pub closed spec fn spec_walks(&self) -> usize {
        self.walks
    }

    /// The buffered entries: a map from (filter spec, original id) to
    /// filtered id.
    pub closed spec fn view(&self) -> Map<(Seq<char>, Oid), Oid> {
        Map::new(
            |k: (Seq<char>, Oid)| cache_lookup(self.names@, self.tables@, k.0, k.1) is Some,
            |k: (Seq<char>, Oid)| cache_lookup(self.names@, self.tables@, k.0, k.1)->Some_0,
        )
    }

    /// An empty transaction.
    pub fn new() -> (r: Transaction)
        ensures
            r@ == Map::<(Seq<char>, Oid), Oid>::empty(),
            r.spec_misses() == 0,
            r.spec_hits() == 0,
            r.spec_walks() == 0,
            r.wf(),
    {
        let r = Transaction {
            names: Vec::new(),
            tables: Vec::new(),
            misses: 0,
            hits: 0,
            walks: 0,
        };
        proof {
            assert(r@ =~= Map::<(Seq<char>, Oid), Oid>::empty());
        }
        r
    }

    /// Look up the filtered id recorded for (`name`, `id`).  An entry
    /// whose object has left the store counts as a miss, which forces a
    /// rebuild after garbage collection.  The counters saturate.
    pub fn get(&mut self, name: &str, id: Oid, repo: &Repo) -> (r: Option<Oid>)
        ensures
            final(self)@ == old(self)@,
            final(self).spec_walks() == old(self).spec_walks(),
            final(self).wf() == old(self).wf(),
            ({
                let key = (name@, id);
                if old(self)@.contains_key(key) && (old(self)@[key] == 0 || is_commit(
                    repo@,
                    old(self)@[key],
                )) {
                    r == Some(old(self)@[key]) && final(self).spec_hits() == sat_inc(
                        old(self).spec_hits(),
                    ) && final(self).spec_misses() == old(self).spec_misses()
                } else {
                    r is None && final(self).spec_misses() == sat_inc(old(self).spec_misses())
                        && final(self).spec_hits() == old(self).spec_hits()
                }
            }),
    {
        let ghost key = (name@, id);
        let i = find_name_exec(&self.names, name);
        proof {
            lemma_find_name(self.names@, name@, 0);
        }
        let mut found: Option<Oid> = None;
        if i < self.names.len() && i < self.tables.len() {
            let t = &self.tables[i];
            if id < t.len() as u64 {
                found = t[id as usize];
            }
        }
        proof {
            assert(found == cache_lookup(self.names@, self.tables@, name@, id));
            if found is Some {
                assert(self@.contains_key((name@, id)));
                assert(self@[(name@, id)] == found->Some_0);
            } else {
                assert(!self@.contains_key((name@, id)));
            }
        }
        match found {
            Some(v) => {
                if v == 0 || repo.has_commit(v) {
                    self.hits = sat_inc_exec(self.hits);
                    Some(v)
                } else {
                    self.misses = sat_inc_exec(self.misses);
                    None
                }
            },
            None => {
                self.misses = sat_inc_exec(self.misses);
                None
            },
        }
    }

    /// Note one more walk through this transaction.
    pub fn enter_walk(&mut self)
        ensures
            final(self)@ == old(self)@,
            final(self).wf() == old(self).wf(),
            final(self).spec_walks() == sat_inc(old(self).spec_walks()),
            final(self).spec_misses() == old(self).spec_misses(),
            final(self).spec_hits() == old(self).spec_hits(),
    {
        self.walks = sat_inc_exec(self.walks);
    }

    /// Note that a walk through this transaction has ended: the nesting
    /// depth drops again.
    pub fn exit_walk(&mut self)
        ensures
            final(self)@ == old(self)@,
            final(self).wf() == old(self).wf(),
            final(self).spec_walks() == if old(self).spec_walks() > 0 {
                (old(self).spec_walks() - 1) as usize
            } else {
                0
            },
            final(self).spec_misses() == old(self).spec_misses(),
            final(self).spec_hits() == old(self).spec_hits(),
    {
        if self.walks > 0 {
            self.walks = self.walks - 1;
        }
    }

    /// Record the filtered id for (`name`, `id`).
    pub fn insert(&mut self, name: &str, id: Oid, to: Oid, _permanent: bool)
        requires
            old(self).wf(),
            id + 1 <= usize::MAX,
        ensures
            final(self).wf(),
            final(self)@ == old(self)@.insert((name@, id), to),
            final(self).spec_misses() == old(self).spec_misses(),
            final(self).spec_hits() == old(self).spec_hits(),
            final(self).spec_walks() == old(self).spec_walks(),
    {
        let n = self.names.len();
        let i = find_name_exec(&self.names, name);
        proof {
            lemma_find_name(self.names@, name@, 0);
        }
        let ghost oldnames = self.names@;
        let ghost oldtables = self.tables@;
        if i == n {
            let nv = name.to_owned();
            let ghost nvg = nv;
            self.names.push(nv);
            self.tables.push(Vec::new());
            proof {
                lemma_find_name_push(oldnames, name@, 0, nvg);
            }
        }
        proof {
            assert(find_name(self.names@, name@, 0) == i);
            assert(i < self.names@.len());
            assert(self.names@[i as int]@ == name@);
            assert(self.names@.len() == self.tables@.len());
        }
        let ghost names2 = self.names@;
        let ghost tables2 = self.tables@;
        let idu = id as usize;
        // widen the table so the slot exists, then fill it
        let t = &mut self.tables[i];
        let ghost oldt = t@;
        while t.len() <= idu
            invariant
                idu + 1 <= usize::MAX,
                oldt.len() <= t@.len() <= idu + 1 || oldt.len() > idu,
                oldt.len() > idu ==> t@ == oldt,
                forall|m: int| 0 <= m < oldt.len() && m < t@.len() ==> t@[m] == oldt[m],
                forall|m: int| oldt.len() <= m < t@.len() ==> t@[m] is None,
            decreases idu + 1 - t@.len(),
        {
            t.push(None);
        }
        t.set(idu, Some(to));
        proof {
            let newt = t@;
            assert(newt[id as int] == Some(to));
            assert(forall|m: int|
                0 <= m < newt.len() && m != id && m < oldt.len() ==> newt[m] == oldt[m]);
            assert(forall|m: int|
                0 <= m < newt.len() && m != id && m >= oldt.len() ==> newt[m] is None);
            assert(newt.len() > id);
            assert(self.names@ == names2);
            assert(self.tables@ == tables2.update(i as int, *t));
            lemma_insert_view(oldnames, oldtables, names2, tables2.update(i as int, *t), name@, id, to, i as int, oldt);
            assert(self@ =~= old(self)@.insert((name@, id), to));
        }
    }
}

/// A saturating increment.
pub open spec fn sat_inc(x: usize) -> usize {
    if x < usize::MAX {
        (x + 1) as usize
    } else {
        x
    }
}

pub fn sat_inc_exec(x: usize) -> (r: usize)
    ensures
        r == sat_inc(x),
{
    if x < usize::MAX {
        x + 1
    } else {
        x
    }
}

/// After registering `name` (when it was absent) and updating its table
/// at `id`, the lookup of every key is the old lookup, except the updated
/// key.
pub proof fn lemma_cache_insert_view(
    oldnames: Seq<String>,
    oldtables: Seq<Vec<Option<Oid>>>,
    names2: Seq<String>,
    tables3: Seq<Vec<Option<Oid>>>,
    name: Seq<char>,
    id: Oid,
    to: Oid,
    i: int,
    oldt: Seq<Option<Oid>>,
)
    requires
        oldnames.len() == oldtables.len(),
        find_name(oldnames, name, 0) < oldnames.len() ==> names2 == oldnames && i == find_name(
            oldnames,
            name,
            0,
        ),
        find_name(oldnames, name, 0) == oldnames.len() ==> names2.len() == oldnames.len() + 1
            && names2 =~= oldnames.push(names2[oldnames.len() as int]) && names2[
            oldnames.len() as int
        ]@ == name && i == oldnames.len(),
        0 <= i < names2.len(),
        names2[i]@ == name,
        find_name(names2, name, 0) == i,
        tables3.len() == names2.len(),
        forall|j: int| 0 <= j < oldtables.len() && j != i ==> tables3[j] == oldtables[j],
        oldt == if i < oldtables.len() {
            oldtables[i]@
        } else {
            Seq::<Option<Oid>>::empty()
        },
        tables3[i]@.len() > id,
        tables3[i]@.len() >= oldt.len(),
        tables3[i]@[id as int] == Some(to),
        forall|m: int|
            0 <= m < tables3[i]@.len() && m != id && m < oldt.len() ==> tables3[i]@[m] == oldt[m],
        forall|m: int|
            0 <= m < tables3[i]@.len() && m != id && m >= oldt.len() ==> tables3[i]@[m] is None,
    ensures
        forall|k: (Seq<char>, Oid)|
            #![auto]
            cache_lookup(names2, tables3, k.0, k.1) == if k == (name, id) {
                Some(to)
            } else {
                cache_lookup(oldnames, oldtables, k.0, k.1)
            },
{
    lemma_insert_view(oldnames, oldtables, names2, tables3, name, id, to, i, oldt);
}

proof fn lemma_insert_view(
    oldnames: Seq<String>,
    oldtables: Seq<Vec<Option<Oid>>>,
    names2: Seq<String>,
    tables3: Seq<Vec<Option<Oid>>>,
    name: Seq<char>,
    id: Oid,
    to: Oid,
    i: int,
    oldt: Seq<Option<Oid>>,
)
    requires
        oldnames.len() == oldtables.len(),
        // names2 is oldnames, possibly with name appended when absent
        find_name(oldnames, name, 0) < oldnames.len() ==> names2 == oldnames && i == find_name(
            oldnames,
            name,
            0,
        ),
        find_name(oldnames, name, 0) == oldnames.len() ==> names2.len() == oldnames.len() + 1
            && names2 =~= oldnames.push(names2[oldnames.len() as int]) && names2[
            oldnames.len() as int
        ]@ == name && i == oldnames.len(),
        0 <= i < names2.len(),
        names2[i]@ == name,
        find_name(names2, name, 0) == i,
        tables3.len() == names2.len(),
        // all tables but i are the old ones
        forall|j: int| 0 <= j < oldtables.len() && j != i ==> tables3[j] == oldtables[j],
        // table i: the old table (empty when fresh) widened and updated
        oldt == if i < oldtables.len() {
            oldtables[i]@
        } else {
            Seq::<Option<Oid>>::empty()
        },
        tables3[i]@.len() > id,
        tables3[i]@.len() >= oldt.len(),
        tables3[i]@[id as int] == Some(to),
        forall|m: int|
            0 <= m < tables3[i]@.len() && m != id && m < oldt.len() ==> tables3[i]@[m] == oldt[m],
        forall|m: int|
            0 <= m < tables3[i]@.len() && m != id && m >= oldt.len() ==> tables3[i]@[m] is None,
    ensures
        forall|k: (Seq<char>, Oid)|
            #![auto]
            cache_lookup(names2, tables3, k.0, k.1) == if k == (name, id) {
                Some(to)
            } else {
                cache_lookup(oldnames, oldtables, k.0, k.1)
            },
{
    assert forall|k: (Seq<char>, Oid)| #![auto] true implies cache_lookup(names2, tables3, k.0, k.1)
        == if k == (name, id) {
        Some(to)
    } else {
        cache_lookup(oldnames, oldtables, k.0, k.1)
    } by {
        lemma_find_name(oldnames, k.0, 0);
        lemma_find_name(names2, k.0, 0);
        lemma_find_name(oldnames, name, 0);
        if k.0 == name {
            assert(find_name(names2, k.0, 0) == i);
            if k.1 == id {
                assert(cache_lookup(names2, tables3, k.0, k.1) == Some(to));
            } else {
                // same table, another slot
                let newv = cache_lookup(names2, tables3, k.0, k.1);
                assert(newv == (if k.1 < tables3[i]@.len() {
                    tables3[i]@[k.1 as int]
                } else {
                    None
                }));
                if i < oldtables.len() {
                    assert(find_name(oldnames, name, 0) == i);
                    assert(oldt == oldtables[i]@);
                    let oldv = cache_lookup(oldnames, oldtables, k.0, k.1);
                    assert(oldv == (if k.1 < oldt.len() {
                        oldt[k.1 as int]
                    } else {
                        None
                    }));
                    if k.1 < oldt.len() {
                        assert(k.1 < tables3[i]@.len());
                        assert(tables3[i]@[k.1 as int] == oldt[k.1 as int]);
                    } else {
                        if k.1 < tables3[i]@.len() {
                            assert(tables3[i]@[k.1 as int] is None);
                        }
                    }
                    assert(newv == oldv);
                } else {
                    assert(find_name(oldnames, name, 0) == oldnames.len());
                    assert(cache_lookup(oldnames, oldtables, k.0, k.1) is None);
                    assert(oldt.len() == 0);
                    if k.1 < tables3[i]@.len() {
                        assert(tables3[i]@[k.1 as int] is None);
                    }
                    assert(newv is None);
                }
            }
        } else {
            // another name: its position is unchanged
            if names2.len() == oldnames.len() {
                assert(names2 == oldnames);
                let j = find_name(oldnames, k.0, 0);
                if j < oldnames.len() {
                    assert(j != i) by {
                        assert(oldnames[j]@ == k.0);
                        assert(names2[i]@ == name);
                    }
                    assert(tables3[j] == oldtables[j]);
                }
            } else {
                assert(find_name(oldnames, name, 0) == oldnames.len());
                assert(names2 == oldnames.push(names2[oldnames.len() as int]));
                lemma_find_name_push(oldnames, k.0, 0, names2[oldnames.len() as int]);
                let j = find_name(oldnames, k.0, 0);
                if j < oldnames.len() {
                    assert(find_name(names2, k.0, 0) == j);
                    assert(j != i);
                    assert(tables3[j] == oldtables[j]);
                } else {
                    assert(find_name(names2, k.0, 0) == oldnames.len() + 1);
                    assert(find_name(names2, k.0, 0) >= names2.len());
                }
            }
        }
    }
}

} // verus!
