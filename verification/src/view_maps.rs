use vstd::prelude::*;
use crate::cache::{find_name, lemma_find_name, lemma_find_name_push_pub, find_name_pub, cache_lookup};
use crate::repo::{Repo, Oid, is_commit};

verus! {

// ===========================================================================
// Layered mappings from original to filtered ids, one layer per walk.
//
// A downstream map buffers the entries of one computation; reads fall
// through to the upstream on a miss, writes stay in the downstream.  The
// downstream is merged into the upstream when the computation is done.
// ===========================================================================

pub struct ViewMaps {
    names: Vec<String>,
    tables: Vec<Vec<Option<Oid>>>,
    upstream: Option<Box<ViewMaps>>,
}

impl ViewMaps {
    pub closed spec fn wf(&self) -> bool
        decreases *self,
    {
        &&& self.names@.len() == self.tables@.len()
        &&& match self.upstream {
            Some(u) => u.wf(),
            None => true,
        }
    }

    /// The entries of this layer alone.
    pub closed spec fn own_view(&self) -> Map<(Seq<char>, Oid), Oid> {
        Map::new(
            |k: (Seq<char>, Oid)| cache_lookup(self.names@, self.tables@, k.0, k.1) is Some,
            |k: (Seq<char>, Oid)| cache_lookup(self.names@, self.tables@, k.0, k.1)->Some_0,
        )
    }

    /// All visible entries: this layer over the upstream.
    pub closed spec fn view(&self) -> Map<(Seq<char>, Oid), Oid>
        decreases *self,
    {
        match self.upstream {
            Some(u) => u.view().union_prefer_right(self.own_view()),
            None => self.own_view(),
        }
    }

    /// An empty map with no upstream.
    pub fn new() -> (r: ViewMaps)
        ensures
            r@ == Map::<(Seq<char>, Oid), Oid>::empty(),
            r.own_view() == Map::<(Seq<char>, Oid), Oid>::empty(),
            r.wf(),
    {
        let r = ViewMaps { names: Vec::new(), tables: Vec::new(), upstream: None };
        proof {
            assert(r.own_view() =~= Map::<(Seq<char>, Oid), Oid>::empty());
        }
        r
    }

    /// An empty downstream over `u`: reads see `u`, writes do not touch
    /// it.
    pub fn new_downstream(u: ViewMaps) -> (r: ViewMaps)
        requires
            u.wf(),
        ensures
            r@ == u@,
            r.own_view() == Map::<(Seq<char>, Oid), Oid>::empty(),
            r.wf(),
    {
        let ghost uv = u@;
        let r = ViewMaps { names: Vec::new(), tables: Vec::new(), upstream: Some(Box::new(u)) };
        proof {
            assert(r.own_view() =~= Map::<(Seq<char>, Oid), Oid>::empty());
            assert(r@ =~= uv);
        }
        r
    }

    /// The recorded filtered id, or the null id when nothing is
    /// recorded.
    pub fn get(&self, viewstr: &str, from: Oid) -> (r: Oid)
        ensures
            r == if self@.contains_key((viewstr@, from)) {
                self@[(viewstr@, from)]
            } else {
                0
            },
        decreases *self,
    {
        let i = find_name_pub(&self.names, viewstr);
        proof {
            lemma_find_name(self.names@, viewstr@, 0);
        }
        if i < self.names.len() && i < self.tables.len() {
            let t = &self.tables[i];
            if from < t.len() as u64 {
                match t[from as usize] {
                    Some(v) => {
                        return v;
                    },
                    None => {},
                }
            }
        }
        proof {
            assert(cache_lookup(self.names@, self.tables@, viewstr@, from) is None);
            assert(!self.own_view().contains_key((viewstr@, from)));
        }
        match &self.upstream {
            Some(u) => u.get(viewstr, from),
            None => 0,
        }
    }

    /// Whether an entry is recorded whose object is still in the store;
    /// a recorded null id needs no object.
    pub fn has(&self, repo: &Repo, viewstr: &str, from: Oid) -> (r: bool)
        ensures
            r == (self@.contains_key((viewstr@, from)) && (self@[(viewstr@, from)] == 0
                || is_commit(repo@, self@[(viewstr@, from)]))),
        decreases *self,
    {
        let i = find_name_pub(&self.names, viewstr);
        proof {
            lemma_find_name(self.names@, viewstr@, 0);
        }
        if i < self.names.len() && i < self.tables.len() {
            let t = &self.tables[i];
            if from < t.len() as u64 {
                match t[from as usize] {
                    Some(v) => {
                        return v == 0 || repo.has_commit(v);
                    },
                    None => {},
                }
            }
        }
        proof {
            assert(cache_lookup(self.names@, self.tables@, viewstr@, from) is None);
            assert(!self.own_view().contains_key((viewstr@, from)));
        }
        match &self.upstream {
            Some(u) => u.has(repo, viewstr, from),
            None => false,
        }
    }

    /// Record a filtered id in this layer.
    pub fn set(&mut self, viewstr: &str, from: Oid, to: Oid)
        requires
            old(self).wf(),
            from + 1 <= usize::MAX,
        ensures
            final(self).wf(),
            final(self)@ == old(self)@.insert((viewstr@, from), to),
            final(self).own_view() == old(self).own_view().insert((viewstr@, from), to),
    {
        let n = self.names.len();
        let i = find_name_pub(&self.names, viewstr);
        proof {
            lemma_find_name(self.names@, viewstr@, 0);
        }
        let ghost oldnames = self.names@;
        let ghost oldtables = self.tables@;
        if i == n {
            let nv = viewstr.to_owned();
            let ghost nvg = nv;
            self.names.push(nv);
            self.tables.push(Vec::new());
            proof {
                lemma_find_name_push_pub(oldnames, viewstr@, 0, nvg);
            }
        }
        proof {
            assert(find_name(self.names@, viewstr@, 0) == i);
            assert(self.names@[i as int]@ == viewstr@);
        }
        let ghost names2 = self.names@;
        let ghost tables2 = self.tables@;
        let idu = from as usize;
        let t = &mut self.tables[i];
        let ghost oldt = t@;
        while t.len() <= idu
            invariant
                idu + 1 <= usize::MAX,
                oldt.len() <= t@.len() <= idu + 1 || oldt.len() > idu,
                oldt.len() > idu ==> t@ == oldt,
                forall|m: int| 0 <= m < oldt.len() && m < t@.len() ==> t@[m] == oldt[m],
                forall|m: int| oldt.len() <= m < t@.len() ==> t@[m] is None,
            decreases idu + 1 - t@.len(),
        {
            t.push(None);
        }
        t.set(idu, Some(to));
        proof {
            crate::cache::lemma_cache_insert_view(
                oldnames,
                oldtables,
                names2,
                tables2.update(i as int, *t),
                viewstr@,
                from,
                to,
                i as int,
                oldt,
            );
            assert(self.own_view() =~= old(self).own_view().insert((viewstr@, from), to));
            match &self.upstream {
                Some(u) => {
                    assert(self@ =~= old(self)@.insert((viewstr@, from), to));
                },
                None => {
                    assert(self@ =~= old(self)@.insert((viewstr@, from), to));
                },
            }
        }
    }

    /// Fold every entry of `other`'s own layer into this one; an entry of
    /// `other` wins over an existing one.
    pub fn merge(&mut self, other: &ViewMaps)
        requires
            old(self).wf(),
        ensures
            final(self).wf(),
            final(self)@ == merged_view(old(self)@, other),
            final(self).own_view() == merged_own_view(old(self).own_view(), other),
    {
        let mut i: usize = 0;
        let ghost v0 = self@;
        let ghost o0 = self.own_view();
        while i < other.names.len()
            invariant
                self.wf(),
                i <= other.names@.len(),
                self@ == fold_names(v0, other, i as int),
                self.own_view() == fold_names(o0, other, i as int),
            decreases other.names@.len() - i,
        {
            if i < other.tables.len() {
                let ghost vbefore = self@;
                let ghost obefore = self.own_view();
                let tlen = other.tables[i].len();
                let mut j: usize = 0;
                while j < tlen
                    invariant
                        self.wf(),
                        i < other.names@.len(),
                        i < other.tables@.len(),
                        tlen == other.tables@[i as int]@.len(),
                        j <= tlen,
                        self@ == fold_table(vbefore, other.names@[i as int]@, other.tables@[
                            i as int
                        ]@, j as int),
                        self.own_view() == fold_table(obefore, other.names@[i as int]@,
                            other.tables@[i as int]@, j as int),
                    decreases tlen - j,
                {
                    let entry = other.tables[i][j];
                    match entry {
                        Some(v) => {
                            let name = other.names[i].clone();
                            self.set(name.as_str(), j as u64, v);
                        },
                        None => {},
                    }
                    j = j + 1;
                }
            }
            i = i + 1;
        }
        proof {
            assert(self@ == merged_view(v0, other));
            assert(self.own_view() == merged_own_view(o0, other));
        }
    }

    /// The number of entries recorded in this layer, by filter spec.
    pub fn stats(&self) -> (r: Vec<(String, usize)>)
        ensures
            r@.len() == vm_names(self).len(),
    {
        let mut r: Vec<(String, usize)> = Vec::new();
        let mut i: usize = 0;
        while i < self.names.len()
            invariant
                i <= self.names@.len(),
                self.names@.len() == vm_names(self).len(),
                r@.len() == i,
            decreases self.names@.len() - i,
        {
            let mut count: usize = 0;
            if i < self.tables.len() {
                let t = &self.tables[i];
                let mut j: usize = 0;
                while j < t.len()
                    invariant
                        j <= t@.len(),
                        count <= j,
                    decreases t@.len() - j,
                {
                    if t[j].is_some() {
                        if count < usize::MAX {
                            count = count + 1;
                        }
                    }
                    j = j + 1;
                }
            }
            r.push((self.names[i].clone(), count));
            i = i + 1;
        }
        r
    }
}

/// The names column of a layer, for contracts about its size.
pub closed spec fn vm_names(m: &ViewMaps) -> Seq<String> {
    m.names@
}

/// One table of `other` folded over `m`: every recorded slot below `j`
/// overrides.
pub open spec fn fold_table(
    m: Map<(Seq<char>, Oid), Oid>,
    name: Seq<char>,
    t: Seq<Option<Oid>>,
    j: int,
) -> Map<(Seq<char>, Oid), Oid>
    decreases j,
    when 0 <= j <= t.len()
{
    if j <= 0 {
        m
    } else {
        let m2 = fold_table(m, name, t, j - 1);
        match t[j - 1] {
            Some(v) => m2.insert((name, (j - 1) as Oid), v),
            None => m2,
        }
    }
}

/// The first `i` layers of `other`'s own entries folded over `m`.
pub closed spec fn fold_names(m: Map<(Seq<char>, Oid), Oid>, other: &ViewMaps, i: int) -> Map<
    (Seq<char>, Oid),
    Oid,
>
    decreases i,
    when 0 <= i <= vm_names(other).len()
{
    if i <= 0 {
        m
    } else {
        let m2 = fold_names(m, other, i - 1);
        if i - 1 < other.tables@.len() {
            fold_table(m2, other.names@[i - 1]@, other.tables@[i - 1]@, other.tables@[i - 1]@.len() as int)
        } else {
            m2
        }
    }
}

/// Every own entry of `other` folded over `m`.
pub closed spec fn merged_view(m: Map<(Seq<char>, Oid), Oid>, other: &ViewMaps) -> Map<
    (Seq<char>, Oid),
    Oid,
> {
    fold_names(m, other, vm_names(other).len() as int)
}

/// The same fold, on the own layer alone.
pub closed spec fn merged_own_view(m: Map<(Seq<char>, Oid), Oid>, other: &ViewMaps) -> Map<
    (Seq<char>, Oid),
    Oid,
> {
    fold_names(m, other, vm_names(other).len() as int)
}

} // verus!
