use vstd::prelude::*;

use crate::error::Error;
use crate::index::Index;
use crate::point::Point;
use crate::rank::{distinct_ranked, insert_ranked, sorted_ranked, Ranked};

verus! {

/// The exact baseline index: it stores every entry in insertion order and
/// answers a query by ranking all stored points by distance. It is the
/// ground-truth oracle against which the approximate backend is judged.
pub struct NaiveIndex<P> {
    entries: Vec<(u64, P)>,
}

impl<P: Point> NaiveIndex<P> {
    /// The stored entries, in insertion order.
    pub closed spec fn entries_spec(&self) -> Seq<(u64, P)> {
        self.entries@
    }

    /// No two entries share a key.
    pub open spec fn wf(&self) -> bool {
        forall|i: int, j: int|
            0 <= i < j < self.entries_spec().len() ==> (#[trigger] self.entries_spec()[i]).0 != (
            #[trigger] self.entries_spec()[j]).0
    }

    /// Number of entries held.
    pub open spec fn spec_len(&self) -> int {
        self.entries_spec().len() as int
    }

    /// Whether some entry is stored under key `k`.
    pub open spec fn holds_key(&self, k: u64) -> bool {
        exists|i: int|
            0 <= i < self.entries_spec().len() && (#[trigger] self.entries_spec()[i]).0 == k
    }

    /// Some stored entry carries this key, lies at this distance from the
    /// query, and has this shape.
    pub open spec fn backs(&self, q: P, e: (u64, P)) -> bool {
        exists|i: int|
            0 <= i < self.entries_spec().len() && e.0 == (#[trigger] self.entries_spec()[i]).0
                && q.dist(&e.1) == q.dist(&self.entries_spec()[i].1) && e.1.shape()
                == self.entries_spec()[i].1.shape()
    }

    /// Every stored point shares the query's shape.
    pub open spec fn all_match(&self, q: P) -> bool {
        forall|i: int|
            0 <= i < self.entries_spec().len() ==> (#[trigger] self.entries_spec()[i]).1.shape()
                == q.shape()
    }

    /// A fresh, empty index.
    pub fn new() -> (r: Self)
        ensures
            r.wf(),
            r.spec_len() == 0,
    {
        NaiveIndex { entries: Vec::new() }
    }

    /// Number of entries held.
    pub fn len(&self) -> (r: usize)
        ensures
            r as int == self.spec_len(),
    {
        self.entries.len()
    }

    /// Appends a new entry; a key already held is rejected with
    /// `DuplicateKey`, leaving the index untouched.
    pub fn insert(&mut self, key: u64, point: P) -> (r: Result<(), Error>)
        requires
            old(self).wf(),
        ensures
            final(self).wf(),
            old(self).holds_key(key) ==> r == Err::<(), Error>(Error::DuplicateKey) && *final(self)
                == *old(self),
            !old(self).holds_key(key) ==> r == Ok::<(), Error>(()) && final(self).entries_spec()
                == old(self).entries_spec().push((key, point)),
    {
        let ghost orig = *self;
        let mut i: usize = 0;
        while i < self.entries.len()
            invariant
                *self == orig,
                orig == *old(self),
                orig.wf(),
                i <= self.entries@.len(),
                forall|j: int| 0 <= j < i ==> (#[trigger] self.entries@[j]).0 != key,
            decreases self.entries@.len() - i,
        {
            if self.entries[i].0 == key {
                proof {
                    assert(self.entries_spec()[i as int].0 == key);
                }
                return Err(Error::DuplicateKey);
            }
            i += 1;
        }
        let ghost prev = self.entries@;
        self.entries.push((key, point));
        proof {
            assert forall|i2: int, j2: int| 0 <= i2 < j2 < self.entries@.len() implies (
            #[trigger] self.entries@[i2]).0 != (#[trigger] self.entries@[j2]).0 by {
                if j2 == self.entries@.len() - 1 {
                    assert(self.entries@[i2] == prev[i2]);
                    assert(prev[i2].0 != key);
                } else {
                    assert(self.entries@[i2] == prev[i2] && self.entries@[j2] == prev[j2]);
                    assert(old(self).entries_spec()[i2].0 != old(self).entries_spec()[j2].0);
                }
            }
        }
        Ok(())
    }

    /// The `min(n, len)` stored entries nearest the query, exactly, ascending
    /// by distance; ties keep insertion order. Fails with `EmptyIndex` on an
    /// empty index and with `DimensionMismatch` when any stored point has a
    /// shape other than the query's.
    pub fn find(&self, query: &P, n: usize) -> (r: Result<Vec<(u64, P)>, Error>)
        requires
            self.wf(),
        ensures
            (self.spec_len() == 0) <==> (r == Err::<Vec<(u64, P)>, Error>(Error::EmptyIndex)),
            (self.spec_len() > 0 && !self.all_match(*query)) <==> (r == Err::<
                Vec<(u64, P)>,
                Error,
            >(Error::DimensionMismatch)),
            self.spec_len() > 0 && self.all_match(*query) ==> r is Ok,
            r matches Ok(v) ==> {
                &&& v@.len() == if n as int <= self.spec_len() {
                    n as int
                } else {
                    self.spec_len()
                }
                &&& forall|a: int, b: int|
                    0 <= a < b < v@.len() ==> query.dist(&(#[trigger] v@[a]).1) <= query.dist(
                        &(#[trigger] v@[b]).1,
                    )
                &&& forall|a: int, b: int|
                    0 <= a < b < v@.len() ==> (#[trigger] v@[a]).0 != (#[trigger] v@[b]).0
                &&& forall|t: int| 0 <= t < v@.len() ==> self.backs(*query, #[trigger] v@[t])
                &&& forall|i: int, t: int|
                    0 <= i < self.spec_len() && 0 <= t < v@.len() && !(exists|u: int|
                        0 <= u < v@.len() && (#[trigger] v@[u]).0 == self.entries_spec()[i].0)
                        ==> query.dist(&(#[trigger] v@[t]).1) <= query.dist(
                        &(#[trigger] self.entries_spec()[i]).1,
                    )
            },
    {
        if self.entries.len() == 0 {
            return Err(Error::EmptyIndex);
        }
        let len = self.entries.len();
        let mut dists: Vec<u64> = Vec::new();
        let mut i: usize = 0;
        while i < len
            invariant
                i <= len,
                len == self.entries@.len(),
                self.wf(),
                dists@.len() == i,
                forall|j: int|
                    0 <= j < i ==> (#[trigger] self.entries@[j]).1.shape() == query.shape(),
                forall|j: int|
                    0 <= j < i ==> (#[trigger] dists@[j]) as int == query.dist(
                        &self.entries@[j].1,
                    ),
            decreases len - i,
        {
            match query.distance(&self.entries[i].1) {
                Ok(d) => {
                    dists.push(d);
                },
                Err(_) => {
                    return Err(Error::DimensionMismatch);
                },
            }
            i += 1;
        }
        // rank every entry, ascending by distance, stably; `pos` witnesses
        // where each entry landed in the ranking
        let mut ord: Vec<Ranked> = Vec::new();
        let ghost mut pos: Seq<int> = Seq::empty();
        let mut i: usize = 0;
        while i < len
            invariant
                i <= len,
                len == self.entries@.len(),
                dists@.len() == len,
                ord@.len() == i,
                sorted_ranked(ord@),
                distinct_ranked(ord@),
                forall|t: int|
                    0 <= t < i ==> (#[trigger] ord@[t]).0 < i && ord@[t].1 == dists@[ord@[t].0 as int],
                pos.len() == i,
                forall|j: int| 0 <= j < i ==> 0 <= (#[trigger] pos[j]) < i && ord@[pos[j]].0 == j,
            decreases len - i,
        {
            let ghost prev = ord@;
            let ghost prevpos = pos;
            let d = dists[i];
            insert_ranked(&mut ord, i, d, len);
            proof {
                let p = choose|p: int| 0 <= p <= prev.len() && ord@ == prev.insert(p, (i, d));
                assert(forall|t: int| 0 <= t < p ==> ord@[t] == prev[t]);
                assert(ord@[p] == (i, d));
                assert(forall|t: int| p < t < ord@.len() ==> ord@[t] == prev[t - 1]);
                pos = Seq::new(
                    (i + 1) as nat,
                    |j: int|
                        if j == i as int {
                            p
                        } else if prevpos[j] < p {
                            prevpos[j]
                        } else {
                            prevpos[j] + 1
                        },
                );
                assert forall|j: int| 0 <= j < i + 1 implies 0 <= (#[trigger] pos[j]) < i + 1
                    && ord@[pos[j]].0 == j by {
                    if j < i {
                        if prevpos[j] < p {
                            assert(ord@[pos[j]] == prev[prevpos[j]]);
                        } else {
                            assert(pos[j] == prevpos[j] + 1);
                            assert(ord@[prevpos[j] + 1] == prev[prevpos[j]]);
                        }
                    }
                }
            }
            i += 1;
        }
        // keep the n nearest, in rank order
        let m = if n < len {
            n
        } else {
            len
        };
        let mut v: Vec<(u64, P)> = Vec::new();
        let mut t: usize = 0;
        while t < m
            invariant
                t <= m,
                m == if n as int <= self.entries@.len() {
                    n as int
                } else {
                    self.entries@.len() as int
                },
                len == self.entries@.len(),
                dists@.len() == len,
                ord@.len() == len,
                self.wf(),
                sorted_ranked(ord@),
                distinct_ranked(ord@),
                forall|u: int|
                    0 <= u < len ==> (#[trigger] ord@[u]).0 < len && ord@[u].1 == dists@[ord@[u].0 as int],
                pos.len() == len,
                forall|j: int| 0 <= j < len ==> 0 <= (#[trigger] pos[j]) < len && ord@[pos[j]].0 == j,
                forall|j: int|
                    0 <= j < len ==> (#[trigger] dists@[j]) as int == query.dist(
                        &self.entries@[j].1,
                    ),
                v@.len() == t,
                forall|a: int|
                    0 <= a < t ==> query.dist(&(#[trigger] v@[a]).1) == ord@[a].1 as int,
                forall|a: int|
                    0 <= a < t ==> (#[trigger] v@[a]).0 == self.entries@[ord@[a].0 as int].0
                        && v@[a].1.shape() == self.entries@[ord@[a].0 as int].1.shape() && query.dist(
                        &v@[a].1,
                    ) == query.dist(&self.entries@[ord@[a].0 as int].1),
            decreases m - t,
        {
            let idx = ord[t].0;
            let entry = &self.entries[idx];
            let p = entry.1.duplicate();
            v.push((entry.0, p));
            t += 1;
        }
        proof {
            // distinct keys in the result
            assert forall|a: int, b: int| 0 <= a < b < v@.len() implies (#[trigger] v@[a]).0 != (
            #[trigger] v@[b]).0 by {
                let oa = ord@[a].0 as int;
                let ob = ord@[b].0 as int;
                assert(oa != ob);
                if oa < ob {
                    assert(self.entries_spec()[oa].0 != self.entries_spec()[ob].0);
                } else {
                    assert(self.entries_spec()[ob].0 != self.entries_spec()[oa].0);
                }
            }
            // each result pair corresponds to a stored entry
            assert forall|t0: int| 0 <= t0 < v@.len() implies self.backs(
                *query,
                #[trigger] v@[t0],
            ) by {
                let i1 = ord@[t0].0 as int;
                assert(0 <= i1 < self.spec_len() && v@[t0].0 == self.entries_spec()[i1].0
                    && query.dist(&v@[t0].1) == query.dist(&self.entries_spec()[i1].1)
                    && v@[t0].1.shape() == self.entries_spec()[i1].1.shape());
            }
            // any stored entry whose key is absent from the result is at least
            // as far from the query as every result entry
            assert forall|i0: int, t0: int|
                0 <= i0 < self.spec_len() && 0 <= t0 < v@.len() && !(exists|u: int|
                    0 <= u < v@.len() && (#[trigger] v@[u]).0 == self.entries_spec()[i0].0)
                implies query.dist(&(#[trigger] v@[t0]).1) <= query.dist(
                &(#[trigger] self.entries_spec()[i0]).1,
            ) by {
                let u0 = pos[i0];
                assert(ord@[u0].0 == i0);
                if u0 < v@.len() {
                    assert(v@[u0].0 == self.entries@[ord@[u0].0 as int].0);
                    assert(v@[u0].0 == self.entries_spec()[i0].0);
                    assert(false);
                }
                assert(ord@[t0].1 <= ord@[u0].1);
                assert(ord@[u0].1 as int == query.dist(&self.entries@[i0].1));
                assert(query.dist(&v@[t0].1) == ord@[t0].1 as int);
            }
        }
        Ok(v)
    }

    /// Same as `find`, projected to keys only.
    pub fn find_keys(&self, query: &P, n: usize) -> (r: Result<Vec<u64>, Error>)
        requires
            self.wf(),
        ensures
            (self.spec_len() == 0) <==> (r == Err::<Vec<u64>, Error>(Error::EmptyIndex)),
            (self.spec_len() > 0 && !self.all_match(*query)) <==> (r == Err::<Vec<u64>, Error>(
                Error::DimensionMismatch,
            )),
            self.spec_len() > 0 && self.all_match(*query) ==> r is Ok,
            r matches Ok(ks) ==> {
                &&& ks@.len() == if n as int <= self.spec_len() {
                    n as int
                } else {
                    self.spec_len()
                }
                &&& forall|a: int, b: int|
                    0 <= a < b < ks@.len() ==> (#[trigger] ks@[a]) != (#[trigger] ks@[b])
                &&& forall|t: int| 0 <= t < ks@.len() ==> self.holds_key(#[trigger] ks@[t])
            },
    {
        match self.find(query, n) {
            Ok(v) => {
                let mut ks: Vec<u64> = Vec::new();
                let mut t: usize = 0;
                while t < v.len()
                    invariant
                        t <= v@.len(),
                        ks@.len() == t,
                        forall|a: int| 0 <= a < t ==> (#[trigger] ks@[a]) == v@[a].0,
                    decreases v@.len() - t,
                {
                    ks.push(v[t].0);
                    t += 1;
                }
                proof {
                    assert forall|a: int, b: int| 0 <= a < b < ks@.len() implies (
                    #[trigger] ks@[a]) != (#[trigger] ks@[b]) by {
                        assert(ks@[a] == v@[a].0 && ks@[b] == v@[b].0);
                        assert(v@[a].0 != v@[b].0);
                    }
                    assert forall|t0: int| 0 <= t0 < ks@.len() implies self.holds_key(
                        #[trigger] ks@[t0],
                    ) by {
                        assert(ks@[t0] == v@[t0].0);
                        assert(self.backs(*query, v@[t0]));
                        let i1 = choose|i1: int|
                            0 <= i1 < self.entries_spec().len() && v@[t0].0 == (
                            #[trigger] self.entries_spec()[i1]).0 && query.dist(&v@[t0].1)
                                == query.dist(&self.entries_spec()[i1].1) && v@[t0].1.shape()
                                == self.entries_spec()[i1].1.shape();
                        assert(self.entries_spec()[i1].0 == ks@[t0]);
                    }
                }
                Ok(ks)
            },
            Err(e) => Err(e),
        }
    }
}

impl<P: Point> Index<u64, P> for NaiveIndex<P> {
    open spec fn inv(&self) -> bool {
        self.wf()
    }

    open spec fn count(&self) -> int {
        self.spec_len()
    }

    open spec fn has_key(&self, k: u64) -> bool {
        self.holds_key(k)
    }

    open spec fn admits(&self, q: P) -> bool {
        self.all_match(q)
    }

    fn insert(&mut self, key: u64, point: P) -> (r: Result<(), Error>) {
        let ghost held = self.holds_key(key);
        let r = NaiveIndex::insert(self, key, point);
        proof {
            if !held {
                assert(self.entries_spec()[self.spec_len() - 1].0 == key);
            }
        }
        r
    }

    fn find(&self, query: &P, n: usize) -> (r: Result<Vec<(u64, P)>, Error>) {
        NaiveIndex::find(self, query, n)
    }

    fn find_keys(&self, query: &P, n: usize) -> (r: Result<Vec<u64>, Error>) {
        NaiveIndex::find_keys(self, query, n)
    }

    fn len(&self) -> (r: usize) {
        NaiveIndex::len(self)
    }
}

} // verus!
