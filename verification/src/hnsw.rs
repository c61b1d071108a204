use vstd::prelude::*;

use crate::error::Error;
use crate::index::Index;
use crate::level::{LevelGen, MAX_LEVEL};
use crate::point::Point;
use crate::rank::{distinct_ranked, insert_ranked, sorted_ranked, Ranked};

verus! {

/// Whether `x` occurs in the list.
pub open spec fn in_list(s: Seq<usize>, x: int) -> bool {
    exists|t: int| 0 <= t < s.len() && (#[trigger] s[t]) == x
}

/// No position occurs twice in the list.
pub open spec fn list_nodup(s: Seq<usize>) -> bool {
    forall|t1: int, t2: int| 0 <= t1 < t2 < s.len() ==> (#[trigger] s[t1]) != (#[trigger] s[t2])
}

proof fn lemma_push_membership(s: Seq<usize>, y: usize)
    ensures
        forall|x: int|
            #![trigger in_list(s.push(y), x)]
            #![trigger in_list(s, x)]
            in_list(s.push(y), x) <==> (in_list(s, x) || x == y as int),
{
    assert forall|x: int| #![trigger in_list(s.push(y), x)] #![trigger in_list(s, x)] in_list(
        s.push(y),
        x,
    ) <==> (in_list(s, x) || x == y as int) by {
        if in_list(s.push(y), x) {
            let t = choose|t: int| 0 <= t < s.push(y).len() && (#[trigger] s.push(y)[t]) == x;
            if t < s.len() {
                assert(s[t] == x);
            } else {
                assert(x == y as int);
            }
        }
        if in_list(s, x) {
            let t = choose|t: int| 0 <= t < s.len() && (#[trigger] s[t]) == x;
            assert(s.push(y)[t] == x);
        }
        if x == y as int {
            assert(s.push(y)[s.len() as int] == x);
        }
    }
}

proof fn lemma_remove_membership(s: Seq<usize>, p: int)
    requires
        0 <= p < s.len(),
        list_nodup(s),
    ensures
        forall|x: int|
            #![trigger in_list(s.remove(p), x)]
            #![trigger in_list(s, x)]
            in_list(s.remove(p), x) <==> (in_list(s, x) && x != s[p]),
        list_nodup(s.remove(p)),
{
    let r = s.remove(p);
    assert(forall|t: int| 0 <= t < p ==> (#[trigger] r[t]) == s[t]);
    assert(forall|t: int| p <= t < r.len() ==> (#[trigger] r[t]) == s[t + 1]);
    assert forall|x: int| #![trigger in_list(r, x)] #![trigger in_list(s, x)] in_list(r, x) <==> (
    in_list(s, x) && x != s[p]) by {
        if in_list(r, x) {
            let t = choose|t: int| 0 <= t < r.len() && (#[trigger] r[t]) == x;
            if t < p {
                assert(s[t] == x);
                assert(s[t] != s[p]);
            } else {
                assert(s[t + 1] == x);
                assert(s[p] != s[t + 1]);
            }
        }
        if in_list(s, x) && x != s[p] {
            let t = choose|t: int| 0 <= t < s.len() && (#[trigger] s[t]) == x;
            if t < p {
                assert(r[t] == x);
            } else {
                assert(t != p);
                assert(r[t - 1] == x);
            }
        }
    }
    assert forall|t1: int, t2: int| 0 <= t1 < t2 < r.len() implies (#[trigger] r[t1]) != (
    #[trigger] r[t2]) by {
        let u1: int = if t1 < p {
            t1
        } else {
            t1 + 1
        };
        let u2: int = if t2 < p {
            t2
        } else {
            t2 + 1
        };
        assert(r[t1] == s[u1] && r[t2] == s[u2]);
    }
}

/// Some entry of the ranked list holds position `i`.
pub open spec fn holds_pos(s: Seq<Ranked>, i: int) -> bool {
    exists|t: int| 0 <= t < s.len() && (#[trigger] s[t]).0 == i
}

/// How many flags are set.
spec fn count_true(s: Seq<bool>) -> int
    decreases s.len(),
{
    if s.len() == 0 {
        0
    } else {
        count_true(s.drop_last()) + if s.last() {
            1int
        } else {
            0int
        }
    }
}

proof fn lemma_count_true_bound(s: Seq<bool>)
    ensures
        0 <= count_true(s) <= s.len(),
    decreases s.len(),
{
    if s.len() > 0 {
        lemma_count_true_bound(s.drop_last());
    }
}

proof fn lemma_count_true_update(s: Seq<bool>, i: int)
    requires
        0 <= i < s.len(),
        !s[i],
    ensures
        count_true(s.update(i, true)) == count_true(s) + 1,
    decreases s.len(),
{
    let u = s.update(i, true);
    if i == s.len() - 1 {
        assert(u.drop_last() =~= s.drop_last());
        assert(u.last());
        assert(!s.last());
    } else {
        assert(u.drop_last() =~= s.drop_last().update(i, true));
        assert(u.last() == s.last());
        lemma_count_true_update(s.drop_last(), i);
        assert(count_true(u) == count_true(s) + 1);
    }
}

proof fn lemma_distinct_bounded(s: Seq<Ranked>, n: int)
    requires
        0 <= n,
        distinct_ranked(s),
        forall|t: int| 0 <= t < s.len() ==> ((#[trigger] s[t]).0 as int) < n,
    ensures
        s.len() <= n,
    decreases n + 1,
{
    if s.len() > 0 {
        assert((s[0].0 as int) < n);
        assert(n >= 1);
        if exists|t: int| 0 <= t < s.len() && ((#[trigger] s[t]).0 as int) == n - 1 {
            let t0 = choose|t: int| 0 <= t < s.len() && ((#[trigger] s[t]).0 as int) == n - 1;
            let r = s.remove(t0);
            assert(forall|t: int| 0 <= t < t0 ==> (#[trigger] r[t]) == s[t]);
            assert(forall|t: int| t0 <= t < r.len() ==> (#[trigger] r[t]) == s[t + 1]);
            assert forall|t1: int, t2: int| 0 <= t1 < t2 < r.len() implies (#[trigger] r[t1]).0
                != (#[trigger] r[t2]).0 by {
                let u1: int = if t1 < t0 {
                    t1
                } else {
                    t1 + 1
                };
                let u2: int = if t2 < t0 {
                    t2
                } else {
                    t2 + 1
                };
                assert(r[t1] == s[u1] && r[t2] == s[u2]);
            }
            assert forall|t: int| 0 <= t < r.len() implies ((#[trigger] r[t]).0 as int) < n
                - 1 by {
                let u: int = if t < t0 {
                    t
                } else {
                    t + 1
                };
                assert(r[t] == s[u]);
                assert(s[u].0 != s[t0].0);
            }
            lemma_distinct_bounded(r, n - 1);
        } else {
            assert forall|t: int| 0 <= t < s.len() implies ((#[trigger] s[t]).0 as int) < n
                - 1 by {
                assert((s[t].0 as int) != n - 1);
            }
            lemma_distinct_bounded(s, n - 1);
        }
    }
}

struct Node<P> {
    key: u64,
    point: P,
    links: Vec<Vec<usize>>,
}

/// The approximate index: a hierarchical navigable small world graph. Nodes
/// live in an arena in insertion order; each node carries, per level of a
/// contiguous range starting at level zero, a bounded list of neighbour
/// positions. Search descends greedily from a sparse top layer into the dense
/// base layer; insertion searches each layer, links the new node
/// symmetrically to its nearest discovered neighbours, and prunes any
/// neighbour list that would exceed the degree bound.
pub struct HnswIndex<P> {
    nodes: Vec<Node<P>>,
    entry: usize,
    max_level: usize,
    m: usize,
    ef_construction: usize,
    gen: LevelGen,
}

impl<P: Point> HnswIndex<P> {
    /// Number of nodes held.
    pub closed spec fn count(&self) -> int {
        self.nodes@.len() as int
    }

    /// The key of the node at position `i` (positions follow insertion
    /// order).
    pub closed spec fn key_at(&self, i: int) -> u64 {
        self.nodes@[i].key
    }

    /// The point of the node at position `i`.
    pub closed spec fn point_at(&self, i: int) -> P {
        self.nodes@[i].point
    }

    /// One more than the highest level the node at position `i` belongs to.
    pub closed spec fn levels_at(&self, i: int) -> int {
        self.nodes@[i].links@.len() as int
    }

    /// The neighbour positions of node `i` at level `l`.
    pub closed spec fn nbrs(&self, i: int, l: int) -> Seq<usize> {
        self.nodes@[i].links@[l]@
    }

    /// The position search starts from.
    pub closed spec fn entry_spec(&self) -> int {
        self.entry as int
    }

    /// The highest level assigned to any node so far.
    pub closed spec fn max_level_spec(&self) -> int {
        self.max_level as int
    }

    /// The degree bound: most neighbours a node keeps per level.
    pub closed spec fn m_spec(&self) -> int {
        self.m as int
    }

    /// The breadth of the search run while inserting.
    pub closed spec fn ef_spec(&self) -> int {
        self.ef_construction as int
    }

    /// The level stream held.
    pub closed spec fn gen_spec(&self) -> LevelGen {
        self.gen
    }

    /// Node `b` lies within `k` hops of node `a` along level-`l` edges.
    pub open spec fn reaches(&self, a: int, l: int, b: int, k: nat) -> bool
        decreases k,
    {
        a == b || (k > 0 && exists|c: int|
            #[trigger] self.linked(c, l, b) && self.reaches(a, l, c, (k - 1) as nat))
    }

    /// Node `b` is reachable from node `a` along level-`l` edges.
    pub open spec fn reachable(&self, a: int, l: int, b: int) -> bool {
        exists|k: nat| self.reaches(a, l, b, k)
    }

    proof fn lemma_reachable_refl(&self, a: int, l: int)
        ensures
            self.reachable(a, l, a),
    {
        assert(self.reaches(a, l, a, 0));
    }

    proof fn lemma_reachable_step(&self, a: int, l: int, b: int, c: int)
        requires
            self.reachable(a, l, b),
            self.linked(b, l, c),
        ensures
            self.reachable(a, l, c),
    {
        let k = choose|k: nat| self.reaches(a, l, b, k);
        assert(self.reaches(a, l, c, k + 1));
    }

    /// Node `b` is a neighbour of node `a` at level `l`.
    pub open spec fn linked(&self, a: int, l: int, b: int) -> bool {
        &&& 0 <= a < self.count()
        &&& 0 <= l < self.levels_at(a)
        &&& in_list(self.nbrs(a, l), b)
    }

    /// Whether the index holds a node under key `k`.
    pub open spec fn has_key(&self, k: u64) -> bool {
        exists|i: int| 0 <= i < self.count() && (#[trigger] self.key_at(i)) == k
    }

    /// Every stored point shares `p`'s shape.
    pub open spec fn fits(&self, p: P) -> bool {
        forall|i: int| 0 <= i < self.count() ==> (#[trigger] self.point_at(i)).shape() == p.shape()
    }

    /// Some stored node carries this key, lies at this distance from the
    /// query, and has this shape.
    pub open spec fn backed(&self, q: P, e: (u64, P)) -> bool {
        exists|i: int|
            0 <= i < self.count() && e.0 == (#[trigger] self.key_at(i)) && q.dist(&e.1) == q.dist(
                &self.point_at(i),
            ) && e.1.shape() == self.point_at(i).shape()
    }

    /// Every edge target is a valid position other than its owner, neighbour
    /// lists hold no duplicates, adjacency is symmetric per level, levels are
    /// contiguous from zero and within the graph's top level, the entry point
    /// reaches the top level, keys are unique and all points share one shape.
    pub open spec fn graph_ok(&self) -> bool {
        &&& self.m_spec() >= 1
        &&& self.ef_spec() >= 1
        &&& self.max_level_spec() <= MAX_LEVEL as int
        &&& (self.count() == 0 ==> self.max_level_spec() == 0)
        &&& (self.count() > 0 ==> 0 <= self.entry_spec() < self.count() && self.levels_at(
            self.entry_spec(),
        ) == self.max_level_spec() + 1)
        &&& forall|a: int|
            0 <= a < self.count() ==> 1 <= (#[trigger] self.levels_at(a)) <= self.max_level_spec()
                + 1
        &&& forall|a: int, b: int|
            0 <= a < b < self.count() ==> (#[trigger] self.key_at(a)) != (#[trigger] self.key_at(
                b,
            ))
        &&& forall|a: int, b: int|
            0 <= a < self.count() && 0 <= b < self.count() ==> (#[trigger] self.point_at(
                a,
            )).shape() == (#[trigger] self.point_at(b)).shape()
        &&& forall|a: int, l: int, t: int|
            0 <= a < self.count() && 0 <= l < self.levels_at(a) && 0 <= t < self.nbrs(a, l).len()
                ==> 0 <= (#[trigger] self.nbrs(a, l)[t]) < self.count() && self.nbrs(a, l)[t] != a
        &&& forall|a: int, l: int, t1: int, t2: int|
            0 <= a < self.count() && 0 <= l < self.levels_at(a) && 0 <= t1 < t2 < self.nbrs(
                a,
                l,
            ).len() ==> (#[trigger] self.nbrs(a, l)[t1]) != (#[trigger] self.nbrs(a, l)[t2])
        &&& forall|a: int, l: int, b: int| #[trigger]
            self.linked(a, l, b) ==> self.linked(b, l, a)
    }

    /// Every neighbour list stays within the degree bound.
    pub open spec fn degree_all(&self) -> bool {
        forall|a: int, l: int|
            0 <= a < self.count() && 0 <= l < self.levels_at(a) ==> (#[trigger] self.nbrs(
                a,
                l,
            )).len() <= self.m_spec()
    }

    /// The well-formedness that construction establishes and every operation
    /// preserves.
    pub open spec fn wf(&self) -> bool {
        self.graph_ok() && self.degree_all()
    }

    /// Creates an index with the given degree bound, construction search
    /// breadth, and level promotion ratio, over rand's standard stream seeded
    /// with a fixed default seed. Degenerate parameters are rejected.
    pub fn new(m: usize, construction_expansion_factor: usize, level_num: u64, level_den: u64) -> (r:
        Result<Self, Error>)
        ensures
            (m >= 1 && construction_expansion_factor >= 1 && LevelGen::ratio_ok(
                level_num,
                level_den,
            )) <==> r is Ok,
            r matches Ok(ix) ==> ix.wf() && ix.count() == 0 && ix.m_spec() == m && ix.ef_spec()
                == construction_expansion_factor && ix.gen_spec().num_spec() == level_num
                && ix.gen_spec().den_spec() == level_den,
            r is Err ==> r == Err::<Self, Error>(Error::InvalidParameter),
    {
        if m == 0 || construction_expansion_factor == 0 {
            return Err(Error::InvalidParameter);
        }
        match LevelGen::new(0, level_num, level_den) {
            Ok(gen) => Ok(
                HnswIndex {
                    nodes: Vec::new(),
                    entry: 0,
                    max_level: 0,
                    m,
                    ef_construction: construction_expansion_factor,
                    gen,
                },
            ),
            Err(e) => Err(e),
        }
    }

    /// Creates an index over a caller-supplied random stream; the rest is as
    /// in `new`.
    pub fn with_rng(
        m: usize,
        construction_expansion_factor: usize,
        level_num: u64,
        level_den: u64,
        rng: rand::rngs::StdRng,
    ) -> (r: Result<Self, Error>)
        ensures
            (m >= 1 && construction_expansion_factor >= 1 && LevelGen::ratio_ok(
                level_num,
                level_den,
            )) <==> r is Ok,
            r matches Ok(ix) ==> ix.wf() && ix.count() == 0 && ix.m_spec() == m && ix.ef_spec()
                == construction_expansion_factor && ix.gen_spec().rng_spec() == rng
                && ix.gen_spec().num_spec() == level_num && ix.gen_spec().den_spec() == level_den,
            r is Err ==> r == Err::<Self, Error>(Error::InvalidParameter),
    {
        if m == 0 || construction_expansion_factor == 0 {
            return Err(Error::InvalidParameter);
        }
        match LevelGen::from_rng(rng, level_num, level_den) {
            Ok(gen) => Ok(
                HnswIndex {
                    nodes: Vec::new(),
                    entry: 0,
                    max_level: 0,
                    m,
                    ef_construction: construction_expansion_factor,
                    gen,
                },
            ),
            Err(e) => Err(e),
        }
    }

    /// Two indexes hold the same nodes, edges, entry point and parameters.
    pub open spec fn same_graph(&self, other: &Self) -> bool {
        &&& self.count() == other.count()
        &&& self.entry_spec() == other.entry_spec()
        &&& self.max_level_spec() == other.max_level_spec()
        &&& self.m_spec() == other.m_spec()
        &&& self.ef_spec() == other.ef_spec()
        &&& forall|i: int|
            0 <= i < self.count() ==> (#[trigger] self.key_at(i)) == other.key_at(i)
        &&& forall|i: int|
            0 <= i < self.count() ==> (#[trigger] self.point_at(i)) == other.point_at(i)
        &&& forall|i: int|
            0 <= i < self.count() ==> (#[trigger] self.levels_at(i)) == other.levels_at(i)
        &&& forall|i: int, l: int|
            0 <= i < self.count() && 0 <= l < self.levels_at(i) ==> (#[trigger] self.nbrs(i, l))
                == other.nbrs(i, l)
    }

    /// Well-formedness depends on the graph alone, not on the random stream.
    pub proof fn lemma_same_graph_wf(a: Self, b: Self)
        requires
            a.same_graph(&b),
            b.wf(),
        ensures
            a.wf(),
    {
        assert forall|i: int| 0 <= i < a.count() implies 1 <= (#[trigger] a.levels_at(i))
            <= a.max_level_spec() + 1 by {
            assert(a.levels_at(i) == b.levels_at(i));
        }
        assert forall|i: int, j: int| 0 <= i < j < a.count() implies (#[trigger] a.key_at(i)) != (
        #[trigger] a.key_at(j)) by {
            assert(a.key_at(i) == b.key_at(i) && a.key_at(j) == b.key_at(j));
        }
        assert forall|i: int, j: int|
            0 <= i < a.count() && 0 <= j < a.count() implies (#[trigger] a.point_at(i)).shape() == (
        #[trigger] a.point_at(j)).shape() by {
            assert(a.point_at(i) == b.point_at(i) && a.point_at(j) == b.point_at(j));
        }
        assert forall|i: int, l: int, t: int|
            0 <= i < a.count() && 0 <= l < a.levels_at(i) && 0 <= t < a.nbrs(i, l).len() implies 0
            <= (#[trigger] a.nbrs(i, l)[t]) < a.count() && a.nbrs(i, l)[t] != i by {
            assert(a.levels_at(i) == b.levels_at(i) && a.nbrs(i, l) == b.nbrs(i, l));
        }
        assert forall|i: int, l: int, t1: int, t2: int|
            0 <= i < a.count() && 0 <= l < a.levels_at(i) && 0 <= t1 < t2 < a.nbrs(
                i,
                l,
            ).len() implies (#[trigger] a.nbrs(i, l)[t1]) != (#[trigger] a.nbrs(i, l)[t2]) by {
            assert(a.levels_at(i) == b.levels_at(i) && a.nbrs(i, l) == b.nbrs(i, l));
        }
        assert forall|i: int, l: int, j: int| #[trigger] a.linked(i, l, j) implies a.linked(
            j,
            l,
            i,
        ) by {
            assert(a.levels_at(i) == b.levels_at(i) && a.nbrs(i, l) == b.nbrs(i, l));
            assert(b.linked(i, l, j));
            assert(b.linked(j, l, i));
            assert(a.levels_at(j) == b.levels_at(j) && a.nbrs(j, l) == b.nbrs(j, l));
        }
        assert forall|i: int, l: int|
            0 <= i < a.count() && 0 <= l < a.levels_at(i) implies (#[trigger] a.nbrs(i, l)).len()
            <= a.m_spec() by {
            assert(a.levels_at(i) == b.levels_at(i) && a.nbrs(i, l) == b.nbrs(i, l));
        }
    }

    /// Swaps in a new random stream; the ratio and the graph itself are
    /// untouched.
    pub fn set_rng(&mut self, rng: rand::rngs::StdRng)
        requires
            old(self).wf(),
        ensures
            final(self).wf(),
            final(self).same_graph(old(self)),
            final(self).gen_spec().rng_spec() == rng,
            final(self).gen_spec().num_spec() == old(self).gen_spec().num_spec(),
            final(self).gen_spec().den_spec() == old(self).gen_spec().den_spec(),
    {
        self.gen.set_rng(rng);
        proof {
            Self::lemma_same_graph_wf(*self, *old(self));
        }
    }

    /// Number of nodes held.
    pub fn len(&self) -> (r: usize)
        ensures
            r as int == self.count(),
    {
        self.nodes.len()
    }

    /// The keys adjacent to `key` at `level`, in list order, or `None` when
    /// no node holds `key` or the node does not reach `level`.
    pub fn neighbors(&self, key: u64, level: usize) -> (r: Option<Vec<u64>>)
        requires
            self.wf(),
        ensures
            match r {
                Some(v) => exists|i: int|
                    0 <= i < self.count() && (#[trigger] self.key_at(i)) == key && (level as int)
                        < self.levels_at(i) && v@.len() == self.nbrs(i, level as int).len()
                        && v@.len() <= self.m_spec() && (forall|t: int|
                        0 <= t < v@.len() ==> (#[trigger] v@[t]) == self.key_at(
                            self.nbrs(i, level as int)[t] as int,
                        )),
                None => !(exists|i: int|
                    0 <= i < self.count() && (#[trigger] self.key_at(i)) == key && (level as int)
                        < self.levels_at(i)),
            },
    {
        let n = self.nodes.len();
        let mut i: usize = 0;
        while i < n
            invariant
                i <= n,
                n == self.count(),
                self.wf(),
                forall|j: int| 0 <= j < i ==> (#[trigger] self.key_at(j)) != key,
            decreases n - i,
        {
            if self.nodes[i].key == key {
                if level >= self.nodes[i].links.len() {
                    proof {
                        assert forall|j: int|
                            0 <= j < self.count() && (#[trigger] self.key_at(j)) == key implies !((
                        level as int) < self.levels_at(j)) by {
                            if j < i {
                            } else if j > i as int {
                                assert(self.key_at(i as int) != self.key_at(j));
                            }
                        }
                    }
                    return None;
                }
                let list = &self.nodes[i].links[level];
                let mut v: Vec<u64> = Vec::new();
                let mut t: usize = 0;
                while t < list.len()
                    invariant
                        t <= list@.len(),
                        self.wf(),
                        i < self.count(),
                        (level as int) < self.levels_at(i as int),
                        list@ == self.nbrs(i as int, level as int),
                        v@.len() == t,
                        forall|u: int|
                            0 <= u < t ==> (#[trigger] v@[u]) == self.key_at(
                                self.nbrs(i as int, level as int)[u] as int,
                            ),
                    decreases list@.len() - t,
                {
                    let w = list[t];
                    assert(0 <= self.nbrs(i as int, level as int)[t as int] < self.count());
                    v.push(self.nodes[w].key);
                    t += 1;
                }
                proof {
                    assert(0 <= i < self.count() && self.key_at(i as int) == key && (level as int)
                        < self.levels_at(i as int) && v@.len() == self.nbrs(
                        i as int,
                        level as int,
                    ).len() && v@.len() <= self.m_spec());
                }
                return Some(v);
            }
            i += 1;
        }
        None
    }

    /// The distance from the query to the stored point at position `i`; by
    /// the shape invariant the computation cannot fail.
    fn dist_to(&self, query: &P, i: usize) -> (d: u64)
        requires
            (i as int) < self.count(),
            query.shape() == self.point_at(i as int).shape(),
        ensures
            d as int == query.dist(&self.point_at(i as int)),
    {
        match query.distance(&self.nodes[i].point) {
            Ok(d) => d,
            Err(_) => {
                proof {
                    assert(false);
                }
                0
            },
        }
    }

    /// Appends `b` to `a`'s level-`l` neighbour list; nothing else changes.
    fn push_link(&mut self, a: usize, l: usize, b: usize)
        requires
            (a as int) < old(self).count(),
            (l as int) < old(self).levels_at(a as int),
        ensures
            final(self).count() == old(self).count(),
            final(self).entry_spec() == old(self).entry_spec(),
            final(self).max_level_spec() == old(self).max_level_spec(),
            final(self).m_spec() == old(self).m_spec(),
            final(self).ef_spec() == old(self).ef_spec(),
            forall|i: int|
                0 <= i < old(self).count() ==> (#[trigger] final(self).key_at(i)) == old(
                    self,
                ).key_at(i),
            forall|i: int|
                0 <= i < old(self).count() ==> (#[trigger] final(self).point_at(i)) == old(
                    self,
                ).point_at(i),
            forall|i: int|
                0 <= i < old(self).count() ==> (#[trigger] final(self).levels_at(i)) == old(
                    self,
                ).levels_at(i),
            forall|i: int, l2: int|
                0 <= i < old(self).count() && 0 <= l2 < old(self).levels_at(i) && !(i == a as int
                    && l2 == l as int) ==> (#[trigger] final(self).nbrs(i, l2)) == old(self).nbrs(
                    i,
                    l2,
                ),
            final(self).nbrs(a as int, l as int) == old(self).nbrs(a as int, l as int).push(b),
    {
        let node = &mut self.nodes[a];
        let list = &mut node.links[l];
        list.push(b);
    }

    /// Removes position index `p` from `a`'s level-`l` neighbour list;
    /// nothing else changes.
    fn remove_link(&mut self, a: usize, l: usize, p: usize)
        requires
            (a as int) < old(self).count(),
            (l as int) < old(self).levels_at(a as int),
            (p as int) < old(self).nbrs(a as int, l as int).len(),
        ensures
            final(self).count() == old(self).count(),
            final(self).entry_spec() == old(self).entry_spec(),
            final(self).max_level_spec() == old(self).max_level_spec(),
            final(self).m_spec() == old(self).m_spec(),
            final(self).ef_spec() == old(self).ef_spec(),
            forall|i: int|
                0 <= i < old(self).count() ==> (#[trigger] final(self).key_at(i)) == old(
                    self,
                ).key_at(i),
            forall|i: int|
                0 <= i < old(self).count() ==> (#[trigger] final(self).point_at(i)) == old(
                    self,
                ).point_at(i),
            forall|i: int|
                0 <= i < old(self).count() ==> (#[trigger] final(self).levels_at(i)) == old(
                    self,
                ).levels_at(i),
            forall|i: int, l2: int|
                0 <= i < old(self).count() && 0 <= l2 < old(self).levels_at(i) && !(i == a as int
                    && l2 == l as int) ==> (#[trigger] final(self).nbrs(i, l2)) == old(self).nbrs(
                    i,
                    l2,
                ),
            final(self).nbrs(a as int, l as int) == old(self).nbrs(a as int, l as int).remove(
                p as int,
            ),
    {
        let node = &mut self.nodes[a];
        let list = &mut node.links[l];
        let _ = list.remove(p);
    }

    /// Adds the symmetric edge between `a` and `b` at level `l`.
    fn connect(&mut self, a: usize, b: usize, l: usize)
        requires
            old(self).graph_ok(),
            (a as int) < old(self).count(),
            (b as int) < old(self).count(),
            a != b,
            (l as int) < old(self).levels_at(a as int),
            (l as int) < old(self).levels_at(b as int),
            !old(self).linked(a as int, l as int, b as int),
        ensures
            final(self).graph_ok(),
            final(self).count() == old(self).count(),
            final(self).entry_spec() == old(self).entry_spec(),
            final(self).max_level_spec() == old(self).max_level_spec(),
            final(self).m_spec() == old(self).m_spec(),
            final(self).ef_spec() == old(self).ef_spec(),
            forall|i: int|
                0 <= i < old(self).count() ==> (#[trigger] final(self).key_at(i)) == old(
                    self,
                ).key_at(i),
            forall|i: int|
                0 <= i < old(self).count() ==> (#[trigger] final(self).point_at(i)) == old(
                    self,
                ).point_at(i),
            forall|i: int|
                0 <= i < old(self).count() ==> (#[trigger] final(self).levels_at(i)) == old(
                    self,
                ).levels_at(i),
            forall|i: int, l2: int|
                0 <= i < old(self).count() && 0 <= l2 < old(self).levels_at(i) && !(l2 == l as int
                    && (i == a as int || i == b as int)) ==> (#[trigger] final(self).nbrs(i, l2))
                    == old(self).nbrs(i, l2),
            final(self).nbrs(a as int, l as int) == old(self).nbrs(a as int, l as int).push(b),
            final(self).nbrs(b as int, l as int) == old(self).nbrs(b as int, l as int).push(a),
    {
        proof {
            assert(!old(self).linked(b as int, l as int, a as int));
            lemma_push_membership(old(self).nbrs(a as int, l as int), b);
            lemma_push_membership(old(self).nbrs(b as int, l as int), a);
        }
        self.push_link(a, l, b);
        self.push_link(b, l, a);
        proof {
            let pre = *old(self);
            let post = *self;
            assert(post.nbrs(a as int, l as int) == pre.nbrs(a as int, l as int).push(b));
            assert(post.nbrs(b as int, l as int) == pre.nbrs(b as int, l as int).push(a));
            assert forall|i: int, l2: int, t: int|
                0 <= i < post.count() && 0 <= l2 < post.levels_at(i) && 0 <= t < post.nbrs(
                    i,
                    l2,
                ).len() implies 0 <= (#[trigger] post.nbrs(i, l2)[t]) < post.count() && post.nbrs(
                i,
                l2,
            )[t] != i by {
                if l2 == l as int && i == a as int {
                    if t < pre.nbrs(i, l2).len() {
                        assert(post.nbrs(i, l2)[t] == pre.nbrs(i, l2)[t]);
                    } else {
                        assert(post.nbrs(i, l2)[t] == b);
                    }
                } else if l2 == l as int && i == b as int {
                    if t < pre.nbrs(i, l2).len() {
                        assert(post.nbrs(i, l2)[t] == pre.nbrs(i, l2)[t]);
                    } else {
                        assert(post.nbrs(i, l2)[t] == a);
                    }
                } else {
                    assert(post.nbrs(i, l2) == pre.nbrs(i, l2));
                }
            }
            assert forall|i: int, l2: int, t1: int, t2: int|
                0 <= i < post.count() && 0 <= l2 < post.levels_at(i) && 0 <= t1 < t2 < post.nbrs(
                    i,
                    l2,
                ).len() implies (#[trigger] post.nbrs(i, l2)[t1]) != (#[trigger] post.nbrs(
                i,
                l2,
            )[t2]) by {
                if l2 == l as int && (i == a as int || i == b as int) {
                    let s = pre.nbrs(i, l2);
                    if t2 < s.len() {
                        assert(post.nbrs(i, l2)[t1] == s[t1] && post.nbrs(i, l2)[t2] == s[t2]);
                    } else {
                        assert(t1 < s.len());
                        assert(post.nbrs(i, l2)[t1] == s[t1]);
                        assert(in_list(s, post.nbrs(i, l2)[t1] as int));
                        if i == a as int {
                            assert(post.nbrs(i, l2)[t2] == b);
                            assert(!in_list(s, b as int));
                        } else {
                            assert(post.nbrs(i, l2)[t2] == a);
                            assert(!in_list(s, a as int));
                        }
                    }
                } else {
                    assert(post.nbrs(i, l2) == pre.nbrs(i, l2));
                }
            }
            assert forall|i: int, l2: int, j: int| #[trigger] post.linked(i, l2, j) implies
                post.linked(j, l2, i) by {
                let ai = a as int;
                let bi = b as int;
                // what membership in a changed list means
                if l2 == l as int && i == ai {
                    assert(in_list(post.nbrs(i, l2), j) <==> (in_list(pre.nbrs(i, l2), j) || j
                        == bi));
                } else if l2 == l as int && i == bi {
                    assert(in_list(post.nbrs(i, l2), j) <==> (in_list(pre.nbrs(i, l2), j) || j
                        == ai));
                } else {
                    assert(post.nbrs(i, l2) == pre.nbrs(i, l2));
                }
                if l2 == l as int && i == ai && j == bi {
                    assert(in_list(post.nbrs(bi, l2), ai));
                } else if l2 == l as int && i == bi && j == ai {
                    assert(in_list(post.nbrs(ai, l2), bi));
                } else {
                    assert(pre.linked(i, l2, j));
                    assert(pre.linked(j, l2, i));
                    if l2 == l as int && j == ai {
                        assert(in_list(post.nbrs(j, l2), i));
                    } else if l2 == l as int && j == bi {
                        assert(in_list(post.nbrs(j, l2), i));
                    } else {
                        assert(post.nbrs(j, l2) == pre.nbrs(j, l2));
                    }
                }
            }
        }
    }

    /// Removes the symmetric edge between `v` and `d` at level `l`.
    fn disconnect(&mut self, v: usize, d: usize, l: usize)
        requires
            old(self).graph_ok(),
            (v as int) < old(self).count(),
            (d as int) < old(self).count(),
            v != d,
            (l as int) < old(self).levels_at(v as int),
            (l as int) < old(self).levels_at(d as int),
            old(self).linked(v as int, l as int, d as int),
            old(self).linked(d as int, l as int, v as int),
        ensures
            final(self).graph_ok(),
            final(self).count() == old(self).count(),
            final(self).entry_spec() == old(self).entry_spec(),
            final(self).max_level_spec() == old(self).max_level_spec(),
            final(self).m_spec() == old(self).m_spec(),
            final(self).ef_spec() == old(self).ef_spec(),
            forall|i: int|
                0 <= i < old(self).count() ==> (#[trigger] final(self).key_at(i)) == old(
                    self,
                ).key_at(i),
            forall|i: int|
                0 <= i < old(self).count() ==> (#[trigger] final(self).point_at(i)) == old(
                    self,
                ).point_at(i),
            forall|i: int|
                0 <= i < old(self).count() ==> (#[trigger] final(self).levels_at(i)) == old(
                    self,
                ).levels_at(i),
            forall|i: int, l2: int|
                0 <= i < old(self).count() && 0 <= l2 < old(self).levels_at(i) && !(l2 == l as int
                    && (i == v as int || i == d as int)) ==> (#[trigger] final(self).nbrs(i, l2))
                    == old(self).nbrs(i, l2),
            final(self).nbrs(v as int, l as int).len() == old(self).nbrs(
                v as int,
                l as int,
            ).len() - 1,
            final(self).nbrs(d as int, l as int).len() == old(self).nbrs(
                d as int,
                l as int,
            ).len() - 1,
            forall|x: int|
                #![trigger in_list(final(self).nbrs(v as int, l as int), x)]
                in_list(final(self).nbrs(v as int, l as int), x) <==> (in_list(
                    old(self).nbrs(v as int, l as int),
                    x,
                ) && x != d as int),
            forall|x: int|
                #![trigger in_list(final(self).nbrs(d as int, l as int), x)]
                in_list(final(self).nbrs(d as int, l as int), x) <==> (in_list(
                    old(self).nbrs(d as int, l as int),
                    x,
                ) && x != v as int),
    {
        let ghost pre = *old(self);
        let p1 = match find_pos(&self.nodes[v].links[l], d) {
            Some(p) => p,
            None => {
                proof {
                    assert(false);
                }
                0
            },
        };
        proof {
            lemma_remove_membership(pre.nbrs(v as int, l as int), p1 as int);
        }
        self.remove_link(v, l, p1);
        proof {
            assert(self.count() == pre.count());
            assert(self.levels_at(d as int) == pre.levels_at(d as int));
            assert(self.nbrs(d as int, l as int) == pre.nbrs(d as int, l as int));
        }
        let p2 = match find_pos(&self.nodes[d].links[l], v) {
            Some(p) => p,
            None => {
                proof {
                    assert(false);
                }
                0
            },
        };
        proof {
            lemma_remove_membership(pre.nbrs(d as int, l as int), p2 as int);
        }
        self.remove_link(d, l, p2);
        proof {
            let post = *self;
            let vi = v as int;
            let di = d as int;
            assert(post.nbrs(vi, l as int) == pre.nbrs(vi, l as int).remove(p1 as int));
            assert(post.nbrs(di, l as int) == pre.nbrs(di, l as int).remove(p2 as int));
            assert forall|i: int, l2: int, t: int|
                0 <= i < post.count() && 0 <= l2 < post.levels_at(i) && 0 <= t < post.nbrs(
                    i,
                    l2,
                ).len() implies 0 <= (#[trigger] post.nbrs(i, l2)[t]) < post.count() && post.nbrs(
                i,
                l2,
            )[t] != i by {
                if l2 == l as int && (i == vi || i == di) {
                    assert(in_list(post.nbrs(i, l2), post.nbrs(i, l2)[t] as int));
                    assert(in_list(pre.nbrs(i, l2), post.nbrs(i, l2)[t] as int));
                    let u = choose|u: int|
                        0 <= u < pre.nbrs(i, l2).len() && (#[trigger] pre.nbrs(i, l2)[u])
                            == post.nbrs(i, l2)[t];
                } else {
                    assert(post.nbrs(i, l2) == pre.nbrs(i, l2));
                }
            }
            assert forall|i: int, l2: int, t1: int, t2: int|
                0 <= i < post.count() && 0 <= l2 < post.levels_at(i) && 0 <= t1 < t2 < post.nbrs(
                    i,
                    l2,
                ).len() implies (#[trigger] post.nbrs(i, l2)[t1]) != (#[trigger] post.nbrs(
                i,
                l2,
            )[t2]) by {
                if l2 == l as int && (i == vi || i == di) {
                } else {
                    assert(post.nbrs(i, l2) == pre.nbrs(i, l2));
                }
            }
            assert forall|i: int, l2: int, j: int| #[trigger] post.linked(i, l2, j) implies
                post.linked(j, l2, i) by {
                // membership in the graph only shrank
                if l2 == l as int && i == vi {
                    assert(in_list(pre.nbrs(i, l2), j) && j != di);
                } else if l2 == l as int && i == di {
                    assert(in_list(pre.nbrs(i, l2), j) && j != vi);
                } else {
                    assert(post.nbrs(i, l2) == pre.nbrs(i, l2));
                }
                assert(pre.linked(i, l2, j));
                assert(pre.linked(j, l2, i));
                if l2 == l as int && j == vi {
                    assert(i != di);
                    assert(in_list(post.nbrs(j, l2), i));
                } else if l2 == l as int && j == di {
                    assert(i != vi);
                    assert(in_list(post.nbrs(j, l2), i));
                } else {
                    assert(post.nbrs(j, l2) == pre.nbrs(j, l2));
                }
            }
        }
    }

    /// Restores the degree bound at `(v, l)` after one link was added there:
    /// when the list exceeds the bound, the neighbour farthest from `v`'s own
    /// point loses its symmetric edge to `v`. Edges are only ever removed.
    fn prune(&mut self, v: usize, l: usize)
        requires
            old(self).graph_ok(),
            (v as int) < old(self).count(),
            (l as int) < old(self).levels_at(v as int),
            old(self).nbrs(v as int, l as int).len() <= old(self).m_spec() + 1,
            forall|i: int, l2: int|
                0 <= i < old(self).count() && 0 <= l2 < old(self).levels_at(i) && !(i == v as int
                    && l2 == l as int) ==> (#[trigger] old(self).nbrs(i, l2)).len() <= old(
                    self,
                ).m_spec(),
        ensures
            final(self).graph_ok(),
            final(self).degree_all(),
            final(self).count() == old(self).count(),
            final(self).entry_spec() == old(self).entry_spec(),
            final(self).max_level_spec() == old(self).max_level_spec(),
            final(self).m_spec() == old(self).m_spec(),
            final(self).ef_spec() == old(self).ef_spec(),
            forall|i: int|
                0 <= i < old(self).count() ==> (#[trigger] final(self).key_at(i)) == old(
                    self,
                ).key_at(i),
            forall|i: int|
                0 <= i < old(self).count() ==> (#[trigger] final(self).point_at(i)) == old(
                    self,
                ).point_at(i),
            forall|i: int|
                0 <= i < old(self).count() ==> (#[trigger] final(self).levels_at(i)) == old(
                    self,
                ).levels_at(i),
            forall|i: int, l2: int|
                0 <= i < old(self).count() && 0 <= l2 < old(self).levels_at(i) && l2 != l as int
                    ==> (#[trigger] final(self).nbrs(i, l2)) == old(self).nbrs(i, l2),
            forall|i: int, l2: int|
                0 <= i < old(self).count() && 0 <= l2 < old(self).levels_at(i) ==> (
                #[trigger] final(self).nbrs(i, l2)).len() <= old(self).nbrs(i, l2).len(),
            forall|i: int, l2: int, x: int|
                #![trigger in_list(final(self).nbrs(i, l2), x)]
                in_list(final(self).nbrs(i, l2), x) && 0 <= i < old(self).count() && 0 <= l2 < old(
                    self,
                ).levels_at(i) ==> in_list(old(self).nbrs(i, l2), x),
    {
        let ghost pre = *old(self);
        let len = self.nodes[v].links[l].len();
        if len <= self.m {
            return ;
        }
        // find the neighbour farthest from v's own point
        let mut worst_t: usize = 0;
        let first = self.nodes[v].links[l][0];
        proof {
            assert(0 <= pre.nbrs(v as int, l as int)[0] < pre.count());
            assert(pre.point_at(v as int).shape() == pre.point_at(
                pre.nbrs(v as int, l as int)[0] as int,
            ).shape());
        }
        let mut worst_d: u64 = self.dist_to(&self.nodes[v].point, first);
        let mut t: usize = 1;
        while t < len
            invariant
                *self == pre,
                pre.graph_ok(),
                (v as int) < pre.count(),
                (l as int) < pre.levels_at(v as int),
                len == pre.nbrs(v as int, l as int).len(),
                1 <= t <= len,
                (worst_t as int) < t,
                worst_d as int == pre.point_at(v as int).dist(
                    &pre.point_at(pre.nbrs(v as int, l as int)[worst_t as int] as int),
                ),
            decreases len - t,
        {
            let w = self.nodes[v].links[l][t];
            proof {
                assert(0 <= pre.nbrs(v as int, l as int)[t as int] < pre.count());
                assert(pre.point_at(v as int).shape() == pre.point_at(
                    pre.nbrs(v as int, l as int)[t as int] as int,
                ).shape());
            }
            let dw = self.dist_to(&self.nodes[v].point, w);
            if dw > worst_d {
                worst_t = t;
                worst_d = dw;
            }
            t += 1;
        }
        let dropped = self.nodes[v].links[l][worst_t];
        proof {
            assert(in_list(pre.nbrs(v as int, l as int), dropped as int));
            assert(pre.linked(v as int, l as int, dropped as int));
            assert(pre.linked(dropped as int, l as int, v as int));
        }
        self.disconnect(v, dropped, l);
    }

    /// Greedy bounded search restricted to one level: starting from `entry`,
    /// repeatedly expands the unvisited candidate closest to the query, until
    /// the `ef` best positions found so far can no longer improve. Returns at
    /// most `ef` positions, ascending by distance to the query, each reaching
    /// `level`.
    fn search_layer(&self, entry: usize, query: &P, ef: usize, level: usize) -> (out: Vec<Ranked>)
        requires
            self.wf(),
            self.count() > 0,
            (entry as int) < self.count(),
            (level as int) < self.levels_at(entry as int),
            ef >= 1,
            self.fits(*query),
        ensures
            1 <= out@.len() <= ef,
            sorted_ranked(out@),
            distinct_ranked(out@),
            forall|t: int|
                0 <= t < out@.len() ==> ((#[trigger] out@[t]).0 as int) < self.count() && (
                level as int) < self.levels_at(out@[t].0 as int) && out@[t].1 as int == query.dist(
                    &self.point_at(out@[t].0 as int),
                ) && self.reachable(entry as int, level as int, out@[t].0 as int),
            // the best returned candidate is never worse than the seed
            out@[0].1 as int <= query.dist(&self.point_at(entry as int)),
            // a result list that never filled up is closed under level edges:
            // the search was exhaustive over the entry's component
            out@.len() < ef ==> forall|t: int, u: int|
                #![trigger self.nbrs(out@[t].0 as int, level as int)[u]]
                0 <= t < out@.len() && 0 <= u < self.nbrs(out@[t].0 as int, level as int).len()
                    ==> holds_pos(out@, self.nbrs(out@[t].0 as int, level as int)[u] as int),
    {
        let n = self.nodes.len();
        let mut visited: Vec<bool> = Vec::new();
        let mut i: usize = 0;
        while i < n
            invariant
                i <= n,
                visited@.len() == i,
                forall|j: int| 0 <= j < i ==> !(#[trigger] visited@[j]),
            decreases n - i,
        {
            visited.push(false);
            i += 1;
        }
        proof {
            lemma_count_true_bound(visited@);
            lemma_count_true_update(visited@, entry as int);
        }
        let slot = &mut visited[entry];
        *slot = true;
        proof {
            lemma_count_true_bound(visited@);
            self.lemma_reachable_refl(entry as int, level as int);
        }
        let entry_d = self.dist_to(query, entry);
        let mut frontier: Vec<Ranked> = Vec::new();
        frontier.push((entry, entry_d));
        let mut results: Vec<Ranked> = Vec::new();
        results.push((entry, entry_d));
        proof {
            assert(results@[0].0 == entry);
            assert(frontier@[0].0 == entry);
            assert(holds_pos(results@, entry as int));
            assert(holds_pos(frontier@, entry as int));
        }
        while frontier.len() > 0
            invariant
                self.wf(),
                self.fits(*query),
                ef >= 1,
                n == self.count(),
                visited@.len() == n,
                0 <= count_true(visited@) <= n,
                1 <= results@.len() <= ef,
                sorted_ranked(results@),
                distinct_ranked(results@),
                distinct_ranked(frontier@),
                results@[0].1 <= entry_d,
                forall|t: int|
                    0 <= t < results@.len() ==> ((#[trigger] results@[t]).0 as int) < n && (
                    level as int) < self.levels_at(results@[t].0 as int) && results@[t].1 as int
                        == query.dist(&self.point_at(results@[t].0 as int)) && visited@[results@[t].0 as int]
                        && self.reachable(entry as int, level as int, results@[t].0 as int),
                forall|t: int|
                    0 <= t < frontier@.len() ==> ((#[trigger] frontier@[t]).0 as int) < n && (
                    level as int) < self.levels_at(frontier@[t].0 as int) && frontier@[t].1 as int
                        == query.dist(&self.point_at(frontier@[t].0 as int)) && visited@[frontier@[t].0 as int],
                forall|j: int|
                    0 <= j < n && (#[trigger] visited@[j]) ==> (level as int) < self.levels_at(j)
                        && self.reachable(entry as int, level as int, j),
                results@.len() < ef ==> (forall|j: int|
                    0 <= j < n && (#[trigger] visited@[j]) ==> holds_pos(results@, j)),
                results@.len() < ef ==> (forall|j: int, u2: int|
                    #![trigger visited@[j], self.nbrs(j, level as int)[u2]]
                    0 <= j < n && visited@[j] && !holds_pos(frontier@, j) && 0 <= u2 < self.nbrs(
                        j,
                        level as int,
                    ).len() ==> visited@[self.nbrs(j, level as int)[u2] as int]),
            ensures
                1 <= results@.len() <= ef,
                sorted_ranked(results@),
                distinct_ranked(results@),
                results@[0].1 <= entry_d,
                frontier@.len() == 0 || results@.len() >= ef,
                forall|t: int|
                    0 <= t < results@.len() ==> ((#[trigger] results@[t]).0 as int) < n && (
                    level as int) < self.levels_at(results@[t].0 as int) && results@[t].1 as int
                        == query.dist(&self.point_at(results@[t].0 as int)) && visited@[results@[t].0 as int]
                        && self.reachable(entry as int, level as int, results@[t].0 as int),
                results@.len() < ef ==> (forall|j: int|
                    0 <= j < n && (#[trigger] visited@[j]) ==> holds_pos(results@, j)),
                results@.len() < ef ==> (forall|j: int, u2: int|
                    #![trigger visited@[j], self.nbrs(j, level as int)[u2]]
                    0 <= j < n && visited@[j] && !holds_pos(frontier@, j) && 0 <= u2 < self.nbrs(
                        j,
                        level as int,
                    ).len() ==> visited@[self.nbrs(j, level as int)[u2] as int]),
            decreases frontier@.len() + n - count_true(visited@),
        {
            // pop the frontier member closest to the query (first of the ties)
            let mut bi: usize = 0;
            let mut t: usize = 1;
            while t < frontier.len()
                invariant
                    frontier@.len() > 0,
                    1 <= t <= frontier@.len(),
                    (bi as int) < t,
                    forall|u: int| 0 <= u < t ==> frontier@[bi as int].1 <= (#[trigger] frontier@[u]).1,
                decreases frontier@.len() - t,
            {
                if frontier[t].1 < frontier[bi].1 {
                    bi = t;
                }
                t += 1;
            }
            let ghost frontier_before = frontier@;
            let pair = frontier.remove(bi);
            let cur = pair.0;
            let dcur = pair.1;
            proof {
                assert(frontier_before[bi as int] == pair);
                assert forall|u: int| 0 <= u < frontier@.len() implies (#[trigger] frontier@[u])
                    == frontier_before[if u < bi as int {
                    u
                } else {
                    u + 1
                }] by {}
                assert forall|t1: int, t2: int| 0 <= t1 < t2 < frontier@.len() implies (
                #[trigger] frontier@[t1]).0 != (#[trigger] frontier@[t2]).0 by {
                    let u1: int = if t1 < bi as int {
                        t1
                    } else {
                        t1 + 1
                    };
                    let u2: int = if t2 < bi as int {
                        t2
                    } else {
                        t2 + 1
                    };
                    assert(frontier@[t1] == frontier_before[u1] && frontier@[t2]
                        == frontier_before[u2]);
                }
            }
            // stopping rule: the best remaining candidate cannot improve a
            // full result list
            if results.len() >= ef && dcur >= results[results.len() - 1].1 {
                break ;
            }
            proof {
                // any visited node out of the frontier now, other than cur,
                // was out of it before the pop as well
                assert forall|j: int, u2: int|
                    #![trigger visited@[j], self.nbrs(j, level as int)[u2]]
                    results@.len() < ef && 0 <= j < n && visited@[j] && !holds_pos(frontier@, j)
                    && j != cur as int && 0 <= u2 < self.nbrs(j, level as int).len() implies
                    visited@[self.nbrs(j, level as int)[u2] as int] by {
                    if holds_pos(frontier_before, j) {
                        let t0 = choose|t0: int|
                            0 <= t0 < frontier_before.len() && (#[trigger] frontier_before[t0]).0
                                == j;
                        if t0 == bi as int {
                            assert(j == cur as int);
                        } else if t0 < bi as int {
                            assert(frontier@[t0].0 == j);
                        } else {
                            assert(frontier@[t0 - 1].0 == j);
                        }
                        assert(false);
                    }
                }
            }
            // expand cur's neighbours at this level
            let ghost measure_start = frontier@.len() + n - count_true(visited@);
            let conns = &self.nodes[cur].links[level];
            let mut u: usize = 0;
            while u < conns.len()
                invariant
                    self.wf(),
                    self.fits(*query),
                    ef >= 1,
                    n == self.count(),
                    (cur as int) < n,
                    (level as int) < self.levels_at(cur as int),
                    visited@[cur as int],
                    conns@ == self.nbrs(cur as int, level as int),
                    u <= conns@.len(),
                    visited@.len() == n,
                    0 <= count_true(visited@) <= n,
                    frontier@.len() + n - count_true(visited@) == measure_start,
                    1 <= results@.len() <= ef,
                    sorted_ranked(results@),
                    distinct_ranked(results@),
                    distinct_ranked(frontier@),
                    results@[0].1 <= entry_d,
                    forall|t2: int|
                        0 <= t2 < results@.len() ==> ((#[trigger] results@[t2]).0 as int) < n && (
                        level as int) < self.levels_at(results@[t2].0 as int) && results@[t2].1 as int
                            == query.dist(&self.point_at(results@[t2].0 as int)) && visited@[results@[t2].0 as int]
                            && self.reachable(entry as int, level as int, results@[t2].0 as int),
                    forall|t2: int|
                        0 <= t2 < frontier@.len() ==> ((#[trigger] frontier@[t2]).0 as int) < n && (
                        level as int) < self.levels_at(frontier@[t2].0 as int) && frontier@[t2].1 as int
                            == query.dist(&self.point_at(frontier@[t2].0 as int)) && visited@[frontier@[t2].0 as int],
                    forall|j: int|
                        0 <= j < n && (#[trigger] visited@[j]) ==> (level as int) < self.levels_at(
                            j,
                        ) && self.reachable(entry as int, level as int, j),
                    forall|u2: int| 0 <= u2 < u ==> visited@[(#[trigger] conns@[u2]) as int],
                    results@.len() < ef ==> (forall|j: int|
                        0 <= j < n && (#[trigger] visited@[j]) ==> holds_pos(results@, j)),
                    results@.len() < ef ==> (forall|j: int, u2: int|
                        #![trigger visited@[j], self.nbrs(j, level as int)[u2]]
                        0 <= j < n && visited@[j] && !holds_pos(frontier@, j) && j != cur as int
                            && 0 <= u2 < self.nbrs(j, level as int).len() ==> visited@[self.nbrs(
                            j,
                            level as int,
                        )[u2] as int]),
                decreases conns@.len() - u,
            {
                let nb = conns[u];
                proof {
                    assert(in_list(self.nbrs(cur as int, level as int), nb as int));
                    assert(self.linked(cur as int, level as int, nb as int));
                    assert(self.linked(nb as int, level as int, cur as int));
                    assert(0 <= (level as int) < self.levels_at(nb as int));
                    assert((nb as int) < n);
                }
                if !visited[nb] {
                    proof {
                        assert forall|t2: int| 0 <= t2 < results@.len() implies (
                        #[trigger] results@[t2]).0 != nb by {
                            assert(visited@[results@[t2].0 as int]);
                        }
                        assert forall|t2: int| 0 <= t2 < frontier@.len() implies (
                        #[trigger] frontier@[t2]).0 != nb by {
                            assert(visited@[frontier@[t2].0 as int]);
                        }
                        assert(visited@[cur as int]);
                        assert(self.reachable(entry as int, level as int, cur as int));
                        self.lemma_reachable_step(
                            entry as int,
                            level as int,
                            cur as int,
                            nb as int,
                        );
                        lemma_count_true_update(visited@, nb as int);
                    }
                    let vslot = &mut visited[nb];
                    *vslot = true;
                    proof {
                        lemma_count_true_bound(visited@);
                    }
                    let dnb = self.dist_to(query, nb);
                    let ghost frontier_pre = frontier@;
                    frontier.push((nb, dnb));
                    proof {
                        assert(frontier@[frontier_pre.len() as int].0 == nb);
                        assert(holds_pos(frontier@, nb as int));
                        assert forall|j: int|
                            holds_pos(frontier_pre, j) implies holds_pos(frontier@, j) by {
                            let t0 = choose|t0: int|
                                0 <= t0 < frontier_pre.len() && (#[trigger] frontier_pre[t0]).0
                                    == j;
                            assert(frontier@[t0].0 == j);
                        }
                    }
                    if results.len() < ef || dnb < results[results.len() - 1].1 {
                        let ghost old_results = results@;
                        insert_ranked(&mut results, nb, dnb, ef);
                        proof {
                            if old_results.len() < ef {
                                let p = choose|p: int|
                                    0 <= p <= old_results.len() && results@ == old_results.insert(
                                        p,
                                        (nb, dnb),
                                    );
                                assert(results@[p] == (nb, dnb));
                                assert(holds_pos(results@, nb as int));
                                assert forall|j: int|
                                    0 <= j < n && (#[trigger] visited@[j]) && results@.len() < ef
                                    implies holds_pos(results@, j) by {
                                    if j != nb as int {
                                        assert(holds_pos(old_results, j));
                                        let t0 = choose|t0: int|
                                            0 <= t0 < old_results.len() && (
                                            #[trigger] old_results[t0]).0 == j;
                                        if t0 < p {
                                            assert(results@[t0].0 == j);
                                        } else {
                                            assert(results@[t0 + 1].0 == j);
                                        }
                                    }
                                }
                            }
                        }
                    }
                }
                u += 1;
            }
            proof {
                // cur's whole neighbour list is visited now, so the closure
                // holds again for every visited node out of the frontier
                assert forall|j: int, u2: int|
                    #![trigger visited@[j], self.nbrs(j, level as int)[u2]]
                    results@.len() < ef && 0 <= j < n && visited@[j] && !holds_pos(frontier@, j)
                    && 0 <= u2 < self.nbrs(j, level as int).len() implies visited@[self.nbrs(
                    j,
                    level as int,
                )[u2] as int] by {
                    if j == cur as int {
                        assert(visited@[conns@[u2] as int]);
                    }
                }
            }
        }
        proof {
            if results@.len() < ef {
                assert(frontier@.len() == 0);
                assert forall|t: int, u: int|
                    #![trigger self.nbrs(results@[t].0 as int, level as int)[u]]
                    0 <= t < results@.len() && 0 <= u < self.nbrs(
                        results@[t].0 as int,
                        level as int,
                    ).len() implies holds_pos(
                    results@,
                    self.nbrs(results@[t].0 as int, level as int)[u] as int,
                ) by {
                    let j = results@[t].0 as int;
                    assert(visited@[j]);
                    assert(!holds_pos(frontier@, j));
                    assert(visited@[self.nbrs(j, level as int)[u] as int]);
                    assert(holds_pos(results@, self.nbrs(j, level as int)[u] as int));
                }
            }
        }
        results
    }

    /// Inserts a new node: the level is drawn from the seeded stream, each
    /// layer from the top of the graph down is searched for the node's
    /// nearest neighbours, and the node is linked symmetrically to the
    /// closest of them, pruning any neighbour list that would exceed the
    /// degree bound. A held key is rejected with `DuplicateKey`, a point of
    /// another shape with `DimensionMismatch`; a rejected insert changes
    /// nothing.
    #[verifier::loop_isolation(false)]
    pub fn insert(&mut self, key: u64, point: P) -> (r: Result<(), Error>)
        requires
            old(self).wf(),
        ensures
            final(self).wf(),
            (r == Err::<(), Error>(Error::DuplicateKey)) <==> old(self).has_key(key),
            r is Err ==> *final(self) == *old(self),
            (!old(self).has_key(key) && old(self).fits(point)) <==> r is Ok,
            !old(self).has_key(key) && !old(self).fits(point) ==> r == Err::<(), Error>(
                Error::DimensionMismatch,
            ),
            r is Ok ==> final(self).count() == old(self).count() + 1 && final(self).key_at(
                old(self).count(),
            ) == key && final(self).point_at(old(self).count()) == point && final(self).has_key(key)
                && (forall|i: int|
                0 <= i < old(self).count() ==> (#[trigger] final(self).key_at(i)) == old(
                    self,
                ).key_at(i)) && (forall|i: int|
                0 <= i < old(self).count() ==> (#[trigger] final(self).point_at(i)) == old(
                    self,
                ).point_at(i)),
            // the graph's top level never sinks, and nodes keep their levels
            r is Ok ==> final(self).max_level_spec() >= old(self).max_level_spec(),
            r is Ok ==> forall|i: int|
                0 <= i < old(self).count() ==> (#[trigger] final(self).levels_at(i)) == old(
                    self,
                ).levels_at(i),
            // a level above the old top makes the new node the entry point;
            // otherwise the entry point stays
            r is Ok && old(self).count() > 0 ==> final(self).entry_spec() == (
            if final(self).max_level_spec() > old(self).max_level_spec() {
                old(self).count()
            } else {
                old(self).entry_spec()
            }),
            r is Ok && old(self).count() == 0 ==> final(self).entry_spec() == 0,
            // existing nodes gain edges only towards the new node
            r is Ok ==> forall|i: int, l: int, x: int|
                #![trigger in_list(final(self).nbrs(i, l), x)]
                0 <= i < old(self).count() && 0 <= l < old(self).levels_at(i) && in_list(
                    final(self).nbrs(i, l),
                    x,
                ) ==> in_list(old(self).nbrs(i, l), x) || x == old(self).count(),
            // on the layers created above the old top, the new node stands
            // alone and unlinked
            r is Ok ==> forall|l: int|
                old(self).max_level_spec() < l < final(self).levels_at(old(self).count()) ==> (
                #[trigger] final(self).nbrs(old(self).count(), l)).len() == 0,
    {
        let n = self.nodes.len();
        // a held key is rejected before anything is touched
        let mut i: usize = 0;
        while i < n
            invariant
                *self == *old(self),
                n == self.count(),
                i <= n,
                forall|j: int| 0 <= j < i ==> (#[trigger] self.key_at(j)) != key,
            decreases n - i,
        {
            if self.nodes[i].key == key {
                proof {
                    assert(self.key_at(i as int) == key);
                }
                return Err(Error::DuplicateKey);
            }
            i += 1;
        }
        // a point of another shape is rejected before anything is touched
        if n > 0 {
            let e = self.entry;
            match point.distance(&self.nodes[e].point) {
                Ok(_) => {
                    proof {
                        assert forall|j: int| 0 <= j < self.count() implies (
                        #[trigger] self.point_at(j)).shape() == point.shape() by {
                            assert(self.point_at(j).shape() == self.point_at(e as int).shape());
                        }
                    }
                },
                Err(_) => {
                    proof {
                        assert(self.point_at(e as int).shape() != point.shape());
                    }
                    return Err(Error::DimensionMismatch);
                },
            }
        }
        // one stream step per insert
        let lvl = self.gen.next_level();
        proof {
            Self::lemma_same_graph_wf(*self, *old(self));
            assert forall|j: int| 0 <= j < self.count() implies (#[trigger] self.point_at(
                j,
            )).shape() == point.shape() by {
                assert(self.point_at(j) == old(self).point_at(j));
            }
            assert forall|j: int| 0 <= j < self.count() implies (#[trigger] self.key_at(j))
                != key by {
                assert(self.key_at(j) == old(self).key_at(j));
            }
        }
        // the node's per-level lists, empty, for levels 0..=lvl
        let mut links: Vec<Vec<usize>> = Vec::new();
        while links.len() < lvl + 1
            invariant
                lvl <= MAX_LEVEL,
                links@.len() <= lvl + 1,
                forall|j: int| 0 <= j < links@.len() ==> (#[trigger] links@[j])@.len() == 0,
            decreases lvl + 1 - links@.len(),
        {
            links.push(Vec::new());
        }
        if n == 0 {
            // the first node: sole resident of every layer, the entry point
            self.nodes.push(Node { key, point, links });
            self.entry = 0;
            self.max_level = lvl;
            proof {
                assert(self.count() == 1);
                assert(self.levels_at(0) == lvl + 1);
                assert forall|a: int, l2: int, b: int| #[trigger]
                    self.linked(a, l2, b) implies self.linked(b, l2, a) by {
                    assert(self.nbrs(a, l2).len() == 0);
                }
                assert(self.key_at(0) == key);
            }
            return Ok(());
        }
        let ghost base = *self;
        // descend from the top of the graph, collecting this node's nearest
        // neighbours for every level it will occupy
        let prev_max = self.max_level;
        let top = if lvl < prev_max {
            lvl
        } else {
            prev_max
        };
        let mut cur = self.entry;
        let mut sels: Vec<Vec<usize>> = Vec::new();
        let mut l: usize = top + 1;
        while l > 0
            invariant
                *self == base,
                base.wf(),
                n == self.count(),
                n > 0,
                self.fits(point),
                top <= self.max_level_spec(),
                l <= top + 1,
                sels@.len() == top + 1 - l,
                (cur as int) < n,
                l as int <= self.levels_at(cur as int),
                self.m_spec() >= 1,
                forall|t: int|
                    0 <= t < sels@.len() ==> (#[trigger] sels@[t])@.len() <= self.m_spec(),
                forall|t: int, u: int|
                    0 <= t < sels@.len() && 0 <= u < sels@[t]@.len() ==> ((
                    #[trigger] sels@[t]@[u]) as int) < n && (top - t) < self.levels_at(
                        sels@[t]@[u] as int,
                    ),
                forall|t: int, u1: int, u2: int|
                    0 <= t < sels@.len() && 0 <= u1 < u2 < sels@[t]@.len() ==> (
                    #[trigger] sels@[t]@[u1]) != (#[trigger] sels@[t]@[u2]),
            decreases l,
        {
            l -= 1;
            let found = self.search_layer(cur, &point, self.ef_construction, l);
            cur = found[0].0;
            let cap = if self.m < found.len() {
                self.m
            } else {
                found.len()
            };
            let mut s: Vec<usize> = Vec::new();
            let mut u: usize = 0;
            while u < cap
                invariant
                    u <= cap,
                    cap <= found@.len(),
                    cap <= self.m_spec(),
                    distinct_ranked(found@),
                    forall|t2: int|
                        0 <= t2 < found@.len() ==> ((#[trigger] found@[t2]).0 as int) < n && (
                        l as int) < self.levels_at(found@[t2].0 as int),
                    n == self.count(),
                    *self == base,
                    s@.len() == u,
                    forall|u2: int| 0 <= u2 < u ==> (#[trigger] s@[u2]) == found@[u2].0,
                decreases cap - u,
            {
                s.push(found[u].0);
                u += 1;
            }
            sels.push(s);
            proof {
                assert forall|t: int, u1: int, u2: int|
                    0 <= t < sels@.len() && 0 <= u1 < u2 < sels@[t]@.len() implies (
                #[trigger] sels@[t]@[u1]) != (#[trigger] sels@[t]@[u2]) by {
                    if t < sels@.len() - 1 {
                    } else {
                        assert(sels@[t]@[u1] == found@[u1].0 && sels@[t]@[u2] == found@[u2].0);
                    }
                }
            }
        }
        // the node joins the arena; a level above the old top makes it the
        // new entry point
        let new_idx = self.nodes.len();
        self.nodes.push(Node { key, point, links });
        if lvl > prev_max {
            self.max_level = lvl;
            self.entry = new_idx;
        }
        proof {
            let post = *self;
            assert(post.count() == n + 1);
            assert(post.levels_at(n as int) == lvl + 1);
            assert(forall|j: int|
                0 <= j < n ==> (#[trigger] post.key_at(j)) == base.key_at(j) && post.point_at(j)
                    == base.point_at(j) && post.levels_at(j) == base.levels_at(j));
            assert(forall|j: int, l2: int|
                0 <= j < n && 0 <= l2 < base.levels_at(j) ==> (#[trigger] post.nbrs(j, l2))
                    == base.nbrs(j, l2));
            assert forall|a: int, l2: int, t: int|
                0 <= a < post.count() && 0 <= l2 < post.levels_at(a) && 0 <= t < post.nbrs(
                    a,
                    l2,
                ).len() implies 0 <= (#[trigger] post.nbrs(a, l2)[t]) < post.count() && post.nbrs(
                a,
                l2,
            )[t] != a by {
                if a < n {
                    assert(post.nbrs(a, l2) == base.nbrs(a, l2));
                    assert(0 <= base.nbrs(a, l2)[t] < n);
                } else {
                    assert(post.nbrs(a, l2).len() == 0);
                }
            }
            assert forall|a: int, l2: int, t1: int, t2: int|
                0 <= a < post.count() && 0 <= l2 < post.levels_at(a) && 0 <= t1 < t2 < post.nbrs(
                    a,
                    l2,
                ).len() implies (#[trigger] post.nbrs(a, l2)[t1]) != (#[trigger] post.nbrs(
                a,
                l2,
            )[t2]) by {
                if a < n {
                    assert(post.nbrs(a, l2) == base.nbrs(a, l2));
                } else {
                    assert(post.nbrs(a, l2).len() == 0);
                }
            }
            assert forall|a: int, l2: int, b: int| #[trigger] post.linked(a, l2, b) implies
                post.linked(b, l2, a) by {
                if a < n {
                    assert(post.nbrs(a, l2) == base.nbrs(a, l2));
                    assert(base.linked(a, l2, b));
                    assert(base.linked(b, l2, a));
                    assert(post.nbrs(b, l2) == base.nbrs(b, l2));
                } else {
                    assert(post.nbrs(a, l2).len() == 0);
                    assert(!in_list(post.nbrs(a, l2), b));
                }
            }
            assert forall|a: int, l2: int|
                0 <= a < post.count() && 0 <= l2 < post.levels_at(a) implies (#[trigger] post.nbrs(
                a,
                l2,
            )).len() <= post.m_spec() by {
                if a < n {
                    assert(post.nbrs(a, l2) == base.nbrs(a, l2));
                } else {
                    assert(post.nbrs(a, l2).len() == 0);
                }
            }
            assert forall|a: int| 0 <= a < post.count() implies 1 <= (#[trigger] post.levels_at(a))
                <= post.max_level_spec() + 1 by {
                if a < n {
                    assert(post.levels_at(a) == base.levels_at(a));
                    assert(1 <= base.levels_at(a) <= base.max_level_spec() + 1);
                }
            }
            assert forall|a: int, b: int| 0 <= a < b < post.count() implies (#[trigger] post.key_at(
                a,
            )) != (#[trigger] post.key_at(b)) by {
                if b < n {
                    assert(post.key_at(a) == base.key_at(a) && post.key_at(b) == base.key_at(b));
                } else {
                    assert(post.key_at(a) == base.key_at(a));
                    assert(base.key_at(a) != key);
                }
            }
            assert forall|a: int, b: int|
                0 <= a < post.count() && 0 <= b < post.count() implies (#[trigger] post.point_at(
                a,
            )).shape() == (#[trigger] post.point_at(b)).shape() by {
                if a < n {
                    assert(post.point_at(a) == base.point_at(a));
                    assert(base.point_at(a).shape() == point.shape());
                }
                if b < n {
                    assert(post.point_at(b) == base.point_at(b));
                    assert(base.point_at(b).shape() == point.shape());
                }
            }
            assert(post.graph_ok());
            assert(post.degree_all());
            assert(post.max_level_spec() == if lvl > prev_max {
                lvl as int
            } else {
                base.max_level_spec()
            });
            assert(post.entry_spec() == if lvl > prev_max {
                n as int
            } else {
                base.entry_spec()
            });
        }
        let ghost base2 = *self;
        // link the node symmetrically into every layer it occupies, pruning
        // any neighbour list pushed past the degree bound
        let mut t: usize = 0;
        while t < sels.len()
            invariant
                self.graph_ok(),
                self.degree_all(),
                sels@.len() == top + 1,
                top < lvl + 1,
                t <= sels@.len(),
                new_idx == n,
                self.count() == n + 1,
                self.count() == base2.count(),
                self.entry_spec() == base2.entry_spec(),
                self.max_level_spec() == base2.max_level_spec(),
                self.m_spec() == base2.m_spec(),
                self.ef_spec() == base2.ef_spec(),
                forall|j: int|
                    0 <= j < self.count() ==> (#[trigger] self.key_at(j)) == base2.key_at(j),
                forall|j: int|
                    0 <= j < self.count() ==> (#[trigger] self.point_at(j)) == base2.point_at(j),
                forall|j: int|
                    0 <= j < self.count() ==> (#[trigger] self.levels_at(j)) == base2.levels_at(j),
                forall|i2: int, l2: int, x: int|
                    #![trigger in_list(self.nbrs(i2, l2), x)]
                    0 <= i2 < n && 0 <= l2 < self.levels_at(i2) && in_list(self.nbrs(i2, l2), x)
                        ==> in_list(base2.nbrs(i2, l2), x) || x == n as int,
                forall|t2: int|
                    0 <= t2 < sels@.len() ==> (#[trigger] sels@[t2])@.len() <= self.m_spec(),
                forall|t2: int, u: int|
                    0 <= t2 < sels@.len() && 0 <= u < sels@[t2]@.len() ==> ((
                    #[trigger] sels@[t2]@[u]) as int) < n && (top - t2) < self.levels_at(
                        sels@[t2]@[u] as int,
                    ),
                forall|t2: int, u1: int, u2: int|
                    0 <= t2 < sels@.len() && 0 <= u1 < u2 < sels@[t2]@.len() ==> (
                    #[trigger] sels@[t2]@[u1]) != (#[trigger] sels@[t2]@[u2]),
                (lvl as int) < self.levels_at(n as int),
                forall|l2: int|
                    0 <= l2 <= top - t ==> (#[trigger] self.nbrs(n as int, l2)).len() == 0,
                forall|l2: int|
                    top < l2 < lvl + 1 ==> (#[trigger] self.nbrs(n as int, l2)).len() == 0,
            decreases sels@.len() - t,
        {
            let lv = top - t;
            let sel = &sels[t];
            let ghost round = *self;
            let mut u: usize = 0;
            while u < sel.len()
                invariant
                    self.graph_ok(),
                    self.degree_all(),
                    u <= sel@.len(),
                    sel@ == sels@[t as int]@,
                    t < sels@.len(),
                    sels@.len() == top + 1,
                    lv == top - t,
                    lv <= lvl,
                    new_idx == n,
                    self.count() == n + 1,
                    self.count() == round.count(),
                    self.entry_spec() == round.entry_spec(),
                    self.max_level_spec() == round.max_level_spec(),
                    self.m_spec() == round.m_spec(),
                    self.ef_spec() == round.ef_spec(),
                    forall|j: int|
                        0 <= j < self.count() ==> (#[trigger] self.key_at(j)) == round.key_at(j),
                    forall|j: int|
                        0 <= j < self.count() ==> (#[trigger] self.point_at(j)) == round.point_at(
                            j,
                        ),
                    forall|j: int|
                        0 <= j < self.count() ==> (#[trigger] self.levels_at(j))
                            == round.levels_at(j),
                    forall|i2: int, l2: int, x: int|
                        #![trigger in_list(self.nbrs(i2, l2), x)]
                        0 <= i2 < n && 0 <= l2 < self.levels_at(i2) && in_list(
                            self.nbrs(i2, l2),
                            x,
                        ) ==> in_list(base2.nbrs(i2, l2), x) || x == n as int,
                    sel@.len() <= self.m_spec(),
                    forall|u2: int|
                        0 <= u2 < sel@.len() ==> ((#[trigger] sel@[u2]) as int) < n && (lv as int)
                            < self.levels_at(sel@[u2] as int),
                    forall|u1: int, u2: int|
                        0 <= u1 < u2 < sel@.len() ==> (#[trigger] sel@[u1]) != (#[trigger] sel@[u2]),
                    (lvl as int) < self.levels_at(n as int),
                    forall|l2: int|
                        0 <= l2 < lv ==> (#[trigger] self.nbrs(n as int, l2)).len() == 0,
                    forall|l2: int|
                        top < l2 < lvl + 1 ==> (#[trigger] self.nbrs(n as int, l2)).len() == 0,
                    self.nbrs(n as int, lv as int).len() <= u,
                    forall|x: int|
                        #![trigger in_list(self.nbrs(n as int, lv as int), x)]
                        in_list(self.nbrs(n as int, lv as int), x) ==> in_list(
                            sel@.subrange(0, u as int),
                            x,
                        ),
                decreases sel@.len() - u,
            {
                let nb = sel[u];
                proof {
                    // the new node is not yet linked to nb at this level
                    if in_list(self.nbrs(n as int, lv as int), nb as int) {
                        assert(in_list(sel@.subrange(0, u as int), nb as int));
                        let u2 = choose|u2: int|
                            0 <= u2 < u && (#[trigger] sel@.subrange(0, u as int)[u2]) == nb;
                        assert(sel@[u2] == sel@[u as int]);
                        assert(false);
                    }
                    assert((lv as int) < self.levels_at(nb as int));
                    assert((lv as int) < self.levels_at(n as int));
                }
                let ghost before_connect = *self;
                self.connect(new_idx, nb, lv);
                proof {
                    lemma_push_membership(before_connect.nbrs(n as int, lv as int), nb);
                    lemma_push_membership(sel@.subrange(0, u as int), nb);
                    assert(sel@.subrange(0, u as int + 1) =~= sel@.subrange(0, u as int).push(
                        sel@[u as int],
                    ));
                    assert forall|i2: int, l2: int|
                        0 <= i2 < self.count() && 0 <= l2 < self.levels_at(i2) && !(i2 == n as int
                            && l2 == lv as int) implies (#[trigger] self.nbrs(i2, l2)).len()
                        <= self.m_spec() + 1 by {
                        if l2 == lv as int && i2 == nb as int {
                            assert(self.nbrs(i2, l2).len() == before_connect.nbrs(i2, l2).len()
                                + 1);
                        } else {
                            assert(self.nbrs(i2, l2) == before_connect.nbrs(i2, l2));
                        }
                    }
                    assert(self.nbrs(n as int, lv as int).len() <= u + 1);
                }
                let ghost before_prune = *self;
                self.prune(nb, lv);
                proof {
                    // membership in the new node's list only shrank
                    assert forall|x: int|
                        #![trigger in_list(self.nbrs(n as int, lv as int), x)]
                        in_list(self.nbrs(n as int, lv as int), x) implies in_list(
                        sel@.subrange(0, u as int + 1),
                        x,
                    ) by {
                        assert((n as int) < before_prune.count());
                        assert((lv as int) < before_prune.levels_at(n as int));
                        assert(in_list(before_prune.nbrs(n as int, lv as int), x));
                        assert(before_prune.nbrs(n as int, lv as int) == before_connect.nbrs(
                            n as int,
                            lv as int,
                        ).push(nb));
                        assert(in_list(before_connect.nbrs(n as int, lv as int), x) || x
                            == nb as int);
                        assert(in_list(sel@.subrange(0, u as int), x) || x == nb as int);
                        assert(in_list(sel@.subrange(0, u as int).push(nb), x));
                    }
                    assert(self.nbrs(n as int, lv as int).len() <= u + 1);
                    assert forall|l2: int| 0 <= l2 < lv implies (#[trigger] self.nbrs(
                        n as int,
                        l2,
                    )).len() == 0 by {
                        assert(self.nbrs(n as int, l2) == before_prune.nbrs(n as int, l2));
                        assert(before_prune.nbrs(n as int, l2) == before_connect.nbrs(n as int, l2));
                    }
                    assert forall|l2: int| top < l2 < lvl + 1 implies (#[trigger] self.nbrs(
                        n as int,
                        l2,
                    )).len() == 0 by {
                        assert(self.nbrs(n as int, l2) == before_prune.nbrs(n as int, l2));
                        assert(before_prune.nbrs(n as int, l2) == before_connect.nbrs(n as int, l2));
                    }
                    assert forall|j: int| 0 <= j < self.count() implies (#[trigger] self.key_at(j))
                        == round.key_at(j) by {
                        assert(self.key_at(j) == before_prune.key_at(j));
                        assert(before_prune.key_at(j) == before_connect.key_at(j));
                    }
                    assert forall|j: int| 0 <= j < self.count() implies (#[trigger] self.point_at(
                        j,
                    )) == round.point_at(j) by {
                        assert(self.point_at(j) == before_prune.point_at(j));
                        assert(before_prune.point_at(j) == before_connect.point_at(j));
                    }
                    assert forall|j: int| 0 <= j < self.count() implies (
                    #[trigger] self.levels_at(j)) == round.levels_at(j) by {
                        assert(self.levels_at(j) == before_prune.levels_at(j));
                        assert(before_prune.levels_at(j) == before_connect.levels_at(j));
                    }
                    lemma_push_membership(before_connect.nbrs(nb as int, lv as int), new_idx);
                    assert forall|i2: int, l2: int, x: int|
                        #![trigger in_list(self.nbrs(i2, l2), x)]
                        0 <= i2 < n && 0 <= l2 < self.levels_at(i2) && in_list(
                            self.nbrs(i2, l2),
                            x,
                        ) implies in_list(base2.nbrs(i2, l2), x) || x == n as int by {
                        assert(self.levels_at(i2) == before_prune.levels_at(i2));
                        assert(before_prune.levels_at(i2) == before_connect.levels_at(i2));
                        assert(in_list(before_prune.nbrs(i2, l2), x));
                        if i2 == nb as int && l2 == lv as int {
                            assert(before_prune.nbrs(i2, l2) == before_connect.nbrs(
                                i2,
                                l2,
                            ).push(new_idx));
                            assert(in_list(before_connect.nbrs(i2, l2), x) || x == n as int);
                        } else {
                            assert(before_prune.nbrs(i2, l2) == before_connect.nbrs(i2, l2));
                        }
                        if x != n as int {
                            assert(in_list(before_connect.nbrs(i2, l2), x));
                            assert(in_list(base2.nbrs(i2, l2), x));
                        }
                    }
                }
                u += 1;
            }
            t += 1;
        }
        proof {
            assert(self.key_at(n as int) == key);
            assert forall|j: int| 0 <= j < n implies (#[trigger] self.key_at(j)) == old(
                self,
            ).key_at(j) by {
                assert(self.key_at(j) == base2.key_at(j));
                assert(base2.key_at(j) == base.key_at(j));
            }
            assert forall|j: int| 0 <= j < n implies (#[trigger] self.point_at(j)) == old(
                self,
            ).point_at(j) by {
                assert(self.point_at(j) == base2.point_at(j));
                assert(base2.point_at(j) == base.point_at(j));
            }
            assert forall|j: int| 0 <= j < n implies (#[trigger] self.levels_at(j)) == old(
                self,
            ).levels_at(j) by {
                assert(self.levels_at(j) == base2.levels_at(j));
                assert(base2.levels_at(j) == base.levels_at(j));
            }
            assert forall|i2: int, l2: int, x: int|
                #![trigger in_list(self.nbrs(i2, l2), x)]
                0 <= i2 < n && 0 <= l2 < old(self).levels_at(i2) && in_list(
                    self.nbrs(i2, l2),
                    x,
                ) implies in_list(old(self).nbrs(i2, l2), x) || x == n as int by {
                assert(old(self).levels_at(i2) == base.levels_at(i2));
                assert(self.levels_at(i2) == base2.levels_at(i2));
                assert(base2.levels_at(i2) == base.levels_at(i2));
                assert(in_list(base2.nbrs(i2, l2), x) || x == n as int);
                if x != n as int {
                    assert(base2.nbrs(i2, l2) == base.nbrs(i2, l2));
                }
            }
            assert forall|l: int|
                old(self).max_level_spec() < l < self.levels_at(n as int) implies (
            #[trigger] self.nbrs(n as int, l)).len() == 0 by {
                assert(old(self).max_level_spec() == prev_max as int);
                assert(self.levels_at(n as int) == lvl + 1);
                assert(top < l);
            }
            assert(self.max_level_spec() == base2.max_level_spec());
            assert(self.entry_spec() == base2.entry_spec());
            if lvl > prev_max {
                assert(base2.max_level_spec() == lvl as int);
                assert(base2.entry_spec() == n as int);
            } else {
                assert(base2.max_level_spec() == base.max_level_spec());
                assert(base2.entry_spec() == base.entry_spec());
            }
        }
        Ok(())
    }

    /// At most `n` stored entries near the query, ascending by distance:
    /// greedy descent from the entry point through the upper layers with a
    /// single-candidate beam, then one wide search of the base layer. Fails
    /// with `EmptyIndex` on an empty index and with `DimensionMismatch` for a
    /// query of another shape; `n == 0` yields an empty result.
    pub fn find(&self, query: &P, n: usize) -> (r: Result<Vec<(u64, P)>, Error>)
        requires
            self.wf(),
        ensures
            (self.count() == 0) <==> (r == Err::<Vec<(u64, P)>, Error>(Error::EmptyIndex)),
            (self.count() > 0 && !self.fits(*query)) <==> (r == Err::<Vec<(u64, P)>, Error>(
                Error::DimensionMismatch,
            )),
            self.count() > 0 && self.fits(*query) ==> r is Ok,
            r matches Ok(v) ==> {
                &&& v@.len() <= n
                &&& v@.len() <= self.count()
                &&& (n > 0 ==> v@.len() >= 1)
                &&& forall|a: int, b: int|
                    0 <= a < b < v@.len() ==> query.dist(&(#[trigger] v@[a]).1) <= query.dist(
                        &(#[trigger] v@[b]).1,
                    )
                &&& forall|a: int, b: int|
                    0 <= a < b < v@.len() ==> (#[trigger] v@[a]).0 != (#[trigger] v@[b]).0
                &&& forall|t: int| 0 <= t < v@.len() ==> self.backed(*query, #[trigger] v@[t])
            },
    {
        if self.nodes.len() == 0 {
            return Err(Error::EmptyIndex);
        }
        match query.distance(&self.nodes[self.entry].point) {
            Ok(_) => {
                proof {
                    assert forall|j: int| 0 <= j < self.count() implies (#[trigger] self.point_at(
                        j,
                    )).shape() == query.shape() by {
                        assert(self.point_at(j).shape() == self.point_at(
                            self.entry_spec(),
                        ).shape());
                    }
                }
            },
            Err(_) => {
                proof {
                    assert(self.point_at(self.entry_spec()).shape() != query.shape());
                }
                return Err(Error::DimensionMismatch);
            },
        }
        if n == 0 {
            return Ok(Vec::new());
        }
        let mut cur = self.entry;
        let mut l = self.max_level;
        while l > 0
            invariant
                self.wf(),
                self.fits(*query),
                self.count() > 0,
                n >= 1,
                (cur as int) < self.count(),
                (l as int) < self.levels_at(cur as int),
            decreases l,
        {
            let found = self.search_layer(cur, query, 1, l);
            cur = found[0].0;
            l -= 1;
        }
        let found = self.search_layer(cur, query, n, 0);
        proof {
            lemma_distinct_bounded(found@, self.count());
        }
        let mut v: Vec<(u64, P)> = Vec::new();
        let mut t: usize = 0;
        while t < found.len()
            invariant
                self.wf(),
                self.fits(*query),
                t <= found@.len(),
                1 <= found@.len() <= n,
                found@.len() <= self.count(),
                sorted_ranked(found@),
                distinct_ranked(found@),
                forall|t2: int|
                    0 <= t2 < found@.len() ==> ((#[trigger] found@[t2]).0 as int) < self.count()
                        && found@[t2].1 as int == query.dist(&self.point_at(found@[t2].0 as int)),
                v@.len() == t,
                forall|a: int|
                    0 <= a < t ==> (#[trigger] v@[a]).0 == self.key_at(found@[a].0 as int)
                        && query.dist(&v@[a].1) == found@[a].1 as int && v@[a].1.shape()
                        == self.point_at(found@[a].0 as int).shape() && query.dist(&v@[a].1)
                        == query.dist(&self.point_at(found@[a].0 as int)),
            decreases found@.len() - t,
        {
            let idx = found[t].0;
            let p = self.nodes[idx].point.duplicate();
            v.push((self.nodes[idx].key, p));
            t += 1;
        }
        proof {
            assert forall|a: int, b: int| 0 <= a < b < v@.len() implies (#[trigger] v@[a]).0 != (
            #[trigger] v@[b]).0 by {
                let ia = found@[a].0 as int;
                let ib = found@[b].0 as int;
                assert(ia != ib);
                if ia < ib {
                    assert(self.key_at(ia) != self.key_at(ib));
                } else {
                    assert(self.key_at(ib) != self.key_at(ia));
                }
            }
            assert forall|t2: int| 0 <= t2 < v@.len() implies self.backed(
                *query,
                #[trigger] v@[t2],
            ) by {
                let i1 = found@[t2].0 as int;
                assert(0 <= i1 < self.count() && v@[t2].0 == self.key_at(i1) && query.dist(
                    &v@[t2].1,
                ) == query.dist(&self.point_at(i1)) && v@[t2].1.shape() == self.point_at(
                    i1,
                ).shape());
            }
        }
        Ok(v)
    }

    /// Same as `find`, projected to keys only.
    pub fn find_keys(&self, query: &P, n: usize) -> (r: Result<Vec<u64>, Error>)
        requires
            self.wf(),
        ensures
            (self.count() == 0) <==> (r == Err::<Vec<u64>, Error>(Error::EmptyIndex)),
            (self.count() > 0 && !self.fits(*query)) <==> (r == Err::<Vec<u64>, Error>(
                Error::DimensionMismatch,
            )),
            self.count() > 0 && self.fits(*query) ==> r is Ok,
            r matches Ok(ks) ==> {
                &&& ks@.len() <= n
                &&& ks@.len() <= self.count()
                &&& (n > 0 ==> ks@.len() >= 1)
                &&& forall|a: int, b: int|
                    0 <= a < b < ks@.len() ==> (#[trigger] ks@[a]) != (#[trigger] ks@[b])
                &&& forall|t: int| 0 <= t < ks@.len() ==> self.has_key(#[trigger] ks@[t])
            },
    {
        match self.find(query, n) {
            Ok(v) => {
                let mut ks: Vec<u64> = Vec::new();
                let mut t: usize = 0;
                while t < v.len()
                    invariant
                        t <= v@.len(),
                        ks@.len() == t,
                        forall|a: int| 0 <= a < t ==> (#[trigger] ks@[a]) == v@[a].0,
                    decreases v@.len() - t,
                {
                    ks.push(v[t].0);
                    t += 1;
                }
                proof {
                    assert forall|a: int, b: int| 0 <= a < b < ks@.len() implies (
                    #[trigger] ks@[a]) != (#[trigger] ks@[b]) by {
                        assert(ks@[a] == v@[a].0 && ks@[b] == v@[b].0);
                        assert(v@[a].0 != v@[b].0);
                    }
                    assert forall|t0: int| 0 <= t0 < ks@.len() implies self.has_key(
                        #[trigger] ks@[t0],
                    ) by {
                        assert(ks@[t0] == v@[t0].0);
                        assert(self.backed(*query, v@[t0]));
                        let i1 = choose|i1: int|
                            0 <= i1 < self.count() && v@[t0].0 == (#[trigger] self.key_at(i1))
                                && query.dist(&v@[t0].1) == query.dist(&self.point_at(i1))
                                && v@[t0].1.shape() == self.point_at(i1).shape();
                        assert(self.key_at(i1) == ks@[t0]);
                    }
                }
                Ok(ks)
            },
            Err(e) => Err(e),
        }
    }

    /// Law: adjacency is symmetric per level — node `b` appears among `a`'s
    /// neighbours at level `l` exactly when `a` appears among `b`'s.
    pub proof fn lemma_symmetric(&self, a: int, l: int, b: int)
        requires
            self.wf(),
        ensures
            self.linked(a, l, b) <==> self.linked(b, l, a),
    {
        if self.linked(a, l, b) {
            assert(self.linked(b, l, a));
        }
        if self.linked(b, l, a) {
            assert(self.linked(a, l, b));
        }
    }

    /// Law: no node's neighbour list at any level exceeds the degree bound.
    pub proof fn lemma_degree_bound(&self, a: int, l: int)
        requires
            self.wf(),
            0 <= a < self.count(),
            0 <= l < self.levels_at(a),
        ensures
            self.nbrs(a, l).len() <= self.m_spec(),
    {
    }

    /// Law: in a non-empty index the entry point reaches the graph's top
    /// level exactly, and no node reaches past it.
    pub proof fn lemma_top_level(&self)
        requires
            self.wf(),
            self.count() > 0,
        ensures
            0 <= self.entry_spec() < self.count(),
            self.levels_at(self.entry_spec()) == self.max_level_spec() + 1,
            forall|a: int|
                0 <= a < self.count() ==> 1 <= (#[trigger] self.levels_at(a))
                    <= self.max_level_spec() + 1,
    {
    }
}

impl<P: Point> Index<u64, P> for HnswIndex<P> {
    open spec fn inv(&self) -> bool {
        self.wf()
    }

    open spec fn count(&self) -> int {
        HnswIndex::count(self)
    }

    open spec fn has_key(&self, k: u64) -> bool {
        HnswIndex::has_key(self, k)
    }

    open spec fn admits(&self, q: P) -> bool {
        HnswIndex::fits(self, q)
    }

    fn insert(&mut self, key: u64, point: P) -> (r: Result<(), Error>) {
        HnswIndex::insert(self, key, point)
    }

    fn find(&self, query: &P, n: usize) -> (r: Result<Vec<(u64, P)>, Error>) {
        HnswIndex::find(self, query, n)
    }

    fn find_keys(&self, query: &P, n: usize) -> (r: Result<Vec<u64>, Error>) {
        HnswIndex::find_keys(self, query, n)
    }

    fn len(&self) -> (r: usize) {
        HnswIndex::len(self)
    }
}

/// The position of `x` in the list, if any.
fn find_pos(list: &Vec<usize>, x: usize) -> (r: Option<usize>)
    ensures
        match r {
            Some(p) => (p as int) < list@.len() && list@[p as int] == x,
            None => !in_list(list@, x as int),
        },
{
    let mut t: usize = 0;
    while t < list.len()
        invariant
            t <= list@.len(),
            forall|u: int| 0 <= u < t ==> (#[trigger] list@[u]) != x,
        decreases list@.len() - t,
    {
        if list[t] == x {
            return Some(t);
        }
        t += 1;
    }
    None
}

} // verus!
