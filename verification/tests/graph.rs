use hnsw_index::error::Error;
use hnsw_index::hnsw::HnswIndex;
use hnsw_index::naive::NaiveIndex;
use hnsw_index::point::{Point, VecPoint};
use rand::SeedableRng;

/// A two-dimensional float point under cosine distance, quantized to
/// nanounits so the index can rank it; the zero vector ranks as maximal.
struct CosPoint(Vec<f64>);

impl Point for CosPoint {
    fn distance(&self, other: &Self) -> Result<u64, Error> {
        if self.0.len() != other.0.len() {
            return Err(Error::DimensionMismatch);
        }
        let mut dot: f64 = 0.0;
        let mut na: f64 = 0.0;
        let mut nb: f64 = 0.0;
        let mut i: usize = 0;
        while i < self.0.len() {
            dot += self.0[i] * other.0[i];
            na += self.0[i] * self.0[i];
            nb += other.0[i] * other.0[i];
            i += 1;
        }
        let d: f64 = if na == 0.0 || nb == 0.0 {
            2.0
        } else {
            1.0 - dot / (na.sqrt() * nb.sqrt())
        };
        Ok((d.max(0.0) * 1_000_000_000.0) as u64)
    }

    fn duplicate(&self) -> Self {
        CosPoint(self.0.clone())
    }
}

fn cp(coords: Vec<f64>) -> CosPoint {
    CosPoint(coords)
}

fn ip(coords: Vec<i64>) -> VecPoint {
    VecPoint::from_coords(coords).unwrap()
}

/// A small deterministic scatter of integer points.
fn scatter(count: u64) -> Vec<(u64, VecPoint)> {
    let mut points = Vec::new();
    let mut state: u64 = 0x2545F4914F6CDD1D;
    for key in 0..count {
        let mut coords = Vec::new();
        for _ in 0..3 {
            state = state.wrapping_mul(6364136223846793005).wrapping_add(1442695040888963407);
            coords.push(((state >> 33) % 1000) as i64);
        }
        points.push((key, ip(coords)));
    }
    points
}

fn neighbors_or_empty(ix: &HnswIndex<VecPoint>, key: u64, level: usize) -> Vec<u64> {
    ix.neighbors(key, level).unwrap_or_else(Vec::new)
}

#[test]
fn naive_it_works() {
    let mut index: NaiveIndex<CosPoint> = NaiveIndex::new();
    index.insert(0, cp(vec![1.0f64, 0.0f64])).unwrap();
    index.insert(1, cp(vec![0.0f64, 1.0f64])).unwrap();
    index.insert(2, cp(vec![0.0f64, 0.0f64])).unwrap();
    index.insert(3, cp(vec![1.0f64, 1.0f64])).unwrap();

    assert_eq!(index.len(), 4);
    assert_eq!(
        index.find_keys(&cp(vec![1.0f64, 0.0f64]), 3).unwrap(),
        vec![0, 3, 1]
    );
}

#[test]
fn hnsw_it_works() {
    let mut index: HnswIndex<CosPoint> = HnswIndex::new(10, 10, 368, 1000).unwrap();
    index.insert(0, cp(vec![1.0f64, 0.0f64])).unwrap();
    index.insert(1, cp(vec![0.0f64, 1.0f64])).unwrap();
    index.insert(2, cp(vec![0.0f64, 0.0f64])).unwrap();
    index.insert(3, cp(vec![1.0f64, 1.0f64])).unwrap();

    assert_eq!(index.len(), 4);
    assert_eq!(
        index.find_keys(&cp(vec![1.0f64, 0.0f64]), 3).unwrap(),
        vec![0, 3, 1]
    );
}

#[test]
fn count_invariant() {
    let points = scatter(9);
    let mut naive: NaiveIndex<VecPoint> = NaiveIndex::new();
    let mut hnsw: HnswIndex<VecPoint> = HnswIndex::new(3, 8, 368, 1000).unwrap();
    let mut inserted: usize = 0;
    for (key, point) in points {
        naive.insert(key, point.duplicate()).unwrap();
        hnsw.insert(key, point).unwrap();
        inserted += 1;
        assert_eq!(naive.len(), inserted);
        assert_eq!(hnsw.len(), inserted);
    }
}

#[test]
fn result_bound_and_order() {
    let points = scatter(12);
    let mut hnsw: HnswIndex<VecPoint> = HnswIndex::new(4, 16, 368, 1000).unwrap();
    for (key, point) in points {
        hnsw.insert(key, point).unwrap();
    }
    let q = ip(vec![500, 500, 500]);
    for n in [0usize, 1, 3, 12, 40] {
        let found = hnsw.find(&q, n).unwrap();
        assert!(found.len() <= n);
        assert!(found.len() <= 12);
        // ascending by distance to the query
        let dists: Vec<u64> = found.iter().map(|(_, p)| q.distance(p).unwrap()).collect();
        for w in dists.windows(2) {
            assert!(w[0] <= w[1]);
        }
        // no duplicate keys
        for a in 0..found.len() {
            for b in a + 1..found.len() {
                assert_ne!(found[a].0, found[b].0);
            }
        }
    }
}

#[test]
fn symmetry_after_every_insert() {
    let points = scatter(10);
    let mut hnsw: HnswIndex<VecPoint> = HnswIndex::new(2, 6, 368, 1000).unwrap();
    let mut keys: Vec<u64> = Vec::new();
    for (key, point) in points {
        hnsw.insert(key, point).unwrap();
        keys.push(key);
        for &a in &keys {
            for &b in &keys {
                for level in 0..10usize {
                    let a_has_b = neighbors_or_empty(&hnsw, a, level).contains(&b);
                    let b_has_a = neighbors_or_empty(&hnsw, b, level).contains(&a);
                    assert_eq!(a_has_b, b_has_a);
                }
            }
        }
    }
}

#[test]
fn degree_bound_after_every_insert() {
    let points = scatter(12);
    let m: usize = 2;
    let mut hnsw: HnswIndex<VecPoint> = HnswIndex::new(m, 8, 368, 1000).unwrap();
    let mut keys: Vec<u64> = Vec::new();
    for (key, point) in points {
        hnsw.insert(key, point).unwrap();
        keys.push(key);
        for &a in &keys {
            for level in 0..66usize {
                assert!(neighbors_or_empty(&hnsw, a, level).len() <= m);
            }
        }
    }
}

#[test]
fn determinism_same_seed() {
    let seed: u64 = 42;
    let mut one: HnswIndex<VecPoint> = HnswIndex::with_rng(
        3,
        8,
        368,
        1000,
        rand::rngs::StdRng::seed_from_u64(seed),
    )
    .unwrap();
    let mut two: HnswIndex<VecPoint> = HnswIndex::with_rng(
        3,
        8,
        368,
        1000,
        rand::rngs::StdRng::seed_from_u64(seed),
    )
    .unwrap();
    for (key, point) in scatter(10) {
        one.insert(key, point.duplicate()).unwrap();
        two.insert(key, point).unwrap();
    }
    // identical graphs
    for key in 0..10u64 {
        for level in 0..66usize {
            assert_eq!(one.neighbors(key, level), two.neighbors(key, level));
        }
    }
    // identical answers
    let q = ip(vec![123, 456, 789]);
    for n in [1usize, 4, 10] {
        assert_eq!(one.find_keys(&q, n).unwrap(), two.find_keys(&q, n).unwrap());
    }
}

#[test]
fn oracle_agreement_top1() {
    let points = scatter(15);
    let mut naive: NaiveIndex<VecPoint> = NaiveIndex::new();
    let mut hnsw: HnswIndex<VecPoint> = HnswIndex::new(12, 64, 368, 1000).unwrap();
    for (key, point) in points {
        naive.insert(key, point.duplicate()).unwrap();
        hnsw.insert(key, point).unwrap();
    }
    let q = ip(vec![400, 600, 200]);
    // top-1 of the oracle against the graph's best answer under a wide beam
    let exact = naive.find(&q, 1).unwrap();
    let approx = hnsw.find(&q, 10).unwrap();
    let exact_d = q.distance(&exact[0].1).unwrap();
    let approx_d = q.distance(&approx[0].1).unwrap();
    // the oracle is optimal; the approximate answer agrees or stays within a
    // modest margin of it
    assert!(approx_d >= exact_d);
    assert!(exact[0].0 == approx[0].0 || approx_d <= exact_d * 2);
}

#[test]
fn empty_index_find_fails() {
    let naive: NaiveIndex<VecPoint> = NaiveIndex::new();
    let hnsw: HnswIndex<VecPoint> = HnswIndex::new(3, 8, 368, 1000).unwrap();
    let q = ip(vec![1, 2, 3]);
    assert_eq!(hnsw.neighbors(0, 0), None);
    assert_eq!(naive.find(&q, 2).err(), Some(Error::EmptyIndex));
    assert_eq!(naive.find_keys(&q, 2).err(), Some(Error::EmptyIndex));
    assert_eq!(hnsw.find(&q, 2).err(), Some(Error::EmptyIndex));
    assert_eq!(hnsw.find_keys(&q, 2).err(), Some(Error::EmptyIndex));
}

#[test]
fn duplicate_key_rejected() {
    let mut naive: NaiveIndex<VecPoint> = NaiveIndex::new();
    let mut hnsw: HnswIndex<VecPoint> = HnswIndex::new(3, 8, 368, 1000).unwrap();
    for (key, point) in scatter(6) {
        naive.insert(key, point.duplicate()).unwrap();
        hnsw.insert(key, point).unwrap();
    }
    let q = ip(vec![777, 111, 333]);
    let before_naive = naive.find_keys(&q, 6).unwrap();
    let before_hnsw = hnsw.find_keys(&q, 6).unwrap();
    let before_edges: Vec<Vec<u64>> = (0..6u64).map(|k| neighbors_or_empty(&hnsw, k, 0)).collect();

    assert_eq!(naive.insert(3, ip(vec![9, 9, 9])).err(), Some(Error::DuplicateKey));
    assert_eq!(hnsw.insert(3, ip(vec![9, 9, 9])).err(), Some(Error::DuplicateKey));

    assert_eq!(naive.len(), 6);
    assert_eq!(hnsw.len(), 6);
    assert_eq!(naive.find_keys(&q, 6).unwrap(), before_naive);
    assert_eq!(hnsw.find_keys(&q, 6).unwrap(), before_hnsw);
    let after_edges: Vec<Vec<u64>> = (0..6u64).map(|k| neighbors_or_empty(&hnsw, k, 0)).collect();
    assert_eq!(before_edges, after_edges);
}

#[test]
fn dimension_mismatch_everywhere() {
    let mut naive: NaiveIndex<VecPoint> = NaiveIndex::new();
    let mut hnsw: HnswIndex<VecPoint> = HnswIndex::new(3, 8, 368, 1000).unwrap();
    naive.insert(0, ip(vec![1, 2, 3])).unwrap();
    hnsw.insert(0, ip(vec![1, 2, 3])).unwrap();
    let q2 = ip(vec![1, 2]);
    assert_eq!(naive.find(&q2, 1).err(), Some(Error::DimensionMismatch));
    assert_eq!(hnsw.find(&q2, 1).err(), Some(Error::DimensionMismatch));
    assert_eq!(hnsw.insert(1, ip(vec![4, 5])).err(), Some(Error::DimensionMismatch));
    assert_eq!(hnsw.len(), 1);
}

#[test]
fn invalid_parameter_construction() {
    assert_eq!(
        HnswIndex::<VecPoint>::new(0, 8, 368, 1000).err(),
        Some(Error::InvalidParameter)
    );
    assert_eq!(
        HnswIndex::<VecPoint>::new(3, 0, 368, 1000).err(),
        Some(Error::InvalidParameter)
    );
    assert_eq!(
        HnswIndex::<VecPoint>::new(3, 8, 1000, 368).err(),
        Some(Error::InvalidParameter)
    );
}

#[test]
fn set_rng_keeps_graph() {
    let mut hnsw: HnswIndex<VecPoint> = HnswIndex::new(3, 8, 368, 1000).unwrap();
    for (key, point) in scatter(5) {
        hnsw.insert(key, point).unwrap();
    }
    let before: Vec<Vec<u64>> = (0..5u64).map(|k| neighbors_or_empty(&hnsw, k, 0)).collect();
    hnsw.set_rng(rand::rngs::StdRng::seed_from_u64(99));
    let after: Vec<Vec<u64>> = (0..5u64).map(|k| neighbors_or_empty(&hnsw, k, 0)).collect();
    assert_eq!(before, after);
    assert_eq!(hnsw.len(), 5);
}
