use vstd::prelude::*;

use crate::error::Error;

verus! {

/// A point of a metric-like space. An index only ever compares distances, so
/// the distance may be any totally ordered, non-negative value; it is rendered
/// here as a `u64`. Two points are comparable exactly when their shapes agree
/// (for vectors: equal dimension); asking for the distance of points of
/// different shapes is a `DimensionMismatch`.
pub trait Point: Sized {
    /// The shape token of the point. Distances are defined between points of
    /// equal shape only. A point type whose contracts are to say anything
    /// overrides this; the default gives every point one shape. The distance
    /// is expected to be symmetric wherever it is defined.
    open spec fn shape(&self) -> int {
        0
    }

    /// The distance between `self` and `other`, meaningful when their shapes
    /// agree; overridden alongside `shape`.
    open spec fn dist(&self, other: &Self) -> int {
        0
    }

    /// Computes the distance between two points of equal shape, and reports a
    /// `DimensionMismatch` exactly when the shapes differ.
    fn distance(&self, other: &Self) -> (r: Result<u64, Error>)
        ensures
            match r {
                Ok(d) => self.shape() == other.shape() && d as int == self.dist(other),
                Err(e) => self.shape() != other.shape() && e == Error::DimensionMismatch,
            },
    ;

    /// Returns an owned copy that no distance computation can tell from the
    /// original.
    fn duplicate(&self) -> (r: Self)
        ensures
            r.shape() == self.shape(),
            forall|o: Self| (#[trigger] r.dist(&o)) == self.dist(&o),
            forall|o: Self| (#[trigger] o.dist(&r)) == o.dist(&self),
    ;
}

/// Greatest magnitude a coordinate of a `VecPoint` may have.
pub const COORD_LIMIT: i64 = 1_000_000;

/// Greatest number of coordinates a `VecPoint` may have.
pub const DIM_LIMIT: usize = 1_000_000;

/// Sum of the squared coordinate differences over the first `n` positions.
pub open spec fn sum_sq_diff(a: Seq<i64>, b: Seq<i64>, n: int) -> int
    decreases n,
{
    if n <= 0 {
        0
    } else {
        sum_sq_diff(a, b, n - 1) + (a[n - 1] - b[n - 1]) * (a[n - 1] - b[n - 1])
    }
}

proof fn lemma_sum_sq_diff_sym(a: Seq<i64>, b: Seq<i64>, n: int)
    ensures
        sum_sq_diff(a, b, n) == sum_sq_diff(b, a, n),
    decreases n,
{
    if n > 0 {
        lemma_sum_sq_diff_sym(a, b, n - 1);
        assert((a[n - 1] - b[n - 1]) * (a[n - 1] - b[n - 1]) == (b[n - 1] - a[n - 1]) * (b[n - 1]
            - a[n - 1])) by (nonlinear_arith);
    }
}

/// A vector of bounded integer coordinates, compared by squared Euclidean
/// distance. The bounds on dimension and coordinate magnitude keep every
/// distance within `u64` range.
pub struct VecPoint {
    coords: Vec<i64>,
}

impl VecPoint {
    /// The coordinates, as a sequence.
    pub closed spec fn coords_spec(&self) -> Seq<i64> {
        self.coords@
    }

    /// Dimension and coordinates stay within the library's bounds.
    #[verifier::type_invariant]
    pub closed spec fn bounded(&self) -> bool {
        &&& self.coords@.len() <= DIM_LIMIT
        &&& forall|i: int|
            0 <= i < self.coords@.len() ==> -COORD_LIMIT <= (#[trigger] self.coords@[i])
                <= COORD_LIMIT
    }

    /// The point with no coordinates.
    pub fn new() -> (r: Self)
        ensures
            r.coords_spec() == Seq::<i64>::empty(),
    {
        VecPoint { coords: Vec::new() }
    }

    /// Builds a point from raw coordinates; any coordinate or dimension out of
    /// bounds is rejected as an `InvalidParameter`.
    pub fn from_coords(v: Vec<i64>) -> (r: Result<Self, Error>)
        ensures
            match r {
                Ok(p) => p.coords_spec() == v@ && v@.len() <= DIM_LIMIT && (forall|i: int|
                    0 <= i < v@.len() ==> -COORD_LIMIT <= (#[trigger] v@[i]) <= COORD_LIMIT),
                Err(e) => e == Error::InvalidParameter && !(v@.len() <= DIM_LIMIT && (forall|i: int|
                    0 <= i < v@.len() ==> -COORD_LIMIT <= (#[trigger] v@[i]) <= COORD_LIMIT)),
            },
    {
        if v.len() > DIM_LIMIT {
            return Err(Error::InvalidParameter);
        }
        let mut i: usize = 0;
        while i < v.len()
            invariant
                i <= v@.len(),
                forall|j: int| 0 <= j < i ==> -COORD_LIMIT <= (#[trigger] v@[j]) <= COORD_LIMIT,
            decreases v@.len() - i,
        {
            let c = v[i];
            if c < -COORD_LIMIT || c > COORD_LIMIT {
                return Err(Error::InvalidParameter);
            }
            i += 1;
        }
        Ok(VecPoint { coords: v })
    }

    /// Number of coordinates.
    pub fn dim(&self) -> (r: usize)
        ensures
            r == self.coords_spec().len(),
    {
        self.coords.len()
    }

    /// Law: squared Euclidean distance is symmetric wherever it is defined.
    pub proof fn lemma_distance_symmetric(&self, other: &Self)
        requires
            self.shape() == other.shape(),
        ensures
            self.dist(other) == other.dist(self),
    {
        lemma_sum_sq_diff_sym(
            self.coords_spec(),
            other.coords_spec(),
            self.coords_spec().len() as int,
        );
    }
}

impl Point for VecPoint {
    open spec fn shape(&self) -> int {
        self.coords_spec().len() as int
    }

    open spec fn dist(&self, other: &Self) -> int {
        sum_sq_diff(self.coords_spec(), other.coords_spec(), self.coords_spec().len() as int)
    }

    fn distance(&self, other: &Self) -> (r: Result<u64, Error>) {
        proof {
            use_type_invariant(&*self);
            use_type_invariant(&*other);
        }
        if self.coords.len() != other.coords.len() {
            return Err(Error::DimensionMismatch);
        }
        let n = self.coords.len();
        let mut acc: u64 = 0;
        let mut i: usize = 0;
        while i < n
            invariant
                i <= n,
                n == self.coords@.len(),
                n == other.coords@.len(),
                self.bounded(),
                other.bounded(),
                acc as int == sum_sq_diff(self.coords@, other.coords@, i as int),
                acc as int <= (i as int) * 4_000_000_000_000,
            decreases n - i,
        {
            let a = self.coords[i];
            let b = other.coords[i];
            let d: i64 = a - b;
            assert(0 <= (d as int) * (d as int) <= 4_000_000_000_000) by (nonlinear_arith)
                requires
                    -2_000_000 <= d as int <= 2_000_000,
            ;
            let sq: i64 = d * d;
            assert((i as int + 1) * 4_000_000_000_000 <= 1_000_000i64 * 4_000_000_000_000)
                by (nonlinear_arith)
                requires
                    i as int + 1 <= 1_000_000,
            ;
            acc = acc + (sq as u64);
            i += 1;
        }
        Ok(acc)
    }

    fn duplicate(&self) -> (r: Self) {
        proof {
            use_type_invariant(&*self);
        }
        let mut c: Vec<i64> = Vec::new();
        let mut i: usize = 0;
        while i < self.coords.len()
            invariant
                i <= self.coords@.len(),
                c@ == self.coords@.subrange(0, i as int),
                self.bounded(),
            decreases self.coords@.len() - i,
        {
            let x = self.coords[i];
            c.push(x);
            proof {
                assert(c@ =~= self.coords@.subrange(0, i as int + 1));
            }
            i += 1;
        }
        proof {
            assert(c@ =~= self.coords@);
        }
        VecPoint { coords: c }
    }
}

} // verus!
