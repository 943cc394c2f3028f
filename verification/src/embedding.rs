//! Fixed-point embeddings and exact cosine similarity.
//!
//! An embedding is a bounded vector of fixed-point coordinates. Cosine
//! similarity `dot(a,b) / (||a||*||b||)` is kept exact as the pair
//! `(num, den_sq)` whose value is `num / sqrt(den_sq)`: equality with one,
//! the query threshold and the ranking order are all decided by integer
//! cross-multiplication, with no rounding anywhere.

use vstd::prelude::*;
use crate::digest::hash_of;
use crate::digest::chunk_hash_raw;

verus! {

/// Largest embedding dimension the library accepts.
pub const DIM_MAX: usize = 1024;

/// Largest coordinate magnitude: fixed-point scale of one.
pub const COORD_MAX: i64 = 512;

/// Largest magnitude a dot product can reach: `DIM_MAX * COORD_MAX^2`.
pub const DOT_MAX: i64 = 268_435_456;

/// The dot product of the first `n` coordinate pairs.
pub open spec fn spec_dot(a: Seq<i64>, b: Seq<i64>, n: int) -> int
    decreases n,
{
    if n <= 0 {
        0
    } else {
        spec_dot(a, b, n - 1) + a[n - 1] * b[n - 1]
    }
}

/// Coordinates bounded by the fixed-point scale.
pub open spec fn coords_bounded(a: Seq<i64>) -> bool {
    forall|i: int| 0 <= i < a.len() ==> -COORD_MAX <= #[trigger] a[i] <= COORD_MAX
}

/// A fixed-dimension embedding vector.
#[derive(Clone, Debug)]
pub struct Embedding {
    /// Fixed-point coordinates, each in `[-COORD_MAX, COORD_MAX]`.
    pub coords: Vec<i64>,
}

impl Embedding {
    /// Dimension bounded and every coordinate within the fixed-point scale.
    pub open spec fn wf(self) -> bool {
        self.coords@.len() <= DIM_MAX && coords_bounded(self.coords@)
    }

    /// True when some coordinate is not zero.
    pub open spec fn is_nonzero_spec(self) -> bool {
        exists|i: int| 0 <= i < self.coords@.len() && #[trigger] self.coords@[i] != 0
    }

    /// The number of coordinates.
    pub fn dim(&self) -> (r: usize)
        ensures
            r == self.coords@.len(),
    {
        self.coords.len()
    }

    /// An embedding with the same coordinates.
    pub fn duplicate(&self) -> (r: Embedding)
        ensures
            r.coords@ == self.coords@,
    {
        let coords = self.coords.clone();
        proof {
            assert(coords@ =~= self.coords@);
        }
        Embedding { coords }
    }
}

/// A bound on one coordinate product.
proof fn lemma_term_bound(x: i64, y: i64)
    requires
        -COORD_MAX <= x <= COORD_MAX,
        -COORD_MAX <= y <= COORD_MAX,
    ensures
        -(COORD_MAX * COORD_MAX) <= x * y <= COORD_MAX * COORD_MAX,
{
    assert(-(COORD_MAX * COORD_MAX) <= x * y <= COORD_MAX * COORD_MAX) by (nonlinear_arith)
        requires
            -COORD_MAX <= x <= COORD_MAX,
            -COORD_MAX <= y <= COORD_MAX,
    ;
}

/// The dot product of bounded vectors is bounded by `n * COORD_MAX^2`.
pub proof fn lemma_dot_bound(a: Seq<i64>, b: Seq<i64>, n: int)
    requires
        coords_bounded(a),
        coords_bounded(b),
        0 <= n <= a.len(),
        n <= b.len(),
    ensures
        -(n * (COORD_MAX * COORD_MAX)) <= spec_dot(a, b, n) <= n * (COORD_MAX * COORD_MAX),
    decreases n,
{
    if n > 0 {
        lemma_dot_bound(a, b, n - 1);
        lemma_term_bound(a[n - 1], b[n - 1]);
        assert((n - 1) * (COORD_MAX * COORD_MAX) + COORD_MAX * COORD_MAX == n * (COORD_MAX
            * COORD_MAX)) by (nonlinear_arith);
    }
}

/// A vector's dot product with itself is nonnegative, and positive as soon
/// as one of the first `n` coordinates is not zero.
pub proof fn lemma_self_dot(a: Seq<i64>, n: int)
    requires
        0 <= n <= a.len(),
    ensures
        spec_dot(a, a, n) >= 0,
        (exists|i: int| 0 <= i < n && #[trigger] a[i] != 0) ==> spec_dot(a, a, n) > 0,
    decreases n,
{
    if n > 0 {
        lemma_self_dot(a, n - 1);
        assert(a[n - 1] * a[n - 1] >= 0) by (nonlinear_arith);
        if a[n - 1] != 0 {
            assert(a[n - 1] * a[n - 1] > 0) by (nonlinear_arith)
                requires
                    a[n - 1] != 0,
            ;
        }
        if exists|i: int| 0 <= i < n && #[trigger] a[i] != 0 {
            let w = choose|i: int| 0 <= i < n && #[trigger] a[i] != 0;
            if w < n - 1 {
                assert(exists|i: int| 0 <= i < n - 1 && #[trigger] a[i] != 0);
            }
        }
    }
}

/// The dot product of two embeddings of equal dimension.
pub fn dot(a: &Embedding, b: &Embedding) -> (r: i64)
    requires
        a.wf(),
        b.wf(),
        a.coords@.len() == b.coords@.len(),
    ensures
        r == spec_dot(a.coords@, b.coords@, a.coords@.len() as int),
        -DOT_MAX <= r <= DOT_MAX,
{
    let n = a.coords.len();
    let mut acc: i64 = 0;
    let mut i: usize = 0;
    while i < n
        invariant
            0 <= i <= n,
            n == a.coords@.len() == b.coords@.len(),
            a.wf(),
            b.wf(),
            acc == spec_dot(a.coords@, b.coords@, i as int),
            -(i * (COORD_MAX * COORD_MAX)) <= acc <= i * (COORD_MAX * COORD_MAX),
        decreases n - i,
    {
        let x = a.coords[i];
        let y = b.coords[i];
        proof {
            lemma_term_bound(x, y);
            assert((i + 1) * (COORD_MAX * COORD_MAX) == i * (COORD_MAX * COORD_MAX) + COORD_MAX
                * COORD_MAX) by (nonlinear_arith);
            assert((i + 1) * (COORD_MAX * COORD_MAX) <= DIM_MAX * (COORD_MAX * COORD_MAX))
                by (nonlinear_arith)
                requires
                    0 <= i,
                    i + 1 <= DIM_MAX,
            ;
        }
        acc = acc + x * y;
        i = i + 1;
        proof {
            lemma_dot_bound(a.coords@, b.coords@, i as int);
        }
    }
    proof {
        lemma_dot_bound(a.coords@, b.coords@, n as int);
        assert(n * (COORD_MAX * COORD_MAX) <= DIM_MAX * (COORD_MAX * COORD_MAX))
            by (nonlinear_arith)
            requires
                0 <= n <= DIM_MAX,
        ;
    }
    acc
}

/// An exact cosine similarity: the represented value is `num / sqrt(den_sq)`.
///
/// The degenerate similarity (mismatched dimensions, empty or all-zero
/// vectors) is `num == 0, den_sq == 0`, representing the value zero.
#[derive(Clone, Copy, Debug, PartialEq, Eq, Structural)]
pub struct Similarity {
    /// The dot product of the two vectors.
    pub num: i64,
    /// The product of the two squared norms.
    pub den_sq: i64,
}

impl Similarity {
    /// Bounds inherited from bounded embeddings, and a zero numerator
    /// whenever the denominator is degenerate.
    pub open spec fn wf(self) -> bool {
        &&& -DOT_MAX <= self.num <= DOT_MAX
        &&& 0 <= self.den_sq <= DOT_MAX * DOT_MAX
        &&& (self.den_sq == 0 ==> self.num == 0)
    }

    /// The degenerate similarity, representing zero.
    pub open spec fn zero_spec() -> Similarity {
        Similarity { num: 0, den_sq: 0 }
    }

    /// The represented value equals one: `num / sqrt(den_sq) == 1`.
    pub open spec fn is_one_spec(self) -> bool {
        self.num > 0 && self.num * self.num == self.den_sq
    }

    /// The represented value equals zero.
    pub open spec fn is_zero_spec(self) -> bool {
        self.num == 0
    }

    /// The represented value is strictly greater than `3/5`, the query
    /// relevance threshold: `num / sqrt(den_sq) > 3/5` exactly when
    /// `num > 0` and `25 * num^2 > 9 * den_sq`.
    pub open spec fn exceeds_threshold_spec(self) -> bool {
        self.num > 0 && 25 * (self.num * self.num) > 9 * self.den_sq
    }

    /// The degenerate similarity, representing zero.
    pub fn zero() -> (r: Similarity)
        ensures
            r == Similarity::zero_spec(),
            r.wf(),
    {
        Similarity { num: 0, den_sq: 0 }
    }

    /// True when the represented value is exactly one.
    pub fn is_one(&self) -> (r: bool)
        requires
            self.wf(),
        ensures
            r == self.is_one_spec(),
    {
        proof {
            lemma_square_bound(self.num);
        }
        let n = self.num as i128;
        self.num > 0 && n * n == self.den_sq as i128
    }

    /// True when the represented value is exactly zero.
    pub fn is_zero(&self) -> (r: bool)
        ensures
            r == self.is_zero_spec(),
    {
        self.num == 0
    }

    /// True when the represented value is strictly greater than `3/5`.
    pub fn exceeds_threshold(&self) -> (r: bool)
        requires
            self.wf(),
        ensures
            r == self.exceeds_threshold_spec(),
    {
        proof {
            lemma_square_bound(self.num);
        }
        let n = self.num as i128;
        self.num > 0 && 25 * (n * n) > 9 * (self.den_sq as i128)
    }
}

/// The square of a bounded numerator stays within one squared bound.
proof fn lemma_square_bound(x: i64)
    requires
        -DOT_MAX <= x <= DOT_MAX,
    ensures
        0 <= x * x <= DOT_MAX * DOT_MAX,
{
    assert(0 <= x * x <= DOT_MAX * DOT_MAX) by (nonlinear_arith)
        requires
            -DOT_MAX <= x <= DOT_MAX,
    ;
}

/// The cross product `x^2 * q` of a bounded numerator and a bounded
/// denominator stays within the fourth power of the dot bound.
proof fn lemma_cross_bound(x: i64, q: i64)
    requires
        -DOT_MAX <= x <= DOT_MAX,
        0 <= q <= DOT_MAX * DOT_MAX,
    ensures
        0 <= (x * x) * q <= (DOT_MAX * DOT_MAX) * (DOT_MAX * DOT_MAX),
{
    lemma_square_bound(x);
    assert(0 <= (x * x) * q <= (DOT_MAX * DOT_MAX) * (DOT_MAX * DOT_MAX)) by (nonlinear_arith)
        requires
            0 <= x * x <= DOT_MAX * DOT_MAX,
            0 <= q <= DOT_MAX * DOT_MAX,
    ;
}

/// The ranking order on similarities: `a` is at least `b` on the represented
/// values `num / sqrt(den_sq)`. Signs are compared first; two values of one
/// sign are compared by squaring the cross products, which is exact because
/// both sides are then nonnegative.
pub open spec fn sim_ge(a: Similarity, b: Similarity) -> bool {
    if a.num == 0 && b.num == 0 {
        true
    } else if a.num >= 0 && b.num <= 0 {
        true
    } else if a.num <= 0 && b.num >= 0 {
        false
    } else if a.num > 0 {
        a.num * a.num * b.den_sq >= b.num * b.num * a.den_sq
    } else {
        a.num * a.num * b.den_sq <= b.num * b.num * a.den_sq
    }
}

/// The ranking order is total: two similarities always compare one way.
pub proof fn lemma_sim_ge_total(a: Similarity, b: Similarity)
    ensures
        sim_ge(a, b) || sim_ge(b, a),
{
}

/// The ranking order is transitive.
pub proof fn lemma_sim_ge_transitive(a: Similarity, b: Similarity, c: Similarity)
    requires
        a.wf(),
        b.wf(),
        c.wf(),
        sim_ge(a, b),
        sim_ge(b, c),
    ensures
        sim_ge(a, c),
{
    if a.num > 0 && b.num > 0 && c.num > 0 {
        assert(a.num * a.num * c.den_sq >= c.num * c.num * a.den_sq) by (nonlinear_arith)
            requires
                a.num * a.num * b.den_sq >= b.num * b.num * a.den_sq,
                b.num * b.num * c.den_sq >= c.num * c.num * b.den_sq,
                a.num > 0,
                b.num > 0,
                c.num > 0,
                b.den_sq > 0,
                a.den_sq >= 0,
                c.den_sq >= 0,
        ;
    } else if a.num < 0 && b.num < 0 && c.num < 0 {
        assert(a.num * a.num * c.den_sq <= c.num * c.num * a.den_sq) by (nonlinear_arith)
            requires
                a.num * a.num * b.den_sq <= b.num * b.num * a.den_sq,
                b.num * b.num * c.den_sq <= c.num * c.num * b.den_sq,
                a.num < 0,
                b.num < 0,
                c.num < 0,
                b.den_sq > 0,
                a.den_sq > 0,
                c.den_sq > 0,
        ;
    }
}

/// Anything ranking at least as high as a similarity above the relevance
/// threshold is above the threshold itself.
pub proof fn lemma_exceeds_monotone(a: Similarity, b: Similarity)
    requires
        a.wf(),
        b.wf(),
        sim_ge(a, b),
        b.exceeds_threshold_spec(),
    ensures
        a.exceeds_threshold_spec(),
{
    assert(a.num > 0);
    assert(25 * (a.num * a.num) > 9 * a.den_sq) by (nonlinear_arith)
        requires
            a.num * a.num * b.den_sq >= b.num * b.num * a.den_sq,
            25 * (b.num * b.num) > 9 * b.den_sq,
            a.num > 0,
            b.num > 0,
            a.den_sq > 0,
            b.den_sq > 0,
    ;
}

/// Whether `a` ranks at least as high as `b`.
pub fn sim_cmp_ge(a: &Similarity, b: &Similarity) -> (r: bool)
    requires
        a.wf(),
        b.wf(),
    ensures
        r == sim_ge(*a, *b),
{
    if a.num == 0 && b.num == 0 {
        true
    } else if a.num >= 0 && b.num <= 0 {
        true
    } else if a.num <= 0 && b.num >= 0 {
        false
    } else {
        proof {
            lemma_square_bound(a.num);
            lemma_square_bound(b.num);
            lemma_cross_bound(a.num, b.den_sq);
            lemma_cross_bound(b.num, a.den_sq);
        }
        let lhs: i128 = (a.num as i128) * (a.num as i128) * (b.den_sq as i128);
        let rhs: i128 = (b.num as i128) * (b.num as i128) * (a.den_sq as i128);
        if a.num > 0 {
            lhs >= rhs
        } else {
            lhs <= rhs
        }
    }
}

/// Cosine similarity of two embeddings, exact.
///
/// Mismatched dimensions, empty vectors and all-zero vectors yield the
/// degenerate zero similarity; otherwise the result carries the dot product
/// over the product of squared norms.
pub fn cosine_similarity(a: &Embedding, b: &Embedding) -> (r: Similarity)
    requires
        a.wf(),
        b.wf(),
    ensures
        r == spec_cosine(*a, *b),
        r.wf(),
{
    if a.coords.len() != b.coords.len() || a.coords.len() == 0 {
        return Similarity::zero();
    }
    let na = dot(a, a);
    let nb = dot(b, b);
    proof {
        lemma_self_dot(a.coords@, a.coords@.len() as int);
        lemma_self_dot(b.coords@, b.coords@.len() as int);
    }
    if na == 0 || nb == 0 {
        return Similarity::zero();
    }
    let d = dot(a, b);
    proof {
        assert(na * nb <= DOT_MAX * DOT_MAX) by (nonlinear_arith)
            requires
                0 < na <= DOT_MAX,
                0 < nb <= DOT_MAX,
        ;
        assert(na * nb > 0) by (nonlinear_arith)
            requires
                na > 0,
                nb > 0,
        ;
    }
    Similarity { num: d, den_sq: na * nb }
}

/// The similarity `cosine_similarity` returns, as a function of the two
/// embeddings.
pub open spec fn spec_cosine(a: Embedding, b: Embedding) -> Similarity {
    let n = a.coords@.len() as int;
    if a.coords@.len() != b.coords@.len() || a.coords@.len() == 0 {
        Similarity::zero_spec()
    } else if spec_dot(a.coords@, a.coords@, n) == 0 || spec_dot(b.coords@, b.coords@, n) == 0 {
        Similarity::zero_spec()
    } else {
        Similarity {
            num: spec_dot(a.coords@, b.coords@, n) as i64,
            den_sq: (spec_dot(a.coords@, a.coords@, n) * spec_dot(b.coords@, b.coords@, n)) as i64,
        }
    }
}

/// The similarity of a non-zero embedding with itself is exactly one.
pub proof fn lemma_self_similarity_is_one(v: Embedding)
    requires
        v.wf(),
        v.is_nonzero_spec(),
    ensures
        spec_cosine(v, v).is_one_spec(),
{
    let n = v.coords@.len() as int;
    lemma_self_dot(v.coords@, n);
    lemma_dot_bound(v.coords@, v.coords@, n);
    let d = spec_dot(v.coords@, v.coords@, n);
    assert(d > 0);
    assert(n * (COORD_MAX * COORD_MAX) <= DIM_MAX * (COORD_MAX * COORD_MAX)) by (nonlinear_arith)
        requires
            0 <= n <= DIM_MAX,
    ;
    assert(d * d <= DOT_MAX * DOT_MAX) by (nonlinear_arith)
        requires
            0 < d <= DOT_MAX,
    ;
    assert(spec_cosine(v, v).num == d);
    assert(spec_cosine(v, v).den_sq == d * d);
}

/// The similarity of embeddings of different dimensions, or with an all-zero
/// or empty side, is exactly zero.
pub proof fn lemma_degenerate_similarity_is_zero(a: Embedding, b: Embedding)
    requires
        a.wf(),
        b.wf(),
        a.coords@.len() != b.coords@.len() || !a.is_nonzero_spec() || !b.is_nonzero_spec(),
    ensures
        spec_cosine(a, b).is_zero_spec(),
{
    let n = a.coords@.len() as int;
    if a.coords@.len() == b.coords@.len() && a.coords@.len() != 0 {
        lemma_self_dot(a.coords@, n);
        lemma_self_dot(b.coords@, n);
        if !a.is_nonzero_spec() {
            if spec_dot(a.coords@, a.coords@, n) > 0 {
                lemma_self_dot_positive_witness(a.coords@, n);
            }
        } else {
            if spec_dot(b.coords@, b.coords@, n) > 0 {
                lemma_self_dot_positive_witness(b.coords@, n);
            }
        }
    }
}

/// A positive self dot product exhibits a non-zero coordinate.
proof fn lemma_self_dot_positive_witness(a: Seq<i64>, n: int)
    requires
        0 <= n <= a.len(),
        spec_dot(a, a, n) > 0,
    ensures
        exists|i: int| 0 <= i < n && #[trigger] a[i] != 0,
    decreases n,
{
    if n > 0 {
        if a[n - 1] != 0 {
            assert(0 <= n - 1 < n && a[n - 1] != 0);
        } else {
            assert(a[n - 1] * a[n - 1] == 0) by (nonlinear_arith)
                requires
                    a[n - 1] == 0,
            ;
            lemma_self_dot_positive_witness(a, n - 1);
        }
    }
}

/// Deterministic hash-derived embedding provider.
///
/// One of the interchangeable embedding backends the design allows: each
/// coordinate is derived from the text's content hash by a linear
/// congruential walk, so equal texts always embed equally.
#[derive(Clone, Copy, Debug)]
pub struct HashEmbedder {
    /// The fixed dimension of every embedding this provider produces.
    pub dim: usize,
}

/// The multiplier of the coordinate walk.
pub const WALK_MUL: u64 = 6_364_136_223_846_793_005;

/// The increment of the coordinate walk.
pub const WALK_ADD: u64 = 1_442_695_040_888_963_407;

/// The state of the coordinate walk after `i + 1` steps from seed `h`.
pub open spec fn walk_state(h: u64, i: nat) -> u64
    decreases i,
{
    if i == 0 {
        (((h * WALK_MUL) + WALK_ADD) % 0x1_0000_0000_0000_0000) as u64
    } else {
        (((walk_state(h, (i - 1) as nat) * WALK_MUL) + WALK_ADD) % 0x1_0000_0000_0000_0000) as u64
    }
}

/// The `i`-th coordinate derived from seed `h`: the walk state reduced to
/// the fixed-point range `[-COORD_MAX, COORD_MAX]`.
pub open spec fn walk_coord(h: u64, i: nat) -> int {
    (walk_state(h, i) % 1025) - COORD_MAX
}

/// The embedding the hash-derived provider assigns to a text, as a function
/// of the text's content hash.
pub open spec fn embedding_of(s: Seq<char>, dim: nat) -> Seq<i64> {
    Seq::new(dim, |i: int| walk_coord(hash_of(s), i as nat) as i64)
}

impl HashEmbedder {
    /// A provider of the given fixed dimension.
    pub fn new(dim: usize) -> (r: HashEmbedder)
        requires
            1 <= dim <= DIM_MAX,
        ensures
            r.dim == dim,
            r.wf(),
    {
        HashEmbedder { dim }
    }

    /// The dimension is positive and bounded.
    pub open spec fn wf(self) -> bool {
        1 <= self.dim <= DIM_MAX
    }

    /// The embedding dimensionality.
    pub fn dim(&self) -> (r: usize)
        ensures
            r == self.dim,
    {
        self.dim
    }

    /// Embed a text: deterministic in the text alone.
    pub fn embed(&self, text: &str) -> (r: Embedding)
        requires
            self.wf(),
        ensures
            r.wf(),
            r.coords@.len() == self.dim,
            r.coords@ == embedding_of(text@, self.dim as nat),
    {
        let h = chunk_hash_raw(text);
        let mut coords: Vec<i64> = Vec::new();
        let mut state: u64 = h;
        let mut i: usize = 0;
        while i < self.dim
            invariant
                0 <= i <= self.dim,
                coords@.len() == i,
                forall|j: int|
                    0 <= j < i ==> #[trigger] coords@[j] == walk_coord(h, j as nat) as i64,
                coords_bounded(coords@),
                i == 0 ==> state == h,
                i > 0 ==> state == walk_state(h, (i - 1) as nat),
                self.wf(),
            decreases self.dim - i,
        {
            proof {
                assert(0 <= (state as int) * (WALK_MUL as int) + (WALK_ADD as int) <= (
                u64::MAX as int) * (WALK_MUL as int) + (WALK_ADD as int)) by (nonlinear_arith)
                    requires
                        0 <= (state as int) <= u64::MAX as int,
                ;
            }
            let wide: u128 = (state as u128) * (WALK_MUL as u128) + (WALK_ADD as u128);
            let next: u64 = (wide % 0x1_0000_0000_0000_0000u128) as u64;
            proof {
                assert(next == walk_state(h, i as nat));
                assert(0 <= next % 1025 < 1025) by (nonlinear_arith);
            }
            let c: i64 = (next % 1025) as i64 - COORD_MAX;
            coords.push(c);
            state = next;
            i = i + 1;
        }
        proof {
            assert(coords@ =~= embedding_of(text@, self.dim as nat));
        }
        Embedding { coords }
    }
}

} // verus!
