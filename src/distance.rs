use crate::vector::Vector;
use vstd::prelude::*;

verus! {

/// The distance metrics a collection can rank by.
///
/// Each score is exact: `Euclidean` yields the squared Euclidean distance,
/// which orders vectors exactly as the Euclidean distance does, and
/// `Manhattan` the sum of absolute component differences.
#[derive(Debug, Clone, Copy, PartialEq, Eq, Structural)]
pub enum Distance {
    Euclidean,
    Manhattan,
}

/// Two vectors of different lengths were compared.
#[derive(Debug, Clone, Copy, PartialEq, Eq, Structural)]
pub struct DimensionMismatch {
    pub expected: usize,
    pub found: usize,
}

/// The absolute difference of two components.
pub open spec fn abs_diff(x: i32, y: i32) -> int {
    if x >= y {
        x - y
    } else {
        y - x
    }
}

/// Sum of squared component differences over the first `n` components.
pub open spec fn squared_euclidean(a: Seq<i32>, b: Seq<i32>, n: nat) -> int
    decreases n,
{
    if n == 0 {
        0
    } else {
        squared_euclidean(a, b, (n - 1) as nat) + abs_diff(a[n - 1], b[n - 1]) * abs_diff(
            a[n - 1],
            b[n - 1],
        )
    }
}

/// Sum of absolute component differences over the first `n` components.
pub open spec fn manhattan(a: Seq<i32>, b: Seq<i32>, n: nat) -> int
    decreases n,
{
    if n == 0 {
        0
    } else {
        manhattan(a, b, (n - 1) as nat) + abs_diff(a[n - 1], b[n - 1])
    }
}

/// The largest absolute difference of two `i32` components.
pub const MAX_DIFF: u64 = 0xFFFF_FFFF;

/// The largest squared difference of two `i32` components, `MAX_DIFF * MAX_DIFF`.
pub const MAX_SQUARED_DIFF: u128 = 0xFFFF_FFFE_0000_0001;

impl Distance {
    /// The score of `a` against `b` under this metric; `a` and `b` have equal length.
    pub open spec fn spec_score(self, a: Seq<i32>, b: Seq<i32>) -> int {
        match self {
            Distance::Euclidean => squared_euclidean(a, b, a.len()),
            Distance::Manhattan => manhattan(a, b, a.len()),
        }
    }

    /// The score of `a` against `b`, or the mismatch of their lengths.
    pub fn calculate(&self, a: &Vector, b: &Vector) -> (r: Result<u128, DimensionMismatch>)
        ensures
            a@.len() == b@.len() ==> r == Ok::<u128, DimensionMismatch>(
                self.spec_score(a@, b@) as u128,
            ) && self.spec_score(a@, b@) == r->Ok_0 as int,
            a@.len() != b@.len() ==> r == Err::<u128, DimensionMismatch>(
                (DimensionMismatch { expected: a@.len() as usize, found: b@.len() as usize }),
            ),
    {
        if a.0.len() != b.0.len() {
            return Err(DimensionMismatch { expected: a.0.len(), found: b.0.len() });
        }
        Ok(self.score(&a.0, &b.0))
    }

    /// The score of two component sequences of equal length.
    pub fn score(&self, a: &Vec<i32>, b: &Vec<i32>) -> (r: u128)
        requires
            a@.len() == b@.len(),
        ensures
            r as int == self.spec_score(a@, b@),
    {
        match self {
            Distance::Euclidean => euclidean_score(a, b),
            Distance::Manhattan => manhattan_score(a, b),
        }
    }
}

/// The absolute difference of two components, computed without overflow.
fn component_diff(x: i32, y: i32) -> (r: u64)
    ensures
        r as int == abs_diff(x, y),
        r <= MAX_DIFF,
{
    if x >= y {
        (x as i64 - y as i64) as u64
    } else {
        (y as i64 - x as i64) as u64
    }
}

fn euclidean_score(a: &Vec<i32>, b: &Vec<i32>) -> (r: u128)
    requires
        a@.len() == b@.len(),
    ensures
        r as int == squared_euclidean(a@, b@, a@.len()),
{
    let mut acc: u128 = 0;
    let mut i: usize = 0;
    while i < a.len()
        invariant
            i <= a@.len() == b@.len(),
            acc as int == squared_euclidean(a@, b@, i as nat),
            acc <= i as int * MAX_SQUARED_DIFF as int,
        decreases a@.len() - i,
    {
        let d = component_diff(a[i], b[i]);
        assert(d as int * d as int <= MAX_SQUARED_DIFF as int) by (nonlinear_arith)
            requires
                d <= MAX_DIFF,
        ;
        let sq: u128 = (d as u128) * (d as u128);
        assert(i < 0x1_0000_0000_0000_0000);
        assert(acc + sq <= (i + 1) * MAX_SQUARED_DIFF as int);
        acc = acc + sq;
        i = i + 1;
    }
    acc
}

fn manhattan_score(a: &Vec<i32>, b: &Vec<i32>) -> (r: u128)
    requires
        a@.len() == b@.len(),
    ensures
        r as int == manhattan(a@, b@, a@.len()),
{
    let mut acc: u128 = 0;
    let mut i: usize = 0;
    while i < a.len()
        invariant
            i <= a@.len() == b@.len(),
            acc as int == manhattan(a@, b@, i as nat),
            acc <= i as int * MAX_DIFF as int,
        decreases a@.len() - i,
    {
        let d = component_diff(a[i], b[i]);
        acc = acc + d as u128;
        i = i + 1;
    }
    acc
}

proof fn lemma_squared_euclidean_symmetric(a: Seq<i32>, b: Seq<i32>, n: nat)
    requires
        n <= a.len(),
        n <= b.len(),
    ensures
        squared_euclidean(a, b, n) == squared_euclidean(b, a, n),
        squared_euclidean(a, a, n) == 0,
    decreases n,
{
    if n > 0 {
        lemma_squared_euclidean_symmetric(a, b, (n - 1) as nat);
        assert(abs_diff(a[n - 1], a[n - 1]) == 0);
    }
}

proof fn lemma_manhattan_symmetric(a: Seq<i32>, b: Seq<i32>, n: nat)
    requires
        n <= a.len(),
        n <= b.len(),
    ensures
        manhattan(a, b, n) == manhattan(b, a, n),
        manhattan(a, a, n) == 0,
    decreases n,
{
    if n > 0 {
        lemma_manhattan_symmetric(a, b, (n - 1) as nat);
    }
}

/// Every metric is symmetric, `d(a, b) == d(b, a)`, and scores a vector
/// against itself as zero.
pub proof fn lemma_score_symmetric(d: Distance, a: Seq<i32>, b: Seq<i32>)
    requires
        a.len() == b.len(),
    ensures
        d.spec_score(a, b) == d.spec_score(b, a),
        d.spec_score(a, a) == 0,
{
    lemma_squared_euclidean_symmetric(a, b, a.len());
    lemma_manhattan_symmetric(a, b, a.len());
}

} // verus!
