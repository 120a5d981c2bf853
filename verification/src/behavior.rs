use vstd::prelude::*;

use crate::scalar::{self, RealArithmetic};

verus! {

/// A behavior vector: the coordinates an evaluator observed for one
/// individual, as double bits. Novelty is distance between such points.
#[derive(Debug)]
pub struct Behavior(pub Vec<u64>);

impl Behavior {
    pub fn new(coordinates: Vec<u64>) -> (b: Behavior)
        ensures
            b.0@ == coordinates@,
    {
        Behavior(coordinates)
    }

    /// A coordinate-for-coordinate copy.
    pub fn duplicate(&self) -> (r: Behavior)
        ensures
            r.0@ == self.0@,
    {
        let mut out: Vec<u64> = Vec::new();
        let mut i: usize = 0;
        while i < self.0.len()
            invariant
                i <= self.0@.len(),
                out@ =~= self.0@.take(i as int),
            decreases self.0@.len() - i,
        {
            out.push(self.0[i]);
            proof {
                assert(out@ =~= self.0@.take(i + 1));
            }
            i = i + 1;
        }
        proof {
            assert(out@ =~= self.0@);
        }
        Behavior(out)
    }
}

/// K-nearest-neighbor novelty: for each behavior in the pool, the mean of
/// the distances to its `k` nearest neighbors among all the others —
/// fewer when fewer others exist, and zero for a behavior with no
/// neighbor at all. One novelty value comes back per pool entry, in pool
/// order.
pub fn compute_novelty<M: RealArithmetic>(pool: &Vec<Behavior>, k: usize, math: &M) -> (r: Vec<
    u64,
>)
    ensures
        r@.len() == pool@.len(),
{
    let mut out: Vec<u64> = Vec::new();
    let mut i: usize = 0;
    while i < pool.len()
        invariant
            i <= pool@.len(),
            out@.len() == i,
        decreases pool@.len() - i,
    {
        let mut distances: Vec<u64> = Vec::new();
        let mut j: usize = 0;
        while j < pool.len()
            invariant
                j <= pool@.len(),
                i < pool@.len(),
            decreases pool@.len() - j,
        {
            if j != i {
                distances.push(math.distance(&pool[i].0, &pool[j].0));
            }
            j = j + 1;
        }
        let nearest = scalar::sort_bits(&distances);
        let take = if k < nearest.len() {
            k
        } else {
            nearest.len()
        };
        let mut sum = scalar::R_ZERO;
        let mut t: usize = 0;
        while t < take
            invariant
                take <= nearest@.len(),
                t <= take,
            decreases take - t,
        {
            sum = math.add(sum, nearest[t]);
            t = t + 1;
        }
        let novelty = if take == 0 {
            scalar::R_ZERO
        } else {
            math.div(sum, math.from_usize(take))
        };
        out.push(novelty);
        i = i + 1;
    }
    out
}

} // verus!
