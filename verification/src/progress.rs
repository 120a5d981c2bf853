use vstd::prelude::*;

use crate::behavior::Behavior;
use crate::individual::Individual;
use crate::scores::{Fitness, Raw};

verus! {

/// What an evaluator reports for one individual: nothing, a behavior
/// alone, a raw fitness with a behavior, or a solution — the winning
/// individual together with whatever else the evaluation produced.
#[derive(Debug)]
pub enum Progress {
    Empty,
    Novelty(Behavior),
    Status(Raw<Fitness>, Behavior),
    Solution(Option<Raw<Fitness>>, Option<Behavior>, Box<Individual>),
}

impl Progress {
    /// A report of a raw fitness (as double bits) and a behavior.
    pub fn new(fitness: u64, behavior: Vec<u64>) -> (r: Self)
        ensures
            r matches Progress::Status(f, b) && f.0.0 == fitness && b.0@ == behavior@,
    {
        Progress::Status(Raw::fitness(fitness), Behavior::new(behavior))
    }

    /// A report that nothing was learned.
    pub fn empty() -> (r: Self)
        ensures
            r is Empty,
    {
        Progress::Empty
    }

    /// The same report, upgraded to a solution carrying `solution`:
    /// fitness and behavior already reported are kept.
    pub fn solved(self, solution: Individual) -> (r: Self)
        ensures
            r matches Progress::Solution(f, b, w) && *w == solution && f == self.spec_raw_fitness()
                && match (b, self.spec_behavior()) {
                (Some(rb), Some(sb)) => rb == sb,
                (None, None) => true,
                _ => false,
            },
    {
        match self {
            Progress::Novelty(behavior) => Progress::Solution(
                None,
                Some(behavior),
                Box::new(solution),
            ),
            Progress::Status(fitness, behavior) => Progress::Solution(
                Some(fitness),
                Some(behavior),
                Box::new(solution),
            ),
            Progress::Solution(fitness, behavior, _) => Progress::Solution(
                fitness,
                behavior,
                Box::new(solution),
            ),
            Progress::Empty => Progress::Solution(None, None, Box::new(solution)),
        }
    }

    /// A report of a behavior alone.
    pub fn novelty(behavior: Vec<u64>) -> (r: Self)
        ensures
            r matches Progress::Novelty(b) && b.0@ == behavior@,
    {
        Progress::Novelty(Behavior::new(behavior))
    }

    /// The behavior this report carries, if any.
    pub open spec fn spec_behavior(&self) -> Option<Behavior> {
        match self {
            Progress::Status(_, behavior) => Some(*behavior),
            Progress::Solution(_, behavior, _) => *behavior,
            Progress::Novelty(behavior) => Some(*behavior),
            Progress::Empty => None,
        }
    }

    pub fn behavior(&self) -> (r: Option<&Behavior>)
        ensures
            match (r, self.spec_behavior()) {
                (Some(rb), Some(sb)) => *rb == sb,
                (None, None) => true,
                _ => false,
            },
    {
        match self {
            Progress::Status(_, behavior) => Some(behavior),
            Progress::Solution(_, behavior, _) => behavior.as_ref(),
            Progress::Novelty(behavior) => Some(behavior),
            Progress::Empty => None,
        }
    }

    /// The raw fitness this report carries, if any.
    pub open spec fn spec_raw_fitness(&self) -> Option<Raw<Fitness>> {
        match *self {
            Progress::Status(fitness, _) => Some(fitness),
            Progress::Solution(fitness, _, _) => fitness,
            Progress::Novelty(_) => None,
            Progress::Empty => None,
        }
    }

    pub fn raw_fitness(&self) -> (r: Option<Raw<Fitness>>)
        ensures
            r == self.spec_raw_fitness(),
    {
        match *self {
            Progress::Status(fitness, _) => Some(fitness),
            Progress::Solution(fitness, _, _) => fitness,
            Progress::Novelty(_) => None,
            Progress::Empty => None,
        }
    }

    /// The winning individual, when this report announces a solution.
    pub fn is_solution(&self) -> (r: Option<&Individual>)
        ensures
            match r {
                Some(ind) => self matches Progress::Solution(_, _, w) && *ind == *w,
                None => !(self is Solution),
            },
    {
        match self {
            Progress::Solution(_, _, individual) => Some(individual),
            _ => None,
        }
    }
}

/// The winner of the earliest report that announces a solution, if any
/// does.
pub fn first_solution(progress: &Vec<Progress>) -> (r: Option<&Individual>)
    ensures
        match r {
            Some(ind) => exists|i: int|
                0 <= i < progress@.len() && ((#[trigger] progress@[i]) matches Progress::Solution(
                    _,
                    _,
                    w,
                ) && *ind == *w),
            None => forall|i: int| 0 <= i < progress@.len() ==> !((#[trigger] progress@[i]) is Solution),
        },
{
    let mut i: usize = 0;
    while i < progress.len()
        invariant
            i <= progress@.len(),
            forall|j: int| 0 <= j < i ==> !((#[trigger] progress@[j]) is Solution),
        decreases progress@.len() - i,
    {
        match progress[i].is_solution() {
            Some(ind) => {
                proof {
                    assert(((#[trigger] progress@[i as int]) matches Progress::Solution(_, _, w)
                        && *ind == *w));
                }
                return Some(ind);
            },
            None => {
            },
        }
        i = i + 1;
    }
    None
}

} // verus!
