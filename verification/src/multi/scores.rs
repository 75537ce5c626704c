//! The fitness of a multi-objective solution.

use crate::error::{reason, Error, Result};
use crate::fitness::{is_nan_bits, normalized_bits, score_key, Objective, SIGN_BIT};
use vstd::prelude::*;

verus! {

/// The fitness of a solution with several objectives: its objective values, optionally with a
/// constraint violation, or invalid. The multi-objective counterpart of
/// [`Fitness`](crate::Fitness).
///
/// A value is any `f64` except NaN (infinities are allowed), held by its bits (`f64::to_bits`);
/// `-0.0` is the same as `0.0`. A constraint violation is 0 for a feasible solution and positive
/// for an infeasible one. An invalid solution can't be scored at all, and has no values.
#[derive(Debug, PartialEq, Eq, Hash)]
pub struct Scores {
    valid: bool,
    // the normalized bits of the values, none when invalid
    values: Vec<u64>,
    // the normalized bits of the violation, 0 when feasible or invalid
    violation: u64,
}

impl Scores {
    /// Valid scores hold normalized values that aren't NaN and a violation that isn't negative;
    /// invalid ones hold nothing.
    #[verifier::type_invariant]
    pub closed spec fn is_well_formed(self) -> bool {
        if self.valid {
            &&& forall|j: int| 0 <= j < self.values@.len() ==> !is_nan_bits(#[trigger] self.values@[j])
                && self.values@[j] != SIGN_BIT
            &&& !is_nan_bits(self.violation)
            &&& self.violation < SIGN_BIT
        } else {
            self.values@.len() == 0 && self.violation == 0
        }
    }

    /// Whether the scores are valid.
    pub closed spec fn spec_is_valid(&self) -> bool {
        self.valid
    }

    /// The normalized bits of the values (none when invalid).
    pub closed spec fn spec_values(&self) -> Seq<u64> {
        self.values@
    }

    /// The normalized bits of the constraint violation (0 when feasible or invalid).
    pub closed spec fn spec_violation(&self) -> u64 {
        self.violation
    }

    /// What the invariant says of the bits.
    pub proof fn lemma_well_formed(scores: &Scores)
        requires
            scores.is_well_formed(),
        ensures
            scores.spec_is_valid() ==> scores.spec_violation() < SIGN_BIT
                && forall|j: int| 0 <= j < scores.spec_values().len() ==> !is_nan_bits(#[trigger] scores.spec_values()[j]),
            !scores.spec_is_valid() ==> scores.spec_values().len() == 0 && scores.spec_violation() == 0,
    {
    }

    /// Scores with the values of these bits, invalid if one is NaN.
    pub fn new(values: Vec<u64>) -> (r: Scores)
        ensures
            r.spec_is_valid() == forall|j: int| 0 <= j < values@.len() ==> !is_nan_bits(#[trigger] values@[j]),
            r.spec_is_valid() ==> r.spec_values() == values@.map_values(|bits: u64| normalized_bits(bits))
                && r.spec_violation() == 0,
    {
        match Scores::try_new(values) {
            Ok(scores) => scores,
            Err(_) => Scores::invalid(),
        }
    }

    /// Scores with the values of these bits, or [`Error::NanFitness`] if one is NaN.
    pub fn try_new(values: Vec<u64>) -> (r: Result<Scores>)
        ensures
            r is Ok == forall|j: int| 0 <= j < values@.len() ==> !is_nan_bits(#[trigger] values@[j]),
            r matches Ok(s) ==> s.spec_is_valid() && s.spec_values() == values@.map_values(|bits: u64| normalized_bits(bits))
                && s.spec_violation() == 0,
            r matches Err(e) ==> e is NanFitness,
    {
        let mut normalized: Vec<u64> = Vec::new();
        let mut j: usize = 0;
        while j < values.len()
            invariant
                j <= values@.len(),
                normalized@ == values@.take(j as int).map_values(|bits: u64| normalized_bits(bits)),
                forall|i: int| 0 <= i < j ==> !is_nan_bits(#[trigger] values@[i]),
            decreases values@.len() - j,
        {
            let bits = values[j];
            if bits % SIGN_BIT > 0x7ff0_0000_0000_0000 {
                return Err(Error::NanFitness);
            }
            normalized.push(if bits == SIGN_BIT { 0 } else { bits });
            proof {
                assert(values@.take(j + 1) =~= values@.take(j as int).push(bits));
                assert(normalized@ =~= values@.take(j + 1).map_values(|bits: u64| normalized_bits(bits)));
            }
            j = j + 1;
        }
        proof {
            assert(values@.take(j as int) =~= values@);
        }
        Ok(Scores { valid: true, values: normalized, violation: 0 })
    }

    /// Scores with the values and constraint violation of these bits: invalid if one is NaN or
    /// the violation is negative.
    pub fn constrained(values: Vec<u64>, violation: u64) -> (r: Scores)
        ensures
            r.spec_is_valid() == (!is_nan_bits(violation) && normalized_bits(violation) < SIGN_BIT
                && forall|j: int| 0 <= j < values@.len() ==> !is_nan_bits(#[trigger] values@[j])),
            r.spec_is_valid() ==> r.spec_values() == values@.map_values(|bits: u64| normalized_bits(bits))
                && r.spec_violation() == normalized_bits(violation),
    {
        match Scores::try_constrained(values, violation) {
            Ok(scores) => scores,
            Err(_) => Scores::invalid(),
        }
    }

    /// Scores with the values and constraint violation of these bits, or
    /// [`Error::NanFitness`] for a NaN value or violation, and [`Error::InvalidFitness`] for a
    /// negative violation.
    pub fn try_constrained(values: Vec<u64>, violation: u64) -> (r: Result<Scores>)
        ensures
            r is Ok == (!is_nan_bits(violation) && normalized_bits(violation) < SIGN_BIT
                && forall|j: int| 0 <= j < values@.len() ==> !is_nan_bits(#[trigger] values@[j])),
            r matches Ok(s) ==> s.spec_is_valid() && s.spec_values() == values@.map_values(|bits: u64| normalized_bits(bits))
                && s.spec_violation() == normalized_bits(violation),
            r matches Err(e) ==> {
                if is_nan_bits(violation) || exists|j: int| 0 <= j < values@.len() && is_nan_bits(#[trigger] values@[j]) {
                    e is NanFitness
                } else {
                    e is InvalidFitness
                }
            },
    {
        if violation % SIGN_BIT > 0x7ff0_0000_0000_0000 {
            return Err(Error::NanFitness);
        }
        let normalized: u64 = if violation == SIGN_BIT { 0 } else { violation };
        let scores = match Scores::try_new(values) {
            Ok(scores) => scores,
            Err(e) => return Err(e),
        };
        if normalized >= SIGN_BIT {
            return Err(Error::InvalidFitness { reason: reason("a constraint violation can't be negative") });
        }
        proof {
            use_type_invariant(&scores);
        }
        Ok(Scores { valid: true, values: scores.values, violation: normalized })
    }

    /// The scores of a solution that can't be scored.
    pub fn invalid() -> (r: Scores)
        ensures
            !r.spec_is_valid(),
            r.spec_values().len() == 0,
            r.spec_violation() == 0,
    {
        Scores { valid: false, values: Vec::new(), violation: 0 }
    }

    /// The bits of the objective values, or `None` for invalid scores.
    pub fn values(&self) -> (r: Option<Vec<u64>>)
        ensures
            r is None <==> !self.spec_is_valid(),
            r matches Some(v) ==> v@ == self.spec_values(),
    {
        if self.valid {
            Some(self.values.clone())
        } else {
            None
        }
    }

    /// The number of objective values: none for invalid scores.
    pub fn len(&self) -> (r: usize)
        ensures
            r == self.spec_values().len(),
    {
        self.values.len()
    }

    /// The bits of the objective value `j`.
    pub fn value(&self, j: usize) -> (r: u64)
        requires
            j < self.spec_values().len(),
        ensures
            r == self.spec_values()[j as int],
    {
        self.values[j]
    }

    /// Whether these scores have objective values.
    pub fn is_valid(&self) -> (r: bool)
        ensures
            r == self.spec_is_valid(),
    {
        self.valid
    }

    /// The bits of the constraint violation: 0 for a feasible solution (and for an invalid one).
    pub fn violation(&self) -> (r: u64)
        ensures
            r == self.spec_violation(),
    {
        self.violation
    }

    /// Whether these scores are the same as `other`: equal objective values and violations (every
    /// invalid solution is the same as every other). What `==` computes, for verified code.
    pub fn equals(&self, other: &Scores) -> (r: bool)
        ensures
            r == same_scores(*self, *other),
    {
        if self.valid != other.valid || self.violation != other.violation || self.values.len() != other.values.len() {
            return false;
        }
        let mut j: usize = 0;
        while j < self.values.len()
            invariant
                j <= self.values@.len(),
                self.values@.len() == other.values@.len(),
                forall|i: int| 0 <= i < j ==> #[trigger] self.values@[i] == other.values@[i],
            decreases self.values@.len() - j,
        {
            if self.values[j] != other.values[j] {
                return false;
            }
            j = j + 1;
        }
        proof {
            assert(self.values@ =~= other.values@);
        }
        true
    }

    /// Whether these scores are valid and have no constraint violation.
    pub fn is_feasible(&self) -> (r: bool)
        ensures
            r == (self.spec_is_valid() && self.spec_violation() == 0),
    {
        self.valid && self.violation == 0
    }
}

impl Clone for Scores {
    /// The same scores.
    fn clone(&self) -> (r: Self)
        ensures
            r.spec_is_valid() == self.spec_is_valid(),
            r.spec_values() == self.spec_values(),
            r.spec_violation() == self.spec_violation(),
    {
        proof {
            use_type_invariant(self);
        }
        Scores { valid: self.valid, values: self.values.clone(), violation: self.violation }
    }
}

/// Whether `a` and `b` are the same scores: both valid or both invalid, with the same values and
/// violation.
pub open spec fn same_scores(a: Scores, b: Scores) -> bool {
    &&& a.spec_is_valid() == b.spec_is_valid()
    &&& a.spec_values() == b.spec_values()
    &&& a.spec_violation() == b.spec_violation()
}

/// The key by which a value's bits are minimized for `objective`: the order of the values,
/// reversed for an objective to maximize.
pub open spec fn minimized_key(objective: Objective, bits: u64) -> u64 {
    match objective {
        Objective::Minimize => score_key(bits) as u64,
        Objective::Maximize => (u64::MAX - score_key(bits)) as u64,
    }
}

/// The minimized keys of the values.
pub open spec fn minimized(values: Seq<u64>, objectives: Seq<Objective>) -> Seq<u64> {
    Seq::new(values.len(), |j: int| minimized_key(objectives[j], values[j]))
}

/// Pareto dominance between minimized keys: `a` at least as good in every objective and better
/// in one.
pub open spec fn pareto_dominates(a: Seq<u64>, b: Seq<u64>) -> bool {
    &&& a.len() == b.len()
    &&& forall|j: int| 0 <= j < a.len() ==> #[trigger] a[j] <= b[j]
    &&& exists|j: int| 0 <= j < a.len() && #[trigger] a[j] < b[j]
}

/// Whether `a` dominates `b`, by constrained dominance (Deb, 2000): every valid solution
/// dominates an invalid one; a feasible one dominates an infeasible one; between infeasible
/// ones, the smaller violation dominates; between feasible ones, Pareto dominance.
pub open spec fn dominance(a: Scores, b: Scores, objectives: Seq<Objective>) -> bool {
    if !a.spec_is_valid() {
        false
    } else if !b.spec_is_valid() {
        true
    } else if a.spec_violation() != b.spec_violation() {
        a.spec_violation() < b.spec_violation()
    } else if a.spec_violation() != 0 {
        false
    } else {
        pareto_dominates(minimized(a.spec_values(), objectives), minimized(b.spec_values(), objectives))
    }
}

} // verus!
