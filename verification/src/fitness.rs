//! Fitness values and the direction of optimization.
//!
//! A score is an `f64`, held here by its IEEE 754 bits (`f64::to_bits`): every comparison of
//! fitness values is a comparison of integers that orders the bits as the floating-point values
//! they stand for.

use vstd::prelude::*;

verus! {

/// The sign bit of an `f64`.
pub const SIGN_BIT: u64 = 0x8000_0000_0000_0000;

/// The bits of positive infinity: greater magnitudes (without the sign) are NaN.
pub const INFINITY_BITS: u64 = 0x7ff0_0000_0000_0000;

/// Whether the `f64` with these bits is NaN.
pub open spec fn is_nan_bits(bits: u64) -> bool {
    bits % SIGN_BIT > INFINITY_BITS
}

/// The bits with `-0.0` turned into `0.0`.
pub open spec fn normalized_bits(bits: u64) -> u64 {
    if bits == SIGN_BIT { 0 } else { bits }
}

/// An integer that orders the bits of non-NaN `f64` values as the values: negative values
/// (sign bit set) below positive ones, larger magnitudes further from zero.
pub open spec fn score_key(bits: u64) -> int {
    if bits >= SIGN_BIT { u64::MAX - bits } else { bits + SIGN_BIT }
}

/// Whether the score is maximized or minimized.
#[derive(Clone, Copy, Debug, PartialEq, Eq, Structural)]
pub enum Objective {
    /// Larger scores are better.
    Maximize,
    /// Smaller scores are better.
    Minimize,
}

/// The fitness of an evaluated solution: a score, optionally with a constraint violation, or
/// invalid.
///
/// A score is any `f64` but NaN (infinities are allowed), held by its bits; `-0.0` is the same as
/// `0.0`. A constraint violation is 0 for a feasible solution and positive for an infeasible one.
/// An invalid solution couldn't be scored at all.
#[derive(Clone, Copy, Debug, PartialEq, Eq, Structural)]
pub struct Fitness {
    valid: bool,
    // the normalized bits of the score, 0 when invalid
    score: u64,
    // the normalized bits of the violation, 0 when feasible or invalid
    violation: u64,
}

impl Fitness {
    /// The fitness values there are: an invalid one has no score or violation, a valid one has
    /// normalized bits, neither NaN, and a violation that isn't negative.
    #[verifier::type_invariant]
    pub closed spec fn is_well_formed(self) -> bool {
        if self.valid {
            &&& !is_nan_bits(self.score)
            &&& self.score != SIGN_BIT
            &&& !is_nan_bits(self.violation)
            &&& self.violation < SIGN_BIT
        } else {
            self.score == 0 && self.violation == 0
        }
    }

    /// The fitness of a solution that can't be scored.
    pub closed spec fn spec_invalid() -> Fitness {
        Fitness { valid: false, score: 0, violation: 0 }
    }

    /// Whether the fitness is valid.
    pub closed spec fn spec_is_valid(self) -> bool {
        self.valid
    }

    /// The normalized bits of the score (0 when invalid).
    pub closed spec fn spec_score_bits(self) -> u64 {
        self.score
    }

    /// The normalized bits of the constraint violation (0 when feasible or invalid).
    pub closed spec fn spec_violation_bits(self) -> u64 {
        self.violation
    }

    /// The fitness with the score of these bits, invalid if they're NaN.
    pub fn new(score_bits: u64) -> (f: Fitness)
        ensures
            f.spec_is_valid() == !is_nan_bits(score_bits),
            f.spec_is_valid() ==> f.spec_score_bits() == normalized_bits(score_bits) && f.spec_violation_bits() == 0,
    {
        if score_bits % SIGN_BIT > INFINITY_BITS {
            Fitness::invalid()
        } else {
            Fitness { valid: true, score: if score_bits == SIGN_BIT { 0 } else { score_bits }, violation: 0 }
        }
    }

    /// The fitness with the score and constraint violation of these bits: invalid if either is
    /// NaN or the violation is negative.
    pub fn constrained(score_bits: u64, violation_bits: u64) -> (f: Fitness)
        ensures
            f.spec_is_valid() == (!is_nan_bits(score_bits) && !is_nan_bits(violation_bits)
                && normalized_bits(violation_bits) < SIGN_BIT),
            f.spec_is_valid() ==> f.spec_score_bits() == normalized_bits(score_bits)
                && f.spec_violation_bits() == normalized_bits(violation_bits),
    {
        let violation = if violation_bits == SIGN_BIT { 0 } else { violation_bits };
        if score_bits % SIGN_BIT > INFINITY_BITS || violation_bits % SIGN_BIT > INFINITY_BITS || violation >= SIGN_BIT {
            Fitness::invalid()
        } else {
            Fitness { valid: true, score: if score_bits == SIGN_BIT { 0 } else { score_bits }, violation }
        }
    }

    /// The fitness of a solution that can't be scored.
    pub fn invalid() -> (f: Fitness)
        ensures
            f == Fitness::spec_invalid(),
            !f.spec_is_valid(),
            f.spec_score_bits() == 0,
            f.spec_violation_bits() == 0,
    {
        Fitness { valid: false, score: 0, violation: 0 }
    }

    /// Whether the fitness has a score.
    pub fn is_valid(&self) -> (r: bool)
        ensures
            r == self.spec_is_valid(),
    {
        self.valid
    }

    /// Whether the fitness is valid and without constraint violation.
    pub fn is_feasible(&self) -> (r: bool)
        ensures
            r == (self.spec_is_valid() && self.spec_violation_bits() == 0),
    {
        self.valid && self.violation == 0
    }

    /// The bits of the score, or `None` if invalid.
    pub fn score_bits(&self) -> (r: Option<u64>)
        ensures
            r == (if self.spec_is_valid() { Some(self.spec_score_bits()) } else { None }),
    {
        if self.valid { Some(self.score) } else { None }
    }

    /// The bits of the constraint violation: those of 0 when feasible or invalid.
    pub fn violation_bits(&self) -> (r: u64)
        ensures
            r == self.spec_violation_bits(),
    {
        self.violation
    }

    /// Every fitness is well formed.
    pub proof fn lemma_well_formed(f: Fitness)
        requires
            f.is_well_formed(),
        ensures
            !f.spec_is_valid() ==> f.spec_score_bits() == 0 && f.spec_violation_bits() == 0,
            f.spec_is_valid() ==> f.spec_violation_bits() < SIGN_BIT,
    {
    }
}

/// The standing of a fitness for an objective, lexicographically smaller is better: valid and
/// feasible first, by score; then infeasible, by violation (smaller first, whatever the score);
/// then invalid.
pub open spec fn standing(objective: Objective, f: Fitness) -> (int, int, int) {
    if !f.spec_is_valid() {
        (2, 0, 0)
    } else if f.spec_violation_bits() > 0 {
        (1, f.spec_violation_bits() as int, 0)
    } else {
        (0, 0, match objective {
            Objective::Minimize => score_key(f.spec_score_bits()),
            Objective::Maximize => -score_key(f.spec_score_bits()),
        })
    }
}

/// Whether the triple `x` comes before `y` lexicographically.
pub open spec fn lex_less(x: (int, int, int), y: (int, int, int)) -> bool {
    x.0 < y.0 || (x.0 == y.0 && (x.1 < y.1 || (x.1 == y.1 && x.2 < y.2)))
}

/// Whether `a` is strictly better than `b` for `objective`.
pub open spec fn better(objective: Objective, a: Fitness, b: Fitness) -> bool {
    lex_less(standing(objective, a), standing(objective, b))
}

/// "Better" is a strict weak order: irreflexive, transitive, and so is "not better".
pub proof fn lemma_better_is_strict_weak_order(objective: Objective, a: Fitness, b: Fitness, c: Fitness)
    ensures
        !better(objective, a, a),
        better(objective, a, b) ==> !better(objective, b, a),
        better(objective, a, b) && better(objective, b, c) ==> better(objective, a, c),
        !better(objective, a, b) && !better(objective, b, c) ==> !better(objective, a, c),
{
}

impl Objective {
    /// Whether `a` is strictly better than `b`.
    pub fn is_better(&self, a: Fitness, b: Fitness) -> (r: bool)
        ensures
            r == better(*self, a, b),
    {
        proof {
            use_type_invariant(&a);
            use_type_invariant(&b);
        }
        if !a.valid {
            return false;
        }
        if !b.valid {
            return true;
        }
        if a.violation != b.violation {
            return a.violation < b.violation;
        }
        if a.violation > 0 {
            return false;
        }
        let (ka, kb) = (key(a.score), key(b.score));
        match self {
            Objective::Minimize => ka < kb,
            Objective::Maximize => ka > kb,
        }
    }

    /// `a` compared with `b` by how good they are: `Greater` when `a` is better, `Less` when `b`
    /// is better, `Equal` when neither is. Sorting by it puts the worst first.
    pub fn compare(&self, a: Fitness, b: Fitness) -> (r: std::cmp::Ordering)
        ensures
            (r == std::cmp::Ordering::Greater) == better(*self, a, b),
            (r == std::cmp::Ordering::Less) == better(*self, b, a),
    {
        proof {
            lemma_better_is_strict_weak_order(*self, a, b, a);
        }
        if self.is_better(a, b) {
            std::cmp::Ordering::Greater
        } else if self.is_better(b, a) {
            std::cmp::Ordering::Less
        } else {
            std::cmp::Ordering::Equal
        }
    }
}

/// The order key of score bits, as a `u64`: [`score_key`].
pub(crate) fn key(bits: u64) -> (k: u64)
    ensures
        k == score_key(bits),
{
    if bits >= SIGN_BIT { u64::MAX - bits } else { bits + SIGN_BIT }
}

} // verus!
