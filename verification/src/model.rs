//! The integer decisions around sensitivity models: sample counts, the kinds of model a
//! stored table names, and when a curve gives way to a single score.

use vstd::prelude::*;

use crate::protocol::same_text;

verus! {

/// Why a model could not be fitted or its samples were refused.
#[derive(Debug, Clone, PartialEq, Eq)]
pub enum ModelError {
    NotEnoughSamples { needed: usize, provided: usize },
    MissingBaselineSample,
    InvalidBandwidth,
    InvalidCompletionTime,
    SingularMatrix,
    EmptySamples,
}

/// Whether `provided` samples suffice to fit a polynomial of the given degree: one more
/// sample than the degree is needed.
pub fn check_sample_count(degree_of_polynomial: usize, provided: usize) -> (res: Result<(), ModelError>)
    requires
        degree_of_polynomial < usize::MAX,
    ensures
        provided < degree_of_polynomial + 1 ==> res == Err::<(), ModelError>(
            ModelError::NotEnoughSamples { needed: (degree_of_polynomial + 1) as usize, provided },
        ),
        provided >= degree_of_polynomial + 1 ==> res is Ok,
{
    let needed = degree_of_polynomial + 1;
    if provided < needed {
        return Err(ModelError::NotEnoughSamples { needed, provided });
    }
    Ok(())
}

/// Whether a failed curve fit is replaced by a score model: when there were too few
/// samples or the regression had no solution.
pub fn falls_back_to_score(err: &ModelError) -> (res: bool)
    ensures
        res == (err is NotEnoughSamples || err is SingularMatrix),
{
    match err {
        ModelError::NotEnoughSamples { .. } => true,
        ModelError::SingularMatrix => true,
        _ => false,
    }
}

/// The kinds of model a stored sensitivity table holds.
#[derive(Debug, Clone, Copy, PartialEq, Eq)]
pub enum ModelKind {
    Curve,
    Score,
}

/// The stored name of a curve model.
pub open spec fn curve_word() -> Seq<char> {
    seq!['c', 'u', 'r', 'v', 'e']
}

/// The stored name of a score model.
pub open spec fn score_word() -> Seq<char> {
    seq!['s', 'c', 'o', 'r', 'e']
}

/// The kind of model a stored type name denotes; other names are skipped.
pub fn model_kind(model_type: &str) -> (res: Option<ModelKind>)
    ensures
        res == if model_type@ == curve_word() {
            Some(ModelKind::Curve)
        } else if model_type@ == score_word() {
            Some(ModelKind::Score)
        } else {
            None
        },
{
    let c = "curve";
    let s = "score";
    proof {
        reveal_strlit("curve");
        reveal_strlit("score");
        assert(c@ =~= curve_word());
        assert(s@ =~= score_word());
    }
    if same_text(model_type, c) {
        Some(ModelKind::Curve)
    } else if same_text(model_type, s) {
        Some(ModelKind::Score)
    } else {
        None
    }
}

/// The degree of a stored curve: the one given, or one less than the number of
/// coefficients (0 when there are none).
pub fn curve_degree(degree: Option<usize>, n_coefficients: usize) -> (res: usize)
    ensures
        res == match degree {
            Some(d) => d,
            None => if n_coefficients > 0 {
                (n_coefficients - 1) as usize
            } else {
                0
            },
        },
{
    match degree {
        Some(d) => d,
        None => n_coefficients.saturating_sub(1),
    }
}

} // verus!
