//! CKKS ciphertext metadata and the decisions of complex conjugation.
//!
//! A CKKS ciphertext carries, besides its GLWE data, the base-2 logarithm of
//! its scaling factor (`log_delta`) and the number of bits of precision it
//! has left to spend (`log_budget`). Conjugation into a destination that is
//! narrower than the source first shifts the source left by an `offset`
//! number of bits, which costs that many bits of budget.
use vstd::prelude::*;

verus! {

/// Scaling factor and remaining budget of a CKKS ciphertext, in bits.
#[derive(Clone, Copy, Debug, PartialEq, Eq, Structural)]
pub struct CKKSMeta {
    pub log_delta: usize,
    pub log_budget: usize,
}

/// Why a CKKS operation was refused.
#[derive(Clone, Copy, Debug, PartialEq, Eq, Structural)]
pub enum CKKSError {
    /// The operation needs `offset` bits of budget, and only `log_budget` are left.
    InsufficientLogBudget { log_budget: usize, offset: usize },
}

/// How conjugation moves the source into the destination.
#[derive(Clone, Copy, Debug, PartialEq, Eq, Structural)]
pub enum ConjugateStep {
    /// Shift the source left by `shift` bits into the destination, then
    /// apply the conjugation automorphism to the destination in place.
    ShiftThenAutomorphism { shift: usize },
    /// Apply the conjugation automorphism from the source into the destination.
    Automorphism,
}

/// Spends `offset` bits of a budget of `log_budget` bits.
pub fn checked_log_budget_sub(log_budget: usize, offset: usize) -> (r: Result<usize, CKKSError>)
    ensures
        offset <= log_budget ==> r == Ok::<usize, CKKSError>((log_budget - offset) as usize),
        offset > log_budget ==> r == Err::<usize, CKKSError>(
            CKKSError::InsufficientLogBudget { log_budget, offset },
        ),
{
    if offset <= log_budget {
        Ok(log_budget - offset)
    } else {
        Err(CKKSError::InsufficientLogBudget { log_budget, offset })
    }
}

/// The step conjugation takes for a source that must be shifted by `offset`
/// bits to fit the destination: shift first when `offset != 0`.
pub fn ckks_conjugate_step(offset: usize) -> (r: ConjugateStep)
    ensures
        offset != 0 ==> r == (ConjugateStep::ShiftThenAutomorphism { shift: offset }),
        offset == 0 ==> r == ConjugateStep::Automorphism,
{
    if offset != 0 {
        ConjugateStep::ShiftThenAutomorphism { shift: offset }
    } else {
        ConjugateStep::Automorphism
    }
}

/// The metadata of the destination of a conjugation from a source with
/// metadata `src`, shifted by `offset` bits.
///
/// The destination takes the source's metadata, then spends `offset` bits of
/// its budget. When the budget is too small the error is returned and the
/// destination keeps the source's metadata unchanged.
pub fn ckks_conjugate_meta(dst: &mut CKKSMeta, src: &CKKSMeta, offset: usize) -> (r: Result<(), CKKSError>)
    ensures
        final(dst).log_delta == src.log_delta,
        r is Ok <==> offset <= src.log_budget,
        r is Ok ==> final(dst).log_budget == src.log_budget - offset,
        r is Err ==> *final(dst) == *src && r == Err::<(), CKKSError>(
            CKKSError::InsufficientLogBudget { log_budget: src.log_budget, offset },
        ),
{
    *dst = *src;
    match checked_log_budget_sub(dst.log_budget, offset) {
        Ok(b) => {
            dst.log_budget = b;
            Ok(())
        },
        Err(e) => Err(e),
    }
}

} // verus!
