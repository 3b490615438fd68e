use poulpy::ckks::{checked_log_budget_sub, ckks_conjugate_meta, ckks_conjugate_step, CKKSError, CKKSMeta, ConjugateStep};

#[test]
fn budget_sub_ok_and_exact() {
    assert_eq!(checked_log_budget_sub(20, 7), Ok(13));
    assert_eq!(checked_log_budget_sub(7, 7), Ok(0));
}

#[test]
fn budget_sub_refused() {
    assert_eq!(
        checked_log_budget_sub(3, 4),
        Err(CKKSError::InsufficientLogBudget { log_budget: 3, offset: 4 })
    );
}

#[test]
fn conjugate_step_shift_when_offset() {
    assert_eq!(ckks_conjugate_step(0), ConjugateStep::Automorphism);
    assert_eq!(ckks_conjugate_step(5), ConjugateStep::ShiftThenAutomorphism { shift: 5 });
}

#[test]
fn conjugate_meta_aligned_keeps_source_meta() {
    let src = CKKSMeta { log_delta: 40, log_budget: 60 };
    let mut dst = CKKSMeta { log_delta: 1, log_budget: 2 };
    assert_eq!(ckks_conjugate_meta(&mut dst, &src, 0), Ok(()));
    assert_eq!(dst, src);
}

#[test]
fn conjugate_meta_shift_spends_budget() {
    let src = CKKSMeta { log_delta: 40, log_budget: 60 };
    let mut dst = CKKSMeta { log_delta: 0, log_budget: 0 };
    assert_eq!(ckks_conjugate_meta(&mut dst, &src, 17), Ok(()));
    assert_eq!(dst, CKKSMeta { log_delta: 40, log_budget: 43 });
}

#[test]
fn conjugate_meta_insufficient_budget() {
    let src = CKKSMeta { log_delta: 40, log_budget: 10 };
    let mut dst = CKKSMeta { log_delta: 0, log_budget: 0 };
    assert_eq!(
        ckks_conjugate_meta(&mut dst, &src, 11),
        Err(CKKSError::InsufficientLogBudget { log_budget: 10, offset: 11 })
    );
    assert_eq!(dst, src);
}
