use baby_bear::protocol::{
    check_quotient_value, exact_log2, quotient_parts, trace_domain_generator, TranscriptProtocol,
    TranscriptStep, VerificationError,
};
use baby_bear::BabyBear;

#[test]
fn transcript_steps_in_order() {
    let mut p = TranscriptProtocol::new();
    let expected = [
        TranscriptStep::ObserveFixed,
        TranscriptStep::ObserveAdvice,
        TranscriptStep::ObserveInstance,
        TranscriptStep::SampleGamma,
        TranscriptStep::ObserveMultisetF,
        TranscriptStep::ObserveMultisetSums,
        TranscriptStep::SampleAlpha,
        TranscriptStep::ObserveQuotient,
        TranscriptStep::SampleZeta,
    ];
    for step in expected {
        assert!(!p.is_done());
        assert_eq!(p.advance(), Some(step));
    }
    assert!(p.is_done());
    assert_eq!(p.advance(), None);
    assert_eq!(p.advance(), None);
}

#[test]
fn two_runs_give_the_same_schedule() {
    let mut a = TranscriptProtocol::new();
    let mut b = TranscriptProtocol::new();
    for _ in 0..10 {
        assert_eq!(a.advance(), b.advance());
    }
}

#[test]
fn logs_of_powers_of_two() {
    assert_eq!(exact_log2(1), Some(0));
    assert_eq!(exact_log2(2), Some(1));
    assert_eq!(exact_log2(64), Some(6));
    assert_eq!(exact_log2(0), None);
    assert_eq!(exact_log2(3), None);
    assert_eq!(exact_log2(96), None);
    assert_eq!(exact_log2(1usize << 63), Some(63));
    assert_eq!(exact_log2(usize::MAX), None);
}

#[test]
fn quotient_parts_are_bit_reversed() {
    let values: Vec<u32> = (0..8).collect();
    let parts = quotient_parts(&values, 2).unwrap();
    assert_eq!(parts, vec![vec![0, 1], vec![4, 5], vec![2, 3], vec![6, 7]]);
    let values: Vec<u32> = (0..8).collect();
    let parts = quotient_parts(&values, 1).unwrap();
    assert_eq!(parts, vec![vec![0], vec![4], vec![2], vec![6], vec![1], vec![5], vec![3], vec![7]]);
    let parts = quotient_parts(&vec![9u32, 8, 7, 6], 4).unwrap();
    assert_eq!(parts, vec![vec![9, 8, 7, 6]]);
}

#[test]
fn malformed_quotient_shapes() {
    assert_eq!(quotient_parts(&vec![1u32, 2, 3], 2), Err(VerificationError::MalformedProof));
    assert_eq!(quotient_parts(&vec![1u32, 2, 3], 1), Err(VerificationError::MalformedProof));
    assert_eq!(quotient_parts(&vec![1u32, 2], 0), Err(VerificationError::MalformedProof));
    assert_eq!(quotient_parts(&Vec::<u32>::new(), 4), Err(VerificationError::MalformedProof));
}

#[test]
fn trace_domain_generators() {
    assert_eq!(trace_domain_generator(0), Ok(BabyBear::one()));
    assert_eq!(trace_domain_generator(1), Ok(BabyBear::neg_one()));
    assert_eq!(trace_domain_generator(27), Ok(BabyBear::power_of_two_generator()));
    assert_eq!(trace_domain_generator(28), Err(VerificationError::MalformedProof));
}

#[test]
fn final_check() {
    let a = vec![BabyBear::one(), BabyBear::two()];
    let b = vec![BabyBear::one(), BabyBear::two()];
    assert_eq!(check_quotient_value(&a, &b), Ok(()));
    let c = vec![BabyBear::one(), BabyBear::one()];
    assert_eq!(check_quotient_value(&a, &c), Err(VerificationError::OodEvaluationMismatch));
    assert_eq!(check_quotient_value(&a, &vec![BabyBear::one()]), Err(VerificationError::OodEvaluationMismatch));
}
