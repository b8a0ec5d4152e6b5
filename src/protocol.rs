//! The decisions of the verifier: the fixed order of transcript operations,
//! the shape checks on a proof, and the reordering of the opened quotient
//! parts. The transcript, the commitment scheme and the extension field are
//! driven by the caller, which performs each step that this module names.

use vstd::prelude::*;
use vstd::arithmetic::power2::*;
use crate::field::BabyBear;
use crate::field::fpow;
use crate::field::two_adic_root;

verus! {

/// Why a proof was rejected.
#[derive(Clone, Copy, Debug, PartialEq, Eq, Structural)]
pub enum VerificationError {
    /// The commitment scheme rejected the batched opening.
    InvalidOpeningArgument,
    /// The proof's shape does not fit the protocol.
    MalformedProof,
    /// The reconstructed quotient value differs from the expected one.
    OodEvaluationMismatch,
}

/// One operation on the transcript.
#[derive(Clone, Copy, Debug, PartialEq, Eq, Structural)]
pub enum TranscriptStep {
    ObserveFixed,
    ObserveAdvice,
    ObserveInstance,
    SampleGamma,
    ObserveMultisetF,
    ObserveMultisetSums,
    SampleAlpha,
    ObserveQuotient,
    SampleZeta,
}

/// The transcript operations of one verification, in the order they must run.
pub open spec fn transcript_schedule() -> Seq<TranscriptStep> {
    seq![
        TranscriptStep::ObserveFixed,
        TranscriptStep::ObserveAdvice,
        TranscriptStep::ObserveInstance,
        TranscriptStep::SampleGamma,
        TranscriptStep::ObserveMultisetF,
        TranscriptStep::ObserveMultisetSums,
        TranscriptStep::SampleAlpha,
        TranscriptStep::ObserveQuotient,
        TranscriptStep::SampleZeta,
    ]
}

/// The position of a verification in the transcript protocol.
pub struct TranscriptProtocol {
    next: usize,
}

impl View for TranscriptProtocol {
    type V = nat;

    /// How many steps have been handed out.
    closed spec fn view(&self) -> nat {
        self.next as nat
    }
}

impl TranscriptProtocol {
    /// A protocol with no step taken yet.
    pub fn new() -> (r: Self)
        ensures
            r@ == 0,
    {
        TranscriptProtocol { next: 0 }
    }

    /// Whether every step has been handed out.
    pub fn is_done(&self) -> (r: bool)
        ensures
            r == (self@ >= transcript_schedule().len()),
    {
        self.next >= 9
    }

    /// Hands out the next step, or `None` once the protocol is finished.
    pub fn advance(&mut self) -> (r: Option<TranscriptStep>)
        ensures
            old(self)@ < transcript_schedule().len() ==> r == Some(transcript_schedule()[old(self)@ as int])
                && final(self)@ == old(self)@ + 1,
            old(self)@ >= transcript_schedule().len() ==> r.is_none() && final(self)@ == old(self)@,
    {
        let step = match self.next {
            0 => TranscriptStep::ObserveFixed,
            1 => TranscriptStep::ObserveAdvice,
            2 => TranscriptStep::ObserveInstance,
            3 => TranscriptStep::SampleGamma,
            4 => TranscriptStep::ObserveMultisetF,
            5 => TranscriptStep::ObserveMultisetSums,
            6 => TranscriptStep::SampleAlpha,
            7 => TranscriptStep::ObserveQuotient,
            8 => TranscriptStep::SampleZeta,
            _ => {
                return None;
            },
        };
        self.next = self.next + 1;
        Some(step)
    }
}

/// The schedule holds nine distinct steps, and samples `gamma`, `alpha` and
/// `zeta` at positions 3, 6 and 8, each after the observations that it binds.
pub proof fn lemma_schedule_order()
    ensures
        transcript_schedule().len() == 9,
        transcript_schedule()[3] == TranscriptStep::SampleGamma,
        transcript_schedule()[6] == TranscriptStep::SampleAlpha,
        transcript_schedule()[8] == TranscriptStep::SampleZeta,
        forall|i: int, j: int|
            0 <= i < 9 && 0 <= j < 9 && transcript_schedule()[i] == transcript_schedule()[j] ==> i == j,
{
}

/// The generator of the order-`2^log_degree` subgroup, the trace domain.
pub fn trace_domain_generator(log_degree: usize) -> (r: Result<BabyBear, VerificationError>)
    ensures
        log_degree <= 27 ==> (r matches Ok(g) && g@ == fpow(two_adic_root(), pow2((27 - log_degree) as nat))),
        log_degree > 27 ==> r == Err::<BabyBear, VerificationError>(VerificationError::MalformedProof),
{
    if log_degree > 27 {
        return Err(VerificationError::MalformedProof);
    }
    Ok(BabyBear::two_adic_generator(log_degree))
}

/// The `bits`-bit reversal of the low `bits` bits of `i`.
pub open spec fn bit_reverse(i: nat, bits: nat) -> nat
    decreases bits,
{
    if bits == 0 {
        0
    } else {
        (i % 2) * pow2((bits - 1) as nat) + bit_reverse(i / 2, (bits - 1) as nat)
    }
}

/// A `bits`-bit reversal stays below `2^bits`.
proof fn lemma_bit_reverse_bound(i: nat, bits: nat)
    ensures
        bit_reverse(i, bits) < pow2(bits),
    decreases bits,
{
    lemma_pow2_pos(bits);
    if bits > 0 {
        lemma_bit_reverse_bound(i / 2, (bits - 1) as nat);
        lemma_pow2_unfold(bits);
        assert((i % 2) * pow2((bits - 1) as nat) <= pow2((bits - 1) as nat)) by (nonlinear_arith)
            requires i % 2 <= 1;
    }
}

/// Relies on p3_util::reverse_slice_index_bits: for a slice of length `2^k`,
/// the element at index `i` moves to index `bit_reverse(i, k)`; an empty slice
/// stays as it is; any other length panics.
#[verifier::external_body]
fn reverse_index_bits<T: Send + Sync>(v: &mut Vec<T>)
    requires
        old(v).len() == 0 || exists|k: nat| pow2(k) == old(v).len(),
    ensures
        final(v)@.len() == old(v)@.len(),
        forall|k: nat| #[trigger] pow2(k) == old(v)@.len() ==> forall|i: int|
            0 <= i < old(v)@.len() ==> #[trigger] final(v)@[i] == old(v)@[bit_reverse(i as nat, k) as int],
{
    p3_util::reverse_slice_index_bits(v.as_mut_slice())
}

/// The `k` with `n == 2^k`, if there is one.
pub fn exact_log2(n: usize) -> (r: Option<usize>)
    ensures
        r matches Some(k) ==> pow2(k as nat) == n,
        r.is_none() ==> forall|k: nat| pow2(k) != n,
{
    let mut k: usize = 0;
    let mut p: usize = 1;
    proof {
        lemma2_to64();
    }
    while p < n && p <= usize::MAX / 2
        invariant
            p == pow2(k as nat),
            k < p,
            forall|j: nat| j < k ==> #[trigger] pow2(j) < n,
        decreases usize::MAX - p,
    {
        proof {
            lemma_pow2_unfold((k + 1) as nat);
            assert forall|j: nat| j < k + 1 implies #[trigger] pow2(j) < n by {
                if j == k {
                } else {
                }
            }
        }
        p = p * 2;
        k = k + 1;
    }
    if p == n {
        Some(k)
    } else {
        proof {
            lemma_pow2_unfold((k + 1) as nat);
            assert forall|j: nat| pow2(j) != n by {
                if j < k {
                } else if j == k {
                } else {
                    lemma_pow2_strictly_increases(k as nat, j);
                    if j > k + 1 {
                        lemma_pow2_strictly_increases((k + 1) as nat, j);
                    }
                }
            }
        }
        None
    }
}

/// Splits the opened quotient values into parts of `d` values each, one part
/// per piece of the quotient (its coefficients in the monomial basis of a
/// degree-`d` extension), and puts the parts from bit-reversed into natural
/// order.
pub fn quotient_parts<T: Copy + Send + Sync>(values: &Vec<T>, d: usize) -> (r: Result<Vec<Vec<T>>, VerificationError>)
    ensures
        r is Ok <==> (d > 0 && values@.len() % (d as nat) == 0 && exists|k: nat| pow2(k) == values@.len() / (d as nat)),
        r is Err ==> r == Err::<Vec<Vec<T>>, VerificationError>(VerificationError::MalformedProof),
        r matches Ok(parts) ==> parts@.len() == values@.len() / (d as nat) && forall|k: nat| #[trigger] pow2(k) == parts@.len() ==> forall|j: int|
            0 <= j < parts@.len() ==> (#[trigger] parts@[j])@ == values@.subrange(
                d * bit_reverse(j as nat, k),
                d * bit_reverse(j as nat, k) + d,
            ),
{
    if d == 0 || values.len() % d != 0 {
        return Err(VerificationError::MalformedProof);
    }
    let total = values.len();
    let count = total / d;
    let log_count = match exact_log2(count) {
        Some(k) => k,
        None => {
            return Err(VerificationError::MalformedProof);
        },
    };
    let mut parts: Vec<Vec<T>> = Vec::new();
    let mut j: usize = 0;
    while j < count
        invariant
            j <= count,
            total == values@.len(),
            count == values@.len() / (d as nat),
            d > 0,
            values@.len() % (d as nat) == 0,
            parts@.len() == j,
            forall|m: int| 0 <= m < j ==> (#[trigger] parts@[m])@ == values@.subrange(d * m, d * m + d),
        decreases count - j,
    {
        let mut part: Vec<T> = Vec::new();
        let mut i: usize = 0;
        proof {
            assert(d * j + d <= values@.len()) by (nonlinear_arith)
                requires j < count, count == values@.len() / (d as nat), d > 0, values@.len() % (d as nat) == 0;
        }
        let base = d * j;
        while i < d
            invariant
                i <= d,
                base == d * j,
                total == values@.len(),
                base + d <= values@.len(),
                part@ == values@.subrange(base as int, base + i),
            decreases d - i,
        {
            part.push(values[base + i]);
            i = i + 1;
            proof {
                assert(part@ =~= values@.subrange(base as int, base + i));
            }
        }
        parts.push(part);
        j = j + 1;
    }
    let ghost before = parts@;
    proof {
        assert(exists|k: nat| pow2(k) == parts@.len()) by {
            assert(pow2(log_count as nat) == parts@.len());
        }
    }
    reverse_index_bits(&mut parts);
    proof {
        assert forall|k: nat| #[trigger] pow2(k) == parts@.len() implies forall|j: int|
            0 <= j < parts@.len() ==> (#[trigger] parts@[j])@ == values@.subrange(
                d * bit_reverse(j as nat, k),
                d * bit_reverse(j as nat, k) + d,
            ) by {
            assert forall|j: int| 0 <= j < parts@.len() implies (#[trigger] parts@[j])@ == values@.subrange(
                d * bit_reverse(j as nat, k),
                d * bit_reverse(j as nat, k) + d,
            ) by {
                lemma_bit_reverse_bound(j as nat, k);
                let m = bit_reverse(j as nat, k) as int;
                assert(parts@[j] == before[m]);
            }
        }
    }
    Ok(parts)
}

/// The final decision: the quotient value reconstructed from the openings
/// must equal the value that the constraints give, coordinate by coordinate.
pub fn check_quotient_value(reconstructed: &Vec<BabyBear>, expected: &Vec<BabyBear>) -> (r: Result<(), VerificationError>)
    ensures
        r is Ok <==> reconstructed@ == expected@,
        r is Err ==> r == Err::<(), VerificationError>(VerificationError::OodEvaluationMismatch),
{
    if reconstructed.len() != expected.len() {
        return Err(VerificationError::OodEvaluationMismatch);
    }
    let mut i: usize = 0;
    while i < reconstructed.len()
        invariant
            i <= reconstructed@.len(),
            reconstructed@.len() == expected@.len(),
            forall|j: int| 0 <= j < i ==> reconstructed@[j] == expected@[j],
        decreases reconstructed.len() - i,
    {
        if reconstructed[i] != expected[i] {
            return Err(VerificationError::OodEvaluationMismatch);
        }
        i = i + 1;
    }
    proof {
        assert(reconstructed@ =~= expected@);
    }
    Ok(())
}

} // verus!
