//! Alignment records as plain values.
//!
//! An alignment record carries exactly what the coverage engine reads from a
//! stored alignment: the unmapped flag, the optional 1-based start position
//! on the reference, and the ordered list of CIGAR operations.  The span a
//! record covers on the reference is the sum of the lengths of the
//! operations that advance the reference coordinate; insertions and clips
//! contribute nothing.

use vstd::prelude::*;

verus! {

/// Kind of one CIGAR operation.
#[derive(Clone, Copy, Debug, PartialEq, Eq, Structural)]
pub enum CigarOpKind {
    Match,
    Insertion,
    Deletion,
    Skip,
    SoftClip,
    HardClip,
    Pad,
    SequenceMatch,
    SequenceMismatch,
}

/// One CIGAR operation: a kind and a length in bases.
#[derive(Clone, Copy, Debug, PartialEq, Eq, Structural)]
pub struct CigarOp {
    pub kind: CigarOpKind,
    pub len: u32,
}

/// Whether an operation advances the reference coordinate.
pub open spec fn consumes_reference(kind: CigarOpKind) -> bool {
    match kind {
        CigarOpKind::Match => true,
        CigarOpKind::Deletion => true,
        CigarOpKind::Skip => true,
        CigarOpKind::SequenceMatch => true,
        CigarOpKind::SequenceMismatch => true,
        CigarOpKind::Insertion => false,
        CigarOpKind::SoftClip => false,
        CigarOpKind::HardClip => false,
        CigarOpKind::Pad => false,
    }
}

/// Number of reference bases consumed by a CIGAR operation list.
pub open spec fn spec_reference_span(ops: Seq<CigarOp>) -> nat
    decreases ops.len(),
{
    if ops.len() == 0 {
        0
    } else {
        spec_reference_span(ops.drop_last()) + (if consumes_reference(ops.last().kind) {
            ops.last().len as nat
        } else {
            0nat
        })
    }
}

pub proof fn lemma_reference_span_concat(a: Seq<CigarOp>, b: Seq<CigarOp>)
    ensures
        spec_reference_span(a + b) == spec_reference_span(a) + spec_reference_span(b),
    decreases b.len(),
{
    if b.len() == 0 {
        assert(a + b =~= a);
    } else {
        lemma_reference_span_concat(a, b.drop_last());
        assert((a + b).drop_last() =~= a + b.drop_last());
        assert((a + b).last() == b.last());
    }
}

/// The span of a prefix never exceeds the span of the whole list.
pub proof fn lemma_reference_span_prefix(ops: Seq<CigarOp>, i: int)
    requires
        0 <= i <= ops.len(),
    ensures
        spec_reference_span(ops.subrange(0, i)) <= spec_reference_span(ops),
{
    let pre = ops.subrange(0, i);
    let post = ops.subrange(i, ops.len() as int);
    assert(ops =~= pre + post);
    lemma_reference_span_concat(pre, post);
}

/// Whether an operation kind advances the reference coordinate.
pub fn op_consumes_reference(kind: CigarOpKind) -> (b: bool)
    ensures
        b == consumes_reference(kind),
{
    match kind {
        CigarOpKind::Match => true,
        CigarOpKind::Deletion => true,
        CigarOpKind::Skip => true,
        CigarOpKind::SequenceMatch => true,
        CigarOpKind::SequenceMismatch => true,
        CigarOpKind::Insertion => false,
        CigarOpKind::SoftClip => false,
        CigarOpKind::HardClip => false,
        CigarOpKind::Pad => false,
    }
}

/// Reference span of an operation list, or `None` when the sum does not fit
/// in a `u32` (such a list is treated as malformed by the engine).
pub fn reference_span_checked(ops: &Vec<CigarOp>) -> (r: Option<u32>)
    ensures
        match r {
            Some(span) => span == spec_reference_span(ops@),
            None => spec_reference_span(ops@) > u32::MAX,
        },
{
    let ghost s = ops@;
    let mut sum: u64 = 0;
    let mut i: usize = 0;
    while i < ops.len()
        invariant
            ops@ == s,
            i <= s.len(),
            sum == spec_reference_span(s.subrange(0, i as int)),
            sum <= u32::MAX,
        decreases s.len() - i,
    {
        let op = ops[i];
        proof {
            let pref1 = s.subrange(0, i + 1);
            assert(pref1.drop_last() =~= s.subrange(0, i as int));
            assert(pref1.last() == s[i as int]);
        }
        if op_consumes_reference(op.kind) {
            sum = sum + op.len as u64;
        }
        if sum > u32::MAX as u64 {
            proof {
                lemma_reference_span_prefix(s, i + 1);
            }
            return None;
        }
        i = i + 1;
    }
    proof {
        assert(s.subrange(0, s.len() as int) =~= s);
    }
    Some(sum as u32)
}

/// Reference span of an operation list whose sum is known to fit in a `u32`.
pub fn calculate_reference_span(ops: &Vec<CigarOp>) -> (span: u32)
    requires
        spec_reference_span(ops@) <= u32::MAX,
    ensures
        span == spec_reference_span(ops@),
{
    let r = reference_span_checked(ops);
    match r {
        Some(span) => span,
        None => {
            proof {
                assert(false);
            }
            0
        },
    }
}

/// One alignment record, as handed to the engine by the alignment store.
#[derive(Clone, Debug)]
pub struct AlignmentRecord {
    /// The record is flagged unmapped; it covers nothing.
    pub unmapped: bool,
    /// 1-based start of the alignment on the reference; `None` when the
    /// record lacks a resolvable start and is dropped as malformed.
    pub alignment_start: Option<u32>,
    /// The record's CIGAR operations, in order.
    pub cigar: Vec<CigarOp>,
}

/// A record contributes coverage only when it is mapped, has a start
/// position, and its span fits in a `u32`; anything else is expected noise
/// and is silently dropped.
pub open spec fn record_usable(r: AlignmentRecord) -> bool {
    &&& !r.unmapped
    &&& r.alignment_start is Some
    &&& spec_reference_span(r.cigar@) <= u32::MAX
}

/// Whether a record covers reference position `p`: usable records cover the
/// half-open window starting at their alignment start and extending for
/// their reference span.
pub open spec fn record_covers(r: AlignmentRecord, p: u32) -> bool {
    &&& record_usable(r)
    &&& r.alignment_start->0 <= p
    &&& (p as int) < r.alignment_start->0 + spec_reference_span(r.cigar@)
}

/// Number of records in the sequence that cover position `p`.
pub open spec fn covered_count(records: Seq<AlignmentRecord>, p: u32) -> nat
    decreases records.len(),
{
    if records.len() == 0 {
        0
    } else {
        covered_count(records.drop_last(), p) + (if record_covers(records.last(), p) {
            1nat
        } else {
            0nat
        })
    }
}

/// No more records cover a position than there are records.
pub proof fn lemma_covered_count_bounded(records: Seq<AlignmentRecord>, p: u32)
    ensures
        covered_count(records, p) <= records.len(),
    decreases records.len(),
{
    if records.len() > 0 {
        lemma_covered_count_bounded(records.drop_last(), p);
    }
}

} // verus!
